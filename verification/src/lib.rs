//! Basic strategy and count indices for blackjack, and a trainer that grades every decision.
//!
//! The solver is written over an arithmetic of the caller's ([`num::Scalar`]); its contracts
//! say which operations are carried out. What they come to as numbers is stated of an exact
//! arithmetic ([`exact`]).
pub mod num;
pub mod text;
pub mod card;
pub mod shoe;
pub mod armlaws;
pub mod cache;
pub mod chart;
pub mod chartlaws;
pub mod chartview;
pub mod column;
pub mod combinat;
pub mod config;
pub mod count;
pub mod countedlaws;
pub mod countlaws;
pub mod countshoe;
pub mod countw;
pub mod dealer;
pub mod dealerlaws;
pub mod deallaws;
pub mod drawing;
pub mod drawlaws;
pub mod drill;
pub mod drilllaws;
pub mod edgelaws;
pub mod exact;
pub mod fairlaws;
pub mod gradelaws;
pub mod grading;
pub mod hand;
pub mod handlaws;
pub mod index;
pub mod indexlaws;
pub mod keylaws;
pub mod listing;
pub mod movelaws;
pub mod occurrence;
pub mod panels;
pub mod panes;
pub mod partitions;
pub mod peeklaws;
pub mod playlaws;
pub mod reach;
pub mod reachlaws;
pub mod rebuildlaws;
pub mod round;
pub mod rowlaws;
pub mod rules;
pub mod schedule;
pub mod session;
pub mod sharelaws;
pub mod simulation;
pub mod solve;
pub mod split;
pub mod splitlaws;
pub mod sweep;
pub mod table;
pub mod tablelaws;
pub mod tiltlaws;
pub mod training;
pub mod trainview;
pub mod view;
pub mod viewlaws;
pub mod weightlaws;
