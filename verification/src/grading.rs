//! Grading a player's decisions against four references, from a beginner's rule to
//! the best play of the very hand and shoe.
use crate::card::Card;
use crate::chart::{CellInfo, ChartTable};
use crate::column::Column;
use crate::config::ShoeChoice;
use crate::drawing::Shoe;
use crate::hand::{
    best_move, best_move_spec, categorize, category_of, pair_of, pair_rank, HandCategory, Move,
    MoveEvs,
};
use crate::index::{
    changes_once, describes, in_run, law_runs_give_every_move, law_runs_tile_the_counts, seed_count,
    some_run_holds, Answers, Run,
};
use crate::num::{from_whole, zero, Scalar};
use crate::round::{pair_split_ev, pair_tally, pair_value};
use crate::rules::Ruleset;
use crate::shoe::{best, hard, single, size, taken, tally_bounds, CardCol, Tally};
use crate::simulation::basis_of;
use crate::solve::{build_evs_with_splits, dealable, hand_ev};
use crate::table::HandTable;
use vstd::prelude::*;

verus! {

broadcast use tally_bounds;

/// A play that a reference recommends, and its value on the very hand.
#[derive(Clone, Copy)]
pub struct RefPlay<N> {
    pub mv: Move,
    pub ev: N,
}

/// A graded decision: the move chosen next to the plays of the references.
#[derive(Clone, Copy)]
pub struct DecisionMark<N> {
    pub chosen: Move,
    /// The beginner's rule.
    pub simple: RefPlay<N>,
    /// The chart without a count.
    pub basic: RefPlay<N>,
    /// The chart at the player's count, where there is one.
    pub indexed: Option<RefPlay<N>>,
    /// The best play of the very hand and shoe.
    pub optimal: RefPlay<N>,
    /// The value of the move chosen.
    pub ev_chosen: N,
    /// Whether it is the first decision of the round.
    pub opening: bool,
}

/// The references.
#[derive(Clone, Copy, Debug, PartialEq, Eq, Structural)]
pub enum Reference {
    Simple,
    Basic,
    Indexed,
    Optimal,
}

impl Reference {
    pub open spec fn label_spec(self) -> Seq<char> {
        match self {
            Reference::Simple => "Simple"@,
            Reference::Basic => "Basic"@,
            Reference::Indexed => "Indexed"@,
            Reference::Optimal => "Optimal"@,
        }
    }

    /// Whether the reference has a play for every decision. The indices have none
    /// without a count.
    pub open spec fn all_round_spec(self) -> bool {
        self != Reference::Indexed
    }

    /// The play that the reference recommends.
    pub open spec fn play<N>(self, mark: DecisionMark<N>) -> Option<RefPlay<N>> {
        match self {
            Reference::Simple => Some(mark.simple),
            Reference::Basic => Some(mark.basic),
            Reference::Indexed => mark.indexed,
            Reference::Optimal => Some(mark.optimal),
        }
    }

    /// The name of the reference.
    pub fn label(self) -> (r: &'static str)
        ensures
            r@ == self.label_spec(),
    {
        match self {
            Reference::Simple => "Simple",
            Reference::Basic => "Basic",
            Reference::Indexed => "Indexed",
            Reference::Optimal => "Optimal",
        }
    }

    /// Whether the reference has a play for every decision.
    pub fn all_round(self) -> (r: bool)
        ensures
            r == self.all_round_spec(),
    {
        match self {
            Reference::Indexed => false,
            _ => true,
        }
    }

    fn get<N: Scalar>(self, mark: &DecisionMark<N>) -> (r: Option<RefPlay<N>>)
        ensures
            r == self.play(*mark),
    {
        match self {
            Reference::Simple => Some(mark.simple),
            Reference::Basic => Some(mark.basic),
            Reference::Indexed => mark.indexed,
            Reference::Optimal => Some(mark.optimal),
        }
    }
}

/// The reference at a place of the scoreboard, the weakest first.
pub open spec fn reference_at(i: int) -> Reference {
    if i <= 0 {
        Reference::Simple
    } else if i == 1 {
        Reference::Basic
    } else if i == 2 {
        Reference::Indexed
    } else {
        Reference::Optimal
    }
}

/// The score of one reference: how many decisions agreed with it, of how many; its
/// value and the player's over the rounds that it covers.
#[derive(Clone, Copy)]
pub struct RefScore<N> {
    pub which: Reference,
    pub agree: u32,
    pub decisions: u32,
    pub ev: N,
    pub rounds: u32,
    pub player_ev: N,
}

impl<N: Scalar> RefScore<N> {
    /// The score before any decision.
    pub open spec fn fresh(which: Reference) -> RefScore<N> {
        RefScore {
            which,
            agree: 0,
            decisions: 0,
            ev: zero::<N>(),
            rounds: 0,
            player_ev: zero::<N>(),
        }
    }

    /// The score with one more decision graded: agreement counts every decision for
    /// which the reference has a play. The first decision of a round values the round
    /// for the reference and for the player; a later one costs the player what it
    /// falls short of the best play, but only where the reference covers all rounds.
    pub open spec fn graded(self, mark: DecisionMark<N>) -> RefScore<N> {
        match self.which.play(mark) {
            None => self,
            Some(play) => RefScore {
                which: self.which,
                decisions: (self.decisions + 1) as u32,
                agree: if mark.chosen == play.mv {
                    (self.agree + 1) as u32
                } else {
                    self.agree
                },
                rounds: if mark.opening {
                    (self.rounds + 1) as u32
                } else {
                    self.rounds
                },
                ev: if mark.opening {
                    self.ev.plus_spec(play.ev)
                } else {
                    self.ev
                },
                player_ev: if mark.opening {
                    self.player_ev.plus_spec(mark.ev_chosen)
                } else if self.which.all_round_spec() {
                    self.player_ev.plus_spec(mark.ev_chosen.minus_spec(mark.optimal.ev))
                } else {
                    self.player_ev
                },
            },
        }
    }

    /// The score with one more round without a decision.
    pub open spec fn settled(self, ev: N) -> RefScore<N> {
        if self.which.all_round_spec() {
            RefScore {
                rounds: (self.rounds + 1) as u32,
                ev: self.ev.plus_spec(ev),
                player_ev: self.player_ev.plus_spec(ev),
                ..self
            }
        } else {
            self
        }
    }

    /// Whether the counters can take one more.
    pub open spec fn has_room(self) -> bool {
        self.agree <= self.decisions < u32::MAX && self.rounds < u32::MAX
    }

    fn new(which: Reference) -> (r: Self)
        ensures
            r == RefScore::<N>::fresh(which),
    {
        RefScore {
            which,
            agree: 0,
            decisions: 0,
            ev: from_whole(0),
            rounds: 0,
            player_ev: from_whole(0),
        }
    }

    /// Whether there is something to show: the references that cover all rounds always
    /// have, the others once they have covered one.
    pub fn shown(&self) -> (r: bool)
        ensures
            r == (self.which.all_round_spec() || self.rounds > 0),
    {
        self.which.all_round() || self.rounds > 0
    }

    /// What the player is ahead of the reference.
    pub fn gap(&self) -> (r: N)
        ensures
            r == self.player_ev.minus_spec(self.ev),
    {
        self.player_ev.minus(self.ev)
    }

    /// Grade one more decision.
    pub fn grade(&mut self, mark: &DecisionMark<N>)
        requires
            old(self).has_room(),
        ensures
            *final(self) == old(self).graded(*mark),
    {
        if let Some(play) = self.which.get(mark) {
            self.decisions = self.decisions + 1;
            if mark.chosen == play.mv {
                self.agree = self.agree + 1;
            }
            if mark.opening {
                self.rounds = self.rounds + 1;
                self.ev = self.ev.plus(play.ev);
                self.player_ev = self.player_ev.plus(mark.ev_chosen);
            } else if self.which.all_round() {
                self.player_ev = self.player_ev.plus(mark.ev_chosen.minus(mark.optimal.ev));
            }
        }
    }

    /// Settle one more round without a decision.
    pub fn settle_natural(&mut self, ev: N)
        requires
            old(self).has_room(),
        ensures
            *final(self) == old(self).settled(ev),
    {
        if self.which.all_round() {
            self.rounds = self.rounds + 1;
            self.ev = self.ev.plus(ev);
            self.player_ev = self.player_ev.plus(ev);
        }
    }
}

/// The scoreboard of a session.
#[derive(Clone, Copy)]
pub struct TrainStats<N> {
    pub rounds: u32,
    pub decisions: u32,
    pub refs: [RefScore<N>; 4],
    /// The player's value over all rounds.
    pub ev_player: N,
    /// The units won or lost.
    pub realized: N,
    /// The units bet.
    pub units_bet: N,
    pub count_quizzes: u32,
    pub count_correct: u32,
}

impl<N: Scalar> TrainStats<N> {
    /// Whether this is the scoreboard before the first round.
    pub open spec fn is_fresh(self) -> bool {
        &&& self.rounds == 0
        &&& self.decisions == 0
        &&& forall|i: int|
            0 <= i < 4 ==> #[trigger] self.refs@[i] == RefScore::<N>::fresh(reference_at(i))
        &&& self.ev_player == zero::<N>()
        &&& self.realized == zero::<N>()
        &&& self.units_bet == zero::<N>()
        &&& self.count_quizzes == 0
        &&& self.count_correct == 0
    }

    /// Whether the counters can take one more.
    pub open spec fn has_room(self) -> bool {
        &&& self.rounds < u32::MAX
        &&& self.decisions < u32::MAX
        &&& self.count_correct <= self.count_quizzes < u32::MAX
        &&& forall|i: int| 0 <= i < 4 ==> (#[trigger] self.refs@[i]).has_room()
    }

    /// Whether a scoreboard is this one with a decision graded in.
    pub open spec fn folds(self, before: Self, mark: DecisionMark<N>) -> bool {
        &&& self.decisions == before.decisions + 1
        &&& self.ev_player == if mark.opening {
            before.ev_player.plus_spec(mark.ev_chosen)
        } else {
            before.ev_player.plus_spec(mark.ev_chosen.minus_spec(mark.optimal.ev))
        }
        &&& forall|i: int|
            0 <= i < 4 ==> #[trigger] self.refs@[i] == before.refs@[i].graded(mark)
        &&& self.rounds == before.rounds
        &&& self.realized == before.realized
        &&& self.units_bet == before.units_bet
        &&& self.count_quizzes == before.count_quizzes
        &&& self.count_correct == before.count_correct
    }

    /// Whether a scoreboard is this one with a round without a decision.
    pub open spec fn folds_natural(self, before: Self, ev: N) -> bool {
        &&& self.ev_player == before.ev_player.plus_spec(ev)
        &&& forall|i: int|
            0 <= i < 4 ==> #[trigger] self.refs@[i] == before.refs@[i].settled(ev)
        &&& self.decisions == before.decisions
        &&& self.rounds == before.rounds
        &&& self.realized == before.realized
        &&& self.units_bet == before.units_bet
        &&& self.count_quizzes == before.count_quizzes
        &&& self.count_correct == before.count_correct
    }

    /// The scoreboard before the first round.
    pub fn new() -> (r: Self)
        ensures
            r.is_fresh(),
    {
        TrainStats {
            rounds: 0,
            decisions: 0,
            refs: [
                RefScore::new(Reference::Simple),
                RefScore::new(Reference::Basic),
                RefScore::new(Reference::Indexed),
                RefScore::new(Reference::Optimal),
            ],
            ev_player: from_whole(0),
            realized: from_whole(0),
            units_bet: from_whole(0),
            count_quizzes: 0,
            count_correct: 0,
        }
    }

    /// Whether the counters can take one more.
    pub fn room(&self) -> (r: bool)
        ensures
            r == self.has_room(),
    {
        let mut ok: bool = self.rounds < u32::MAX && self.decisions < u32::MAX && self.count_correct
            <= self.count_quizzes && self.count_quizzes < u32::MAX;
        let mut i: usize = 0;
        while i < 4
            invariant
                i <= 4,
                ok == (self.rounds < u32::MAX && self.decisions < u32::MAX && self.count_correct
                    <= self.count_quizzes < u32::MAX && forall|j: int|
                    0 <= j < i ==> (#[trigger] self.refs@[j]).has_room()),
            decreases 4 - i,
        {
            let r = self.refs[i];
            let fine: bool = r.agree <= r.decisions && r.decisions < u32::MAX && r.rounds < u32::MAX;
            assert(fine == self.refs@[i as int].has_room());
            ok = ok && fine;
            i += 1;
        }
        ok
    }

    /// Grade one more decision.
    pub fn fold_decision(&mut self, mark: &DecisionMark<N>)
        requires
            old(self).has_room(),
        ensures
            final(self).folds(*old(self), *mark),
    {
        self.decisions = self.decisions + 1;
        self.ev_player = if mark.opening {
            self.ev_player.plus(mark.ev_chosen)
        } else {
            self.ev_player.plus(mark.ev_chosen.minus(mark.optimal.ev))
        };
        let mut i: usize = 0;
        while i < 4
            invariant
                i <= 4,
                old(self).has_room(),
                forall|j: int|
                    0 <= j < i ==> #[trigger] self.refs@[j] == old(self).refs@[j].graded(*mark),
                forall|j: int| i <= j < 4 ==> #[trigger] self.refs@[j] == old(self).refs@[j],
                self.decisions == old(self).decisions + 1,
                self.ev_player == (if mark.opening {
                    old(self).ev_player.plus_spec(mark.ev_chosen)
                } else {
                    old(self).ev_player.plus_spec(mark.ev_chosen.minus_spec(mark.optimal.ev))
                }),
                self.rounds == old(self).rounds,
                self.realized == old(self).realized,
                self.units_bet == old(self).units_bet,
                self.count_quizzes == old(self).count_quizzes,
                self.count_correct == old(self).count_correct,
            decreases 4 - i,
        {
            let mut score = self.refs[i];
            assert(old(self).refs@[i as int].has_room());
            score.grade(mark);
            self.refs[i] = score;
            i += 1;
        }
    }

    /// Settle one more round without a decision: it has the same value for the player
    /// and for the references that cover all rounds.
    pub fn fold_no_decision(&mut self, ev: N)
        requires
            old(self).has_room(),
        ensures
            final(self).folds_natural(*old(self), ev),
    {
        self.ev_player = self.ev_player.plus(ev);
        let mut i: usize = 0;
        while i < 4
            invariant
                i <= 4,
                old(self).has_room(),
                forall|j: int|
                    0 <= j < i ==> #[trigger] self.refs@[j] == old(self).refs@[j].settled(ev),
                forall|j: int| i <= j < 4 ==> #[trigger] self.refs@[j] == old(self).refs@[j],
                self.decisions == old(self).decisions,
                self.ev_player == old(self).ev_player.plus_spec(ev),
                self.rounds == old(self).rounds,
                self.realized == old(self).realized,
                self.units_bet == old(self).units_bet,
                self.count_quizzes == old(self).count_quizzes,
                self.count_correct == old(self).count_correct,
            decreases 4 - i,
        {
            let mut score = self.refs[i];
            assert(old(self).refs@[i as int].has_room());
            score.settle_natural(ev);
            self.refs[i] = score;
            i += 1;
        }
    }
}

/// Whatever is graded or settled, the references that cover all rounds have the same
/// value for the player as the scoreboard: what they differ in is their own value.
pub proof fn law_player_value_is_shared<N: Scalar>(
    before: TrainStats<N>,
    after: TrainStats<N>,
    mark: DecisionMark<N>,
    ev: N,
    i: int,
)
    requires
        0 <= i < 4,
        before.refs@[i].which.all_round_spec(),
        before.refs@[i].player_ev == before.ev_player,
        after.folds(before, mark) || after.folds_natural(before, ev),
    ensures
        after.refs@[i].which == before.refs@[i].which,
        after.refs@[i].player_ev == after.ev_player,
{
    if after.folds(before, mark) {
        assert(after.refs@[i] == before.refs@[i].graded(mark));
    } else {
        assert(after.refs@[i] == before.refs@[i].settled(ev));
    }
}

/// The move that runs of counts recommend at a count: the first run that the count,
/// brought between the ends of the runs, lies in.
pub open spec fn run_move_spec(runs: Seq<Run>, ext: i16) -> Option<Move> {
    if runs.len() == 0 {
        None
    } else {
        let lo = runs[0].1;
        let hi = runs.last().2;
        let e = if ext < lo {
            lo
        } else if ext > hi {
            hi
        } else {
            ext
        };
        first_run(runs, e, 0)
    }
}

/// The move of the first run from place `i` on that a count lies in.
pub open spec fn first_run(runs: Seq<Run>, e: i16, i: int) -> Option<Move>
    decreases runs.len() - i,
{
    if i < 0 || i >= runs.len() {
        None
    } else if runs[i].1 <= e <= runs[i].2 {
        Some(runs[i].0)
    } else {
        first_run(runs, e, i + 1)
    }
}

/// The move that runs of counts recommend at a count.
pub fn run_move(runs: &Vec<Run>, ext: i16) -> (r: Option<Move>)
    ensures
        r == run_move_spec(runs@, ext),
{
    let n: usize = runs.len();
    if n == 0 {
        return None;
    }
    let lo: i16 = runs[0].1;
    let hi: i16 = runs[n - 1].2;
    let e: i16 = if ext < lo {
        lo
    } else if ext > hi {
        hi
    } else {
        ext
    };
    let mut i: usize = 0;
    while i < n
        invariant
            i <= n,
            n == runs.len(),
            first_run(runs@, e, i as int) == run_move_spec(runs@, ext),
        decreases n - i,
    {
        if runs[i].1 <= e && e <= runs[i].2 {
            return Some(runs[i].0);
        }
        i += 1;
    }
    None
}

/// The best of the first `k` moves of a list, by its value; the later one where two are
/// equal. Moves without a value are passed over.
pub open spec fn best_allowed_upto<N: Scalar>(
    evs: MoveEvs<N>,
    allowed: Seq<Move>,
    k: int,
) -> Option<(Move, N)>
    decreases k,
{
    if k <= 0 {
        None
    } else {
        let so_far = best_allowed_upto(evs, allowed, k - 1);
        match (evs.at(allowed[k - 1]), so_far) {
            (None, _) => so_far,
            (Some(ev), None) => Some((allowed[k - 1], ev)),
            (Some(ev), Some((mv, top))) => if ev.less_spec(top) {
                so_far
            } else {
                Some((allowed[k - 1], ev))
            },
        }
    }
}

/// The best of a list of moves by its value, or the best of all where none of the list
/// has a value.
pub open spec fn best_allowed<N: Scalar>(evs: MoveEvs<N>, allowed: Seq<Move>) -> Move {
    match best_allowed_upto(evs, allowed, allowed.len() as int) {
        Some((mv, ev)) => mv,
        None => best_move_spec(evs),
    }
}

/// The best of the moves that are allowed.
pub fn best_allowed_move<N: Scalar>(evs: &MoveEvs<N>, allowed: &Vec<Move>) -> (r: Move)
    requires
        evs.offers_any(),
    ensures
        r == best_allowed(*evs, allowed@),
{
    let mut top: Option<(Move, N)> = None;
    let mut i: usize = 0;
    while i < allowed.len()
        invariant
            i <= allowed.len(),
            top == best_allowed_upto(*evs, allowed@, i as int),
        decreases allowed.len() - i,
    {
        let mv = allowed[i];
        if let Some(ev) = evs.get(mv) {
            top = match top {
                None => Some((mv, ev)),
                Some((other, value)) => if ev.less(value) {
                    Some((other, value))
                } else {
                    Some((mv, ev))
                },
            };
        }
        i += 1;
    }
    match top {
        Some((mv, _)) => mv,
        None => best_move(evs),
    }
}

/// The beginner's rule: split aces and eights; stand on 18 and more; double ten and
/// eleven of two cards where that is more than the dealer shows; against a card up to
/// six stand on hard 12, else on hard 17; hit otherwise.
pub open spec fn simple_move_spec(t: Tally, up: Card) -> Move {
    let shown: int = match up {
        Card::Ace => 11,
        _ => up.value(),
    };
    if pair_of(t) == Some(Card::Ace) || pair_of(t) == Some(Card::Pip(8)) {
        Move::Split
    } else if best(t) >= 18 {
        Move::Stand
    } else if size(t) == 2 && 10 <= hard(t) <= 11 && hard(t) > shown {
        Move::Double
    } else if hard(t) >= if shown <= 6 {
        12int
    } else {
        17
    } {
        Move::Stand
    } else {
        Move::Hit
    }
}

/// The beginner's rule.
pub fn simple_move(hand: &CardCol, up: Card) -> (r: Move)
    requires
        up.valid(),
        best(hand@) <= u8::MAX,
    ensures
        r == simple_move_spec(hand@, up),
{
    let shown: u8 = match up {
        Card::Ace => 11,
        _ => up.hard(),
    };
    if let Some(rank) = pair_rank(hand) {
        if rank == Card::Ace || rank == Card::Pip(8) {
            return Move::Split;
        }
    }
    if hand.best_count() >= 18 {
        return Move::Stand;
    }
    let total: u8 = hand.hard_count();
    if hand.len() == 2 && total >= 10 && total <= 11 && total > shown {
        return Move::Double;
    }
    let stand_at: u8 = if shown <= 6 {
        12
    } else {
        17
    };
    if total >= stand_at {
        Move::Stand
    } else {
        Move::Hit
    }
}

/// A move if it has a value, else hitting, else standing, else the move after all.
pub open spec fn coerced<N: Scalar>(mv: Move, evs: MoveEvs<N>) -> Move {
    if evs.at(mv) is Some {
        mv
    } else if evs.hit is Some {
        Move::Hit
    } else if evs.stand is Some {
        Move::Stand
    } else {
        mv
    }
}

/// A move that the hand can make in place of one that it cannot.
pub fn coerce_available<N: Scalar>(mv: Move, evs: &MoveEvs<N>) -> (r: Move)
    ensures
        r == coerced(mv, *evs),
{
    if evs.get(mv).is_some() {
        mv
    } else if evs.get(Move::Hit).is_some() {
        Move::Hit
    } else if evs.get(Move::Stand).is_some() {
        Move::Stand
    } else {
        mv
    }
}

/// The values of splitting that a single hand needs: its own, if it is a pair.
pub open spec fn own_split<N: Scalar>(shoe: Tally, t: Tally, up: Card, rules: Ruleset) -> Map<
    Tally,
    N,
> {
    match pair_of(t) {
        Some(rank) => if rules.max_split_hands >= 2 {
            Map::empty().insert(t, pair_value::<N, CardCol>(shoe, up, rules, rank))
        } else {
            Map::empty()
        },
        None => Map::empty(),
    }
}

/// The values of the moves of a hand on a shoe that still holds the up-card and the
/// hand.
pub open spec fn finite_evs<N: Scalar>(shoe: Tally, t: Tally, up: Card, rules: Ruleset) -> Option<
    MoveEvs<N>,
> {
    let after = taken(shoe, single(up));
    if dealable::<N, CardCol>(after, t) {
        Some(
            hand_ev::<N, CardCol>(
                basis_of(up, rules),
                rules,
                after,
                own_split::<N>(shoe, t, up, rules),
                t,
            ),
        )
    } else {
        None
    }
}

/// The values of the moves of a hand on a shoe that still holds the up-card and the
/// hand, if the hand can be dealt from it.
pub fn finite_move_evs<N: Scalar>(
    solver_shoe: &CardCol,
    hand: &CardCol,
    up: Card,
    rules: &Ruleset,
) -> (r: Option<MoveEvs<N>>)
    requires
        up.valid(),
        solver_shoe@[up.rank()] > 0,
    ensures
        r == finite_evs::<N>(solver_shoe@, hand@, up, *rules),
        r matches Some(evs) ==> evs.offers_any(),
{
    let mut splits: HandTable<N> = HandTable::new();
    if let Some(rank) = pair_rank(hand) {
        if rules.max_split_hands >= 2 {
            proof {
                let t = hand@;
                crate::round::pair_tally_is_pair(rank.rank());
                crate::card::law_rank_round_trip(rank, 0);
                crate::hand::pair_is_unique(t, rank.rank());
                crate::hand::pair_is_unique(pair_tally(rank), rank.rank());
                assert(t =~= pair_tally(rank));
            }
            let ev: N = pair_split_ev(hand, solver_shoe, up, rules);
            splits.insert(*hand, ev);
        }
    }
    assert(splits.map() =~= own_split::<N>(solver_shoe@, hand@, up, *rules));
    let tree = build_evs_with_splits(solver_shoe, up, rules, &splits);
    proof {
        let after = taken(solver_shoe@, single(up));
        <CardCol as Shoe<N>>::without_supply(solver_shoe@, single(up));
        crate::reach::trees_are_playable::<N, CardCol>(
            tree.map(),
            basis_of(up, *rules),
            *rules,
            after,
            splits.map(),
        );
        assert(tree.map().contains_key(hand@) <==> dealable::<N, CardCol>(after, hand@));
    }
    match tree.get(hand) {
        Some(entry) => Some(entry.1),
        None => None,
    }
}

/// A decision to grade: the hand and the up-card, the move chosen, the moves allowed, the
/// indexed move where there is one, and the shoe to solve where it is finite.
pub struct EvalJob {
    pub seq: u64,
    pub up: Card,
    pub hand: CardCol,
    pub rules: Ruleset,
    pub shoe: ShoeChoice,
    pub chosen: Move,
    pub allowed: Vec<Move>,
    pub indexed: Option<Move>,
    pub finite_shoe: Option<CardCol>,
    pub opening: bool,
}

/// A graded decision. The chart without a count comes along where it had to be solved.
pub struct EvalResult<N> {
    pub seq: u64,
    pub up: Card,
    pub mark: Option<DecisionMark<N>>,
    pub basic_summary: Option<ChartTable<CellInfo<N>>>,
}

/// The value of a move, or that of the best one where the move has none.
pub open spec fn value_or_best<N: Scalar>(evs: MoveEvs<N>, mv: Move) -> N {
    match evs.at(mv) {
        Some(ev) => ev,
        None => evs.at(best_move_spec(evs))->0,
    }
}

/// A reference's play with its value on the hand.
pub open spec fn play_of<N: Scalar>(evs: MoveEvs<N>, mv: Move) -> RefPlay<N> {
    RefPlay { mv, ev: value_or_best(evs, mv) }
}

/// The mark of a decision, from the values of the hand's moves and those of the chart
/// row that it belongs to.
pub open spec fn mark_of<N: Scalar>(
    job: EvalJob,
    evs: MoveEvs<N>,
    row: Option<MoveEvs<N>>,
) -> DecisionMark<N> {
    DecisionMark {
        chosen: job.chosen,
        simple: play_of(evs, coerced(simple_move_spec(job.hand@, job.up), evs)),
        basic: play_of(
            evs,
            match row {
                Some(r) => best_allowed(r, job.allowed@),
                None => best_move_spec(evs),
            },
        ),
        indexed: match job.indexed {
            Some(mv) => Some(play_of(evs, mv)),
            None => None,
        },
        optimal: play_of(evs, best_move_spec(evs)),
        ev_chosen: value_or_best(evs, job.chosen),
        opening: job.opening,
    }
}

fn value_of<N: Scalar>(evs: &MoveEvs<N>, mv: Move, fallback: N) -> (r: N)
    requires
        evs.offers_any(),
        Some(fallback) == evs.at(best_move_spec(*evs)),
    ensures
        r == value_or_best(*evs, mv),
{
    match evs.get(mv) {
        Some(ev) => ev,
        None => fallback,
    }
}

/// Grade a decision from the values of the hand's moves and those of its chart row.
pub fn grade_decision<N: Scalar>(job: &EvalJob, evs: &MoveEvs<N>, row: Option<MoveEvs<N>>) -> (r:
    DecisionMark<N>)
    requires
        job.up.valid(),
        hard(job.hand@) <= 21,
        evs.offers_any(),
        row matches Some(m) ==> m.offers_any(),
    ensures
        r == mark_of(*job, *evs, row),
{
    let optimal = best_move(evs);
    let top: N = match evs.get(optimal) {
        Some(ev) => ev,
        None => from_whole(0),
    };
    let basic: Move = match &row {
        Some(r) => best_allowed_move(r, &job.allowed),
        None => optimal,
    };
    let simple: Move = coerce_available(simple_move(&job.hand, job.up), evs);
    let indexed: Option<RefPlay<N>> = match job.indexed {
        Some(mv) => Some(RefPlay { mv, ev: value_of(evs, mv, top) }),
        None => None,
    };
    DecisionMark {
        chosen: job.chosen,
        simple: RefPlay { mv: simple, ev: value_of(evs, simple, top) },
        basic: RefPlay { mv: basic, ev: value_of(evs, basic, top) },
        indexed,
        optimal: RefPlay { mv: optimal, ev: value_of(evs, optimal, top) },
        ev_chosen: value_of(evs, job.chosen, top),
        opening: job.opening,
    }
}

/// The values of a row of a chart, if it has the row.
pub open spec fn row_of<N: Scalar>(table: ChartTable<CellInfo<N>>, cat: HandCategory) -> Option<
    MoveEvs<N>,
> {
    match table.at(cat) {
        Some(cell) => Some(cell.move_evs),
        None => None,
    }
}

/// Whether every row of a chart offers a move.
pub open spec fn rows_offer<N: Scalar>(table: ChartTable<CellInfo<N>>) -> bool {
    forall|i: int|
        0 <= i < table.entries().len() ==> (
        #[trigger] table.entries()[i]).1.move_evs.offers_any()
}

/// The mark of a decision where the chart without a count is known. The values of the
/// hand's moves are those of the finite shoe, or, on the infinite deck, those of the row.
pub open spec fn mark_by<N: Scalar>(job: EvalJob, table: ChartTable<CellInfo<N>>) -> Option<
    DecisionMark<N>,
> {
    let row = row_of(table, category_of(job.hand@));
    let evs = match job.finite_shoe {
        Some(shoe) => finite_evs::<N>(shoe@, job.hand@, job.up, job.rules),
        None => row,
    };
    match evs {
        Some(e) => Some(mark_of(job, e, row)),
        None => None,
    }
}

fn mark_with<N: Scalar>(job: &EvalJob, table: &ChartTable<CellInfo<N>>) -> (r: Option<
    DecisionMark<N>,
>)
    requires
        job.up.valid(),
        hard(job.hand@) <= 21,
        job.finite_shoe matches Some(shoe) ==> shoe@[job.up.rank()] > 0,
        table.wf(),
        rows_offer(*table),
    ensures
        r == mark_by(*job, *table),
{
    let cat = categorize(&job.hand);
    let row: Option<MoveEvs<N>> = match table.get(cat) {
        Some(cell) => {
            proof {
                let i = choose|i: int|
                    0 <= i < table.entries().len() && (#[trigger] table.entries()[i]).0 == cat;
                assert(table.entries()[i].1.move_evs.offers_any());
            }
            Some(cell.move_evs)
        },
        None => None,
    };
    let evs: Option<MoveEvs<N>> = match &job.finite_shoe {
        Some(shoe) => finite_move_evs(shoe, &job.hand, job.up, &job.rules),
        None => row,
    };
    match evs {
        Some(e) => Some(grade_decision(job, &e, row)),
        None => None,
    }
}

/// Grade a decision. Where the chart without a count is not known it is solved.
pub fn run_eval<N: Scalar>(job: &EvalJob, known: Option<&ChartTable<CellInfo<N>>>) -> (r:
    EvalResult<N>)
    requires
        job.up.valid(),
        hard(job.hand@) <= 21,
        job.finite_shoe matches Some(shoe) ==> shoe@[job.up.rank()] > 0,
        job.shoe matches ShoeChoice::Decks(n) ==> n > 0,
        known matches Some(table) ==> table.wf() && rows_offer(*table),
    ensures
        r.seq == job.seq,
        r.up == job.up,
        match known {
            Some(table) => r.basic_summary is None && r.mark == mark_by(*job, *table),
            None => exists|c: Column<N>| #[trigger]
                job.shoe.is_solved(c, job.up, job.rules, None) && r.basic_summary == Some(
                    c.summary,
                ) && r.mark == mark_by(*job, c.summary),
        },
{
    match known {
        Some(table) => EvalResult {
            seq: job.seq,
            up: job.up,
            mark: mark_with(job, table),
            basic_summary: None,
        },
        None => {
            let column: Column<N> = job.shoe.solve(job.up, &job.rules, None);
            assert(job.shoe.is_solved(column, job.up, job.rules, None));
            let mark = mark_with(job, &column.summary);
            EvalResult { seq: job.seq, up: job.up, mark, basic_summary: Some(column.summary) }
        },
    }
}

/// Where smaller values come before larger ones, no reference's play is worth more than
/// the best one, and neither is the move chosen.
pub proof fn law_optimal_is_never_beaten<N: Scalar>(
    job: EvalJob,
    evs: MoveEvs<N>,
    row: Option<MoveEvs<N>>,
)
    requires
        crate::hand::ranks::<N>(),
        evs.offers_any(),
    ensures
        ({
            let m = mark_of(job, evs, row);
            &&& !m.optimal.ev.less_spec(m.ev_chosen)
            &&& !m.optimal.ev.less_spec(m.simple.ev)
            &&& !m.optimal.ev.less_spec(m.basic.ev)
            &&& m.indexed matches Some(p) ==> !m.optimal.ev.less_spec(p.ev)
        }),
{
    let m = mark_of(job, evs, row);
    best_value_tops(evs, m.chosen);
    best_value_tops(evs, m.simple.mv);
    best_value_tops(evs, m.basic.mv);
    if let Some(p) = m.indexed {
        best_value_tops(evs, p.mv);
    }
}

proof fn best_value_tops<N: Scalar>(evs: MoveEvs<N>, mv: Move)
    requires
        crate::hand::ranks::<N>(),
        evs.offers_any(),
    ensures
        !value_or_best(evs, best_move_spec(evs)).less_spec(value_or_best(evs, mv)),
{
    crate::chart::offered_has_best(evs);
    crate::hand::best_is_offered(evs, 5);
    let b = best_move_spec(evs);
    crate::hand::law_best_move_is_best(evs, b);
    if evs.at(mv) is Some {
        crate::hand::law_best_move_is_best(evs, mv);
    }
}

/// The first run that a count lies in is a run that it lies in.
proof fn first_run_holds(runs: Seq<Run>, e: i16, i: int, j: int) -> (k: int)
    requires
        0 <= i <= j < runs.len(),
        in_run(runs[j], e as int),
    ensures
        i <= k <= j,
        in_run(runs[k], e as int),
        first_run(runs, e, i) == Some(runs[k].0),
    decreases j - i,
{
    if in_run(runs[i], e as int) {
        i
    } else {
        first_run_holds(runs, e, i + 1, j)
    }
}

/// Where every count has a move, the runs recommend one at every count, also beyond their
/// ends. Where no move comes back between two neighbouring counts of those looked at first,
/// it is the move of the count, or of the nearest that the runs reach.
pub proof fn law_runs_recommend_everywhere(
    runs: Seq<Run>,
    f: Answers,
    lo: i16,
    hi: i16,
    ext: i16,
)
    requires
        describes(runs, f, lo, hi),
        lo <= hi,
        forall|y: i16| lo <= y <= hi ==> #[trigger] f(y) is Some,
    ensures
        run_move_spec(runs, ext) is Some,
        (forall|k: int|
            0 <= k < seed_count(lo as int, hi as int) - 1 ==> #[trigger] changes_once(f, lo, hi, k))
            ==> run_move_spec(runs, ext) == f(
            if ext < lo {
                lo
            } else if ext > hi {
                hi
            } else {
                ext
            },
        ),
{
    let e = if ext < lo {
        lo
    } else if ext > hi {
        hi
    } else {
        ext
    };
    law_runs_tile_the_counts(runs, f, lo, hi);
    some_run_holds(runs, f, lo, hi, e, 0);
    let j = choose|j: int| 0 <= j < runs.len() && in_run(#[trigger] runs[j], e as int);
    let k = first_run_holds(runs, e, 0, j);
    if forall|k: int|
        0 <= k < seed_count(lo as int, hi as int) - 1 ==> #[trigger] changes_once(f, lo, hi, k) {
        law_runs_give_every_move(runs, f, lo, hi, e);
    }
}

} // verus!
