//! The training session: the table, the scoreboard, the count quiz and the grading of
//! decisions that goes on behind the game.
use crate::card::Card;
use crate::chart::{CellInfo, ChartTable};
use crate::config::ShoeChoice;
use crate::drawing::InfiniteDeck;
use crate::grading::{run_move, run_move_spec, DecisionMark, EvalJob, EvalResult, TrainStats};
use crate::hand::{categorize, category_of, Move};
use crate::num::{from_whole, minus_one, one, zero, Scalar};
use crate::rules::{default_rules, Ruleset};
use crate::shoe::{
    deck_tally, hard, is_natural, joined, single, size, taken, tally_bounds, with_card, CardCol,
    Tally,
};
use crate::simulation::{dealer_natural_prob, natural_chance};
use crate::sweep::IndexReport;
use crate::training::{
    all_valid, bets_upto, few_cards, may_look, net_upto, random_cards, OpeningEnd, Phase, ShoeView,
    Table, TableView, TrainShoe,
};
use rand::rngs::SmallRng;
use vstd::prelude::*;

verus! {

broadcast use tally_bounds;

/// What the session tells the player.
#[derive(Clone, Copy)]
pub enum Notice<N> {
    Welcome,
    Dealing,
    YourMove,
    NotAllowed(Move),
    CountCorrect(i16),
    CountWas { count: i16, guess: i16 },
    RoundNet(N),
}

/// A training session.
pub struct Training<N> {
    pub table: Table<N>,
    pub stats: TrainStats<N>,
    /// Whether the count is being asked.
    pub entering_count: bool,
    pub count_entry: i16,
    /// The decision graded last.
    pub last_mark: Option<DecisionMark<N>>,
    pub notice: Notice<N>,
    /// The rules that the charts without a count have been solved for.
    pub basic_rules: Ruleset,
    /// The number of the next decision to grade.
    pub eval_seq: u64,
    /// Decisions with a lower number were made under other rules or at another shoe.
    pub eval_valid_from: u64,
    /// The number of the decision graded last.
    pub last_mark_seq: u64,
    /// How many decisions are being graded.
    pub pending_evals: u32,
}

/// The value of a round that the dealer's natural ends: a natural of the player's is a
/// push, everything else loses the bet.
pub open spec fn dealer_natural_value<N: Scalar>(player_natural: bool) -> N {
    if player_natural {
        zero::<N>()
    } else {
        minus_one::<N>()
    }
}

/// The chance of a natural of the dealer's, as far as the player can tell: the hole card
/// is one of the cards not seen.
pub open spec fn hole_chance<N: Scalar>(v: TableView<N>, up: Card) -> N {
    match v.shoe {
        ShoeView::Finite { cards, n_decks } => natural_chance::<N, CardCol>(
            with_card(cards, v.dealer[1]),
            up,
        ),
        ShoeView::Infinite => natural_chance::<N, InfiniteDeck>((), up),
    }
}

/// The value of a round with a natural of the player's: what it pays, and where the dealer
/// does not look but may have a natural too, that times the chance that there is none.
pub open spec fn player_natural_value<N: Scalar>(v: TableView<N>, rules: Ruleset) -> N {
    let up = v.dealer[0];
    let pays = rules.bj_payout.multiplier_spec::<N>();
    if !rules.peek.peeks_spec() && may_look(up) {
        pays.times_spec(one::<N>().minus_spec(hole_chance(v, up)))
    } else {
        pays
    }
}

/// Whether a decision is the first of its round.
pub open spec fn is_opening<N: Scalar>(v: TableView<N>) -> bool {
    v.active == 0 && v.hands.len() == 1 && v.hands[0].cards.len() == 2
}

/// The shoe that the player knows: the cards not seen, the up-card and the hand.
pub open spec fn solver_shoe<N: Scalar>(v: TableView<N>) -> Option<Tally> {
    match v.shoe {
        ShoeView::Finite { cards, n_decks } => Some(
            joined(
                with_card(with_card(cards, v.dealer[1]), v.dealer[0]),
                v.hands[v.active].tally(),
            ),
        ),
        ShoeView::Infinite => None,
    }
}

/// The move at a place of the list of all moves.
pub open spec fn any_move(i: int) -> Move {
    if i <= 0 {
        Move::Hit
    } else if i == 1 {
        Move::Stand
    } else if i == 2 {
        Move::Double
    } else if i == 3 {
        Move::Split
    } else {
        Move::Surrender
    }
}

/// The moves among the first `k` that are allowed.
pub open spec fn allowed_upto<N: Scalar>(v: TableView<N>, rules: Ruleset, k: int) -> Seq<Move>
    decreases k,
{
    if k <= 0 {
        Seq::empty()
    } else if v.allows(any_move(k - 1), rules) {
        allowed_upto(v, rules, k - 1).push(any_move(k - 1))
    } else {
        allowed_upto(v, rules, k - 1)
    }
}

/// The move that the count index recommends: that of the headline where the hand can still
/// make it, else that of hitting against standing.
pub open spec fn indexed_spec<N: Scalar>(
    v: TableView<N>,
    rules: Ruleset,
    report: Option<IndexReport>,
) -> Option<Move> {
    match (v.shoe, report) {
        (ShoeView::Finite { cards, n_decks }, Some(rep)) => match rep.cats.at(
            category_of(v.hands[v.active].tally()),
        ) {
            Some(ci) => match run_move_spec(ci.primary@, v.running_count as i16) {
                Some(mv) => if v.allows(mv, rules) {
                    Some(mv)
                } else {
                    run_move_spec(ci.fallback@, v.running_count as i16)
                },
                None => None,
            },
            None => None,
        },
        _ => None,
    }
}

impl<N: Scalar> Training<N> {
    /// Whether the session can go on: the table is right and the counters have room.
    pub open spec fn valid(&self) -> bool {
        &&& self.table.view().valid()
        &&& self.stats.has_room()
        &&& self.eval_seq < u64::MAX
        &&& self.pending_evals < u32::MAX
    }

    /// Whether the counters have room.
    pub fn has_room(&self) -> (r: bool)
        ensures
            r == (self.stats.has_room() && self.eval_seq < u64::MAX && self.pending_evals
                < u32::MAX),
    {
        self.stats.room() && self.eval_seq < u64::MAX && self.pending_evals < u32::MAX
    }

    /// A new session.
    pub fn new(choice: ShoeChoice) -> (r: Self)
        requires
            choice matches ShoeChoice::Decks(n) ==> n > 0,
        ensures
            r.valid(),
            r.table.choice_spec() == choice,
            r.table.view().phase == Phase::Ready,
            r.table.view() == TableView::<N>::fresh(ShoeView::of(choice)),
            r.stats.is_fresh(),
            !r.entering_count,
            r.count_entry == 0,
            r.last_mark is None,
            r.notice == Notice::<N>::Welcome,
            r.basic_rules == default_rules(),
            r.eval_seq == 0,
            r.eval_valid_from == 0,
            r.last_mark_seq == 0,
            r.pending_evals == 0,
    {
        Training {
            table: Table::new(choice),
            stats: TrainStats::new(),
            entering_count: false,
            count_entry: 0,
            last_mark: None,
            notice: Notice::Welcome,
            basic_rules: Ruleset::default(),
            eval_seq: 0,
            eval_valid_from: 0,
            last_mark_seq: 0,
            pending_evals: 0,
        }
    }

    /// Whether a session is this one at a fresh shoe: the round is given up, and decisions
    /// that are still being graded will be dropped. The scoreboard stays.
    pub open spec fn is_reset(&self, before: Self, choice: ShoeChoice) -> bool {
        &&& self.table.choice_spec() == choice
        &&& self.table.view() == TableView::<N>::fresh(ShoeView::of(choice))
        &&& self.last_mark is None
        &&& self.notice == Notice::<N>::Welcome
        &&& self.eval_valid_from == before.eval_seq
        &&& self.eval_seq == before.eval_seq
        &&& self.stats == before.stats
        &&& self.entering_count == before.entering_count
        &&& self.count_entry == before.count_entry
        &&& self.basic_rules == before.basic_rules
        &&& self.last_mark_seq == before.last_mark_seq
        &&& self.pending_evals == before.pending_evals
    }

    /// Begin again at a fresh shoe.
    pub fn reset_to(&mut self, choice: ShoeChoice)
        requires
            choice matches ShoeChoice::Decks(n) ==> n > 0,
        ensures
            final(self).is_reset(*old(self), choice),
            old(self).valid() ==> final(self).valid(),
    {
        self.table = Table::new(choice);
        self.last_mark = None;
        self.notice = Notice::Welcome;
        self.eval_valid_from = self.eval_seq;
    }

    /// Begin again where another shoe has been chosen.
    pub fn sync_shoe(&mut self, choice: ShoeChoice)
        requires
            choice matches ShoeChoice::Decks(n) ==> n > 0,
        ensures
            old(self).table.choice_spec() == choice ==> *final(self) == *old(self),
            old(self).table.choice_spec() != choice ==> final(self).is_reset(*old(self), choice),
            old(self).valid() ==> final(self).valid(),
    {
        if self.table.shoe().choice() != choice {
            self.reset_to(choice);
        }
    }

    /// Ask for the count.
    pub fn open_count(&mut self)
        ensures
            *final(self) == (Training { entering_count: true, ..*old(self) }),
    {
        self.entering_count = true;
    }

    /// Ask for the count no longer.
    pub fn cancel_count(&mut self)
        ensures
            *final(self) == (Training { entering_count: false, ..*old(self) }),
    {
        self.entering_count = false;
    }

    /// Move the guess of the count by one, up or down.
    pub fn move_guess(&mut self, up: bool)
        requires
            up ==> old(self).count_entry < i16::MAX,
            !up ==> old(self).count_entry > i16::MIN,
        ensures
            *final(self) == (Training {
                count_entry: if up {
                    (old(self).count_entry + 1) as i16
                } else {
                    (old(self).count_entry - 1) as i16
                },
                ..*old(self)
            }),
    {
        if up {
            self.count_entry = self.count_entry + 1;
        } else {
            self.count_entry = self.count_entry - 1;
        }
    }

    /// Score the guess of the count.
    pub fn submit_count(&mut self)
        requires
            old(self).stats.has_room(),
        ensures
            ({
                let count = old(self).table.view().running_count as i16;
                let right = old(self).count_entry == old(self).table.view().running_count;
                &&& final(self).stats == (TrainStats {
                    count_quizzes: (old(self).stats.count_quizzes + 1) as u32,
                    count_correct: if right {
                        (old(self).stats.count_correct + 1) as u32
                    } else {
                        old(self).stats.count_correct
                    },
                    ..old(self).stats
                })
                &&& final(self).notice == if right {
                    Notice::<N>::CountCorrect(count)
                } else {
                    Notice::<N>::CountWas { count, guess: old(self).count_entry }
                }
            }),
            !final(self).entering_count,
            final(self).table == old(self).table,
            final(self).count_entry == old(self).count_entry,
            final(self).last_mark == old(self).last_mark,
            final(self).last_mark_seq == old(self).last_mark_seq,
            final(self).basic_rules == old(self).basic_rules,
            final(self).eval_seq == old(self).eval_seq,
            final(self).eval_valid_from == old(self).eval_valid_from,
            final(self).pending_evals == old(self).pending_evals,
    {
        let count: i16 = self.table.running_count();
        self.stats.count_quizzes = self.stats.count_quizzes + 1;
        if self.count_entry == count {
            self.stats.count_correct = self.stats.count_correct + 1;
            self.notice = Notice::CountCorrect(count);
        } else {
            self.notice = Notice::CountWas { count, guess: self.count_entry };
        }
        self.entering_count = false;
    }
}

impl<N: Scalar> Training<N> {
    /// What a step of the game leaves as it was.
    pub open spec fn keeps(&self, before: Self) -> bool {
        &&& self.entering_count == before.entering_count
        &&& self.count_entry == before.count_entry
        &&& self.basic_rules == before.basic_rules
        &&& self.eval_seq == before.eval_seq
        &&& self.eval_valid_from == before.eval_valid_from
        &&& self.last_mark_seq == before.last_mark_seq
        &&& self.pending_evals == before.pending_evals
        &&& self.table.choice_spec() == before.table.choice_spec()
    }

    /// Begin a round with random cards.
    pub fn deal(&mut self, rng: &mut SmallRng)
        requires
            old(self).valid(),
            old(self).table.view().phase == Phase::Ready || old(self).table.view().phase
                == Phase::Settled,
            old(self).table.view().shuffled().shoe matches ShoeView::Finite { cards, n_decks }
                ==> size(cards) >= 4,
        ensures
            final(self).valid(),
            final(self).keeps(*old(self)),
            exists|cards: Seq<Card>|
                cards.len() == 4 && all_valid(cards) && old(self).table.view().shuffled().shoe.has(
                    cards,
                ) && final(self).table.view() == #[trigger] old(self).table.view().started(
                    cards,
                ).laid(),
            final(self).stats == old(self).stats,
            final(self).last_mark is None,
            final(self).notice == Notice::<N>::Dealing,
    {
        self.last_mark = None;
        self.notice = Notice::Dealing;
        self.table.deal(rng);
    }

    /// Begin a round with given cards.
    pub fn deal_cards(&mut self, cards: [Card; 4])
        requires
            old(self).valid(),
            old(self).table.view().phase == Phase::Ready || old(self).table.view().phase
                == Phase::Settled,
            all_valid(cards@),
            old(self).table.view().shuffled().shoe.has(cards@),
        ensures
            final(self).valid(),
            final(self).keeps(*old(self)),
            final(self).table.view() == old(self).table.view().started(cards@).laid(),
            final(self).stats == old(self).stats,
            final(self).last_mark is None,
            final(self).notice == Notice::<N>::Dealing,
    {
        self.last_mark = None;
        self.notice = Notice::Dealing;
        self.table.start_round(cards);
    }

    /// Lay out the next of the first four cards. Where that ends in a natural there is
    /// nothing to decide: the round goes into the scoreboard at its value.
    pub fn deal_step(&mut self, rules: &Ruleset)
        requires
            old(self).valid(),
            old(self).table.view().phase == Phase::Dealing,
        ensures
            final(self).table.view().valid(),
            final(self).keeps(*old(self)),
            final(self).last_mark == old(self).last_mark,
            ({
                let v = old(self).table.view();
                let laid = v.laid();
                if v.dealt < 3 {
                    &&& final(self).table.view() == laid
                    &&& final(self).stats == old(self).stats
                    &&& final(self).notice == old(self).notice
                } else {
                    &&& final(self).table.view() == laid.opened(*rules)
                    &&& match laid.opening_end(*rules) {
                        OpeningEnd::DealerNatural => {
                            &&& final(self).stats.folds_natural(
                                old(self).stats,
                                dealer_natural_value::<N>(is_natural(laid.hands[0].tally())),
                            )
                            &&& final(self).notice == old(self).notice
                        },
                        OpeningEnd::PlayerNatural => {
                            &&& final(self).stats.folds_natural(
                                old(self).stats,
                                player_natural_value(laid, *rules),
                            )
                            &&& final(self).notice == old(self).notice
                        },
                        OpeningEnd::Play => {
                            &&& final(self).stats == old(self).stats
                            &&& final(self).notice == Notice::<N>::YourMove
                        },
                    }
                }
            }),
    {
        let ghost v = self.table.view();
        match self.table.deal_step(rules) {
            None => {},
            Some(end) => {
                let ghost w = self.table.view();
                assert(w.dealer == v.laid().dealer);
                assert(w.shoe == v.laid().shoe);
                assert(w.hands[0].cards == v.laid().hands[0].cards);
                match end {
                    OpeningEnd::DealerNatural => {
                        let hand = &self.table.hands()[0];
                        assert(hand.view() == w.hands[0]);
                        assert(w.hands[0].valid());
                        let ev: N = if hand.col().is_nat21() {
                            from_whole(0)
                        } else {
                            from_whole(-1)
                        };
                        self.stats.fold_no_decision(ev);
                    },
                    OpeningEnd::PlayerNatural => {
                        let ev: N = self.natural_value(rules);
                        self.stats.fold_no_decision(ev);
                    },
                    OpeningEnd::Play => {
                        self.notice = Notice::YourMove;
                    },
                }
            },
        }
    }

    /// The value of a round with a natural of the player's.
    fn natural_value(&self, rules: &Ruleset) -> (r: N)
        requires
            self.table.view().valid(),
            self.table.view().dealer.len() >= 2,
            self.table.view().hole_down,
        ensures
            r == player_natural_value(self.table.view(), *rules),
    {
        let ghost v = self.table.view();
        let pays: N = rules.bj_payout.multiplier();
        let up = self.table.dealer()[0];
        if !rules.peek.peeks() && (up == Card::Ace || up == Card::Ten) {
            let hole = self.table.dealer()[1];
            assert(v.dealer[1].valid());
            let p: N = match self.table.shoe() {
                TrainShoe::Finite { cards, .. } => {
                    proof {
                        unseen_is_small(v);
                    }
                    let mut unseen: CardCol = *cards;
                    unseen.insert(hole);
                    dealer_natural_prob(up, &unseen)
                },
                TrainShoe::Infinite => dealer_natural_prob(up, &InfiniteDeck {}),
            };
            let one_n: N = from_whole(1);
            pays.times(one_n.minus(p))
        } else {
            pays
        }
    }
}

/// A shoe has few cards of a rank.
proof fn unseen_is_small<N: Scalar>(v: TableView<N>)
    requires
        v.counted(),
    ensures
        v.shoe matches ShoeView::Finite { cards, n_decks } ==> forall|i: int|
            0 <= i < 10 ==> #[trigger] cards[i] <= 4080,
{
    if let ShoeView::Finite { cards, n_decks } = v.shoe {
        assert forall|i: int| 0 <= i < 10 implies #[trigger] cards[i] <= 4080 by {
            assert(v.unseen()[i] <= deck_tally(n_decks as nat)[i]);
        }
    }
}

/// Whether this is the job of grading a move at a table.
pub open spec fn is_job<N: Scalar>(
    job: EvalJob,
    v: TableView<N>,
    choice: ShoeChoice,
    seq: u64,
    chosen: Move,
    rules: Ruleset,
    indexed: Option<Move>,
) -> bool {
    &&& job.seq == seq
    &&& job.up == v.dealer[0]
    &&& job.hand@ == v.hands[v.active].tally()
    &&& job.rules == rules
    &&& job.shoe == choice
    &&& job.chosen == chosen
    &&& job.allowed@ == allowed_upto(v, rules, 5)
    &&& job.indexed == indexed
    &&& match job.finite_shoe {
        Some(shoe) => solver_shoe(v) == Some(shoe@),
        None => solver_shoe(v) is None,
    }
    &&& job.opening == is_opening(v)
}

/// Whether a job can be graded.
pub open spec fn can_grade(job: EvalJob) -> bool {
    &&& job.up.valid()
    &&& hard(job.hand@) <= 21
    &&& job.finite_shoe matches Some(shoe) ==> shoe@[job.up.rank()] > 0
}

impl<N: Scalar> Training<N> {
    /// The moves that are allowed on the active hand.
    pub fn allowed_moves(&self, rules: &Ruleset) -> (r: Vec<Move>)
        requires
            self.table.view().valid(),
            self.table.view().phase == Phase::Player,
        ensures
            r@ == allowed_upto(self.table.view(), *rules, 5),
    {
        let all = [Move::Hit, Move::Stand, Move::Double, Move::Split, Move::Surrender];
        let mut out: Vec<Move> = Vec::new();
        let mut i: usize = 0;
        while i < 5
            invariant
                i <= 5,
                self.table.view().valid(),
                self.table.view().phase == Phase::Player,
                forall|j: int| 0 <= j < 5 ==> #[trigger] all@[j] == any_move(j),
                out@ == allowed_upto(self.table.view(), *rules, i as int),
            decreases 5 - i,
        {
            let mv = all[i];
            if self.table.allowed_move(mv, rules) {
                out.push(mv);
            }
            i += 1;
        }
        out
    }

    /// The move that the count index recommends on the active hand, where there is a
    /// count and a report for the up-card.
    pub fn indexed_move(&self, rules: &Ruleset, report: Option<&IndexReport>) -> (r: Option<Move>)
        requires
            self.table.view().valid(),
            self.table.view().phase == Phase::Player,
            report matches Some(rep) ==> rep.cats.wf(),
        ensures
            r == indexed_spec(
                self.table.view(),
                *rules,
                match report {
                    Some(rep) => Some(*rep),
                    None => None,
                },
            ),
    {
        let ghost v = self.table.view();
        if !self.table.shoe().is_finite() {
            return None;
        }
        match report {
            None => None,
            Some(rep) => {
                let i: usize = self.table.active();
                let hand = &self.table.hands()[i];
                assert(hand.view() == v.hands[v.active]);
                assert(v.hands[v.active].valid());
                let count: i16 = self.table.running_count();
                match rep.cats.get(categorize(&hand.col())) {
                    None => None,
                    Some(ci) => match run_move(&ci.primary, count) {
                        None => None,
                        Some(mv) => if self.table.allowed_move(mv, rules) {
                            Some(mv)
                        } else {
                            run_move(&ci.fallback, count)
                        },
                    },
                }
            },
        }
    }

    /// The shoe that the player knows.
    fn reconstruct_solver_shoe(&self) -> (r: Option<CardCol>)
        requires
            self.table.view().valid(),
            self.table.view().phase == Phase::Player,
        ensures
            match r {
                Some(shoe) => solver_shoe(self.table.view()) == Some(shoe@) && shoe@[self.table.view().dealer[0].rank()]
                    > 0,
                None => solver_shoe(self.table.view()) is None,
            },
    {
        let ghost v = self.table.view();
        match self.table.shoe() {
            TrainShoe::Finite { cards, .. } => {
                let hole = self.table.dealer()[1];
                let up = self.table.dealer()[0];
                assert(v.dealer[0].valid() && v.dealer[1].valid());
                let i: usize = self.table.active();
                let hand = &self.table.hands()[i];
                assert(hand.view() == v.hands[v.active]);
                assert(v.hands[v.active].valid());
                proof {
                    unseen_is_small(v);
                    few_cards(v.hands[v.active].cards);
                }
                let mut shoe: CardCol = *cards;
                shoe.insert(hole);
                shoe.insert(up);
                let col = hand.col();
                let ghost base = shoe@;
                assert forall|j: int| 0 <= j < 10 implies #[trigger] base[j] <= 5000 by {}
                assert forall|j: int| 0 <= j < 10 implies #[trigger] col@[j] <= 31 by {
                    crate::shoe::rank_at_most_size(col@, j);
                }
                Some(shoe + col)
            },
            TrainShoe::Infinite => None,
        }
    }

    /// Get the grading of a move on the active hand ready. Under other rules than before,
    /// decisions that are still being graded will be dropped, and the charts without a
    /// count are to be forgotten.
    pub fn prepare_eval(&mut self, chosen: Move, rules: &Ruleset, indexed: Option<Move>) -> (r: (
        EvalJob,
        bool,
    ))
        requires
            old(self).valid(),
            old(self).table.view().phase == Phase::Player,
        ensures
            is_job(
                r.0,
                old(self).table.view(),
                old(self).table.choice_spec(),
                old(self).eval_seq,
                chosen,
                *rules,
                indexed,
            ),
            can_grade(r.0),
            r.1 == (old(self).basic_rules != *rules),
            final(self).eval_seq == old(self).eval_seq + 1,
            final(self).pending_evals == old(self).pending_evals + 1,
            final(self).basic_rules == *rules,
            final(self).eval_valid_from == if r.1 {
                old(self).eval_seq
            } else {
                old(self).eval_valid_from
            },
            final(self).table == old(self).table,
            final(self).stats == old(self).stats,
            final(self).notice == old(self).notice,
            final(self).last_mark == old(self).last_mark,
            final(self).last_mark_seq == old(self).last_mark_seq,
            final(self).entering_count == old(self).entering_count,
            final(self).count_entry == old(self).count_entry,
    {
        let ghost v = self.table.view();
        let forget: bool = self.basic_rules != *rules;
        if forget {
            self.basic_rules = *rules;
            self.eval_valid_from = self.eval_seq;
        }
        let i: usize = self.table.active();
        let hands = self.table.hands();
        let hand = &hands[i];
        assert(hand.view() == v.hands[v.active]);
        assert(v.hands[v.active].valid());
        assert(v.dealer[0].valid());
        assert(hands@[0].view() == v.hands[0]);
        let opening: bool = i == 0 && hands.len() == 1 && hands[0].cards.len() == 2;
        let job = EvalJob {
            seq: self.eval_seq,
            up: self.table.dealer()[0],
            hand: hand.col(),
            rules: *rules,
            shoe: self.table.shoe().choice(),
            chosen,
            allowed: self.allowed_moves(rules),
            indexed,
            finite_shoe: self.reconstruct_solver_shoe(),
            opening,
        };
        self.eval_seq = self.eval_seq + 1;
        self.pending_evals = self.pending_evals + 1;
        (job, forget)
    }
}

/// What a move of the player's comes to.
pub enum MoveOutcome {
    /// It is not the player's turn.
    Ignored,
    /// The move is not allowed.
    Refused,
    /// The move has been made. It is to be graded; where told so, the charts without a
    /// count are forgotten first.
    Made { job: EvalJob, forget_basic: bool },
}

impl<N: Scalar> Training<N> {
    /// Whether a session is what a move with these cards leads to.
    pub open spec fn is_moved(
        &self,
        before: Self,
        mv: Move,
        cards: Seq<Card>,
        rules: Ruleset,
        indexed: Option<Move>,
        r: MoveOutcome,
    ) -> bool {
        let v = before.table.view();
        &&& self.stats == before.stats
        &&& self.last_mark == before.last_mark
        &&& self.last_mark_seq == before.last_mark_seq
        &&& self.entering_count == before.entering_count
        &&& self.count_entry == before.count_entry
        &&& self.table.choice_spec() == before.table.choice_spec()
        &&& match r {
            MoveOutcome::Ignored => v.phase != Phase::Player && *self == before,
            MoveOutcome::Refused => {
                &&& v.phase == Phase::Player
                &&& !v.allows(mv, rules)
                &&& self.table == before.table
                &&& self.notice == Notice::<N>::NotAllowed(mv)
                &&& self.eval_seq == before.eval_seq
                &&& self.eval_valid_from == before.eval_valid_from
                &&& self.pending_evals == before.pending_evals
                &&& self.basic_rules == before.basic_rules
            },
            MoveOutcome::Made { job, forget_basic } => {
                &&& v.phase == Phase::Player
                &&& v.allows(mv, rules)
                &&& is_job(
                    job,
                    v,
                    before.table.choice_spec(),
                    before.eval_seq,
                    mv,
                    rules,
                    indexed,
                )
                &&& can_grade(job)
                &&& forget_basic == (before.basic_rules != rules)
                &&& self.table.view() == v.played(mv, cards).advanced()
                &&& self.notice == before.notice
                &&& self.eval_seq == before.eval_seq + 1
                &&& self.pending_evals == before.pending_evals + 1
                &&& self.basic_rules == rules
                &&& self.eval_valid_from == if forget_basic {
                    before.eval_seq
                } else {
                    before.eval_valid_from
                }
            },
        }
    }

    /// Make a move with the cards that are drawn for it.
    pub fn player_move_with(
        &mut self,
        mv: Move,
        cards: &Vec<Card>,
        rules: &Ruleset,
        indexed: Option<Move>,
    ) -> (r: MoveOutcome)
        requires
            old(self).valid(),
            old(self).table.view().phase == Phase::Player && old(self).table.view().allows(
                mv,
                *rules,
            ) ==> cards.len() == TableView::<N>::draws(mv) && all_valid(cards@) && old(
                self,
            ).table.view().shoe.has(cards@),
        ensures
            final(self).is_moved(*old(self), mv, cards@, *rules, indexed, r),
            final(self).table.view().valid(),
    {
        if self.table.phase() != Phase::Player {
            return MoveOutcome::Ignored;
        }
        if !self.table.allowed_move(mv, rules) {
            self.notice = Notice::NotAllowed(mv);
            return MoveOutcome::Refused;
        }
        let (job, forget_basic) = self.prepare_eval(mv, rules, indexed);
        self.table.apply_move(mv, cards, rules);
        MoveOutcome::Made { job, forget_basic }
    }

    /// How many cards are drawn for a move.
    pub fn cards_for(mv: Move) -> (r: usize)
        ensures
            r == TableView::<N>::draws(mv),
    {
        match mv {
            Move::Hit => 1,
            Move::Double => 1,
            Move::Split => 2,
            _ => 0,
        }
    }

    /// The cards that a move takes from the shoe: none where it is not made.
    pub open spec fn cards_taken(self, mv: Move, rules: Ruleset) -> int {
        if self.table.view().phase == Phase::Player && self.table.view().allows(mv, rules) {
            TableView::<N>::draws(mv)
        } else {
            0
        }
    }

    /// Make a move with random cards: some that the shoe had. No card is drawn for a move that
    /// is not made.
    pub fn player_move(
        &mut self,
        mv: Move,
        rng: &mut SmallRng,
        rules: &Ruleset,
        indexed: Option<Move>,
    ) -> (r: MoveOutcome)
        requires
            old(self).valid(),
            old(self).table.view().shoe matches ShoeView::Finite { cards, n_decks } ==> size(cards)
                >= old(self).cards_taken(mv, *rules),
        ensures
            exists|cards: Seq<Card>|
                #![trigger old(self).table.view().shoe.has(cards)]
                cards.len() == old(self).cards_taken(mv, *rules) && all_valid(cards) && old(
                    self,
                ).table.view().shoe.has(cards) && final(self).is_moved(
                    *old(self),
                    mv,
                    cards,
                    *rules,
                    indexed,
                    r,
                ),
            final(self).table.view().valid(),
    {
        let n: usize = if self.table.phase() == Phase::Player && self.table.allowed_move(mv, rules) {
            Self::cards_for(mv)
        } else {
            0
        };
        let cards: Vec<Card> = random_cards(self.table.shoe(), n, rng);
        assert(old(self).table.view().shoe.has(cards@));
        self.player_move_with(mv, &cards, rules, indexed)
    }

    /// Whether a session is what a card turned by the dealer leads to: where the round is
    /// settled, its net and its bets go into the scoreboard.
    pub open spec fn is_turned(&self, before: Self, card: Card, rules: Ruleset) -> bool {
        let v = before.table.view();
        let w = v.stepped(card, rules);
        &&& self.table.view() == w
        &&& self.keeps(before)
        &&& self.last_mark == before.last_mark
        &&& if v.turned(card).dealer_wants(rules) {
            self.stats == before.stats && self.notice == before.notice
        } else {
            let net = net_upto(w.hands, w.hands.len() as int);
            &&& self.stats == (TrainStats {
                rounds: (before.stats.rounds + 1) as u32,
                realized: before.stats.realized.plus_spec(net),
                units_bet: bets_upto(before.stats.units_bet, w.hands, w.hands.len() as int),
                ..before.stats
            })
            &&& self.notice == Notice::RoundNet(net)
        }
    }

    /// Turn the dealer's next card: the hole card, or else the card that is given.
    pub fn dealer_step_with(&mut self, card: Card, rules: &Ruleset)
        requires
            old(self).valid(),
            old(self).table.view().phase == Phase::Dealer,
            !old(self).table.view().hole_down ==> card.valid() && old(self).table.view().shoe.has(
                seq![card],
            ),
        ensures
            final(self).is_turned(*old(self), card, *rules),
            final(self).table.view().valid(),
    {
        match self.table.dealer_step(card, rules) {
            None => {},
            Some(net) => {
                let ghost w = self.table.view();
                let hands = self.table.hands();
                let mut units: N = self.stats.units_bet;
                let mut i: usize = 0;
                while i < hands.len()
                    invariant
                        i <= hands.len(),
                        hands.len() == w.hands.len(),
                        forall|j: int|
                            0 <= j < hands.len() ==> (#[trigger] hands@[j]).view() == w.hands[j],
                        units == bets_upto(old(self).stats.units_bet, w.hands, i as int),
                    decreases hands.len() - i,
                {
                    assert(hands@[i as int].view() == w.hands[i as int]);
                    units = units.plus(hands[i].bet);
                    i += 1;
                }
                self.stats.units_bet = units;
                self.stats.rounds = self.stats.rounds + 1;
                self.stats.realized = self.stats.realized.plus(net);
                self.notice = Notice::RoundNet(net);
            },
        }
    }

    /// Turn the dealer's next card, a random one that the shoe had where it is drawn.
    pub fn dealer_step(&mut self, rng: &mut SmallRng, rules: &Ruleset)
        requires
            old(self).valid(),
            old(self).table.view().phase == Phase::Dealer,
            !old(self).table.view().hole_down ==> (old(self).table.view().shoe matches ShoeView::Finite {
                cards,
                n_decks,
            } ==> size(cards) >= 1),
        ensures
            exists|card: Card|
                (old(self).table.view().hole_down || (card.valid() && old(
                    self,
                ).table.view().shoe.has(seq![card]))) && #[trigger] final(self).is_turned(
                    *old(self),
                    card,
                    *rules,
                ),
            final(self).table.view().valid(),
    {
        if self.table.dealer_draws() {
            let cards: Vec<Card> = random_cards(self.table.shoe(), 1, rng);
            let card = cards[0];
            assert(cards@ =~= seq![card]);
            self.dealer_step_with(card, rules);
            assert(self.is_turned(*old(self), card, *rules));
        } else {
            self.dealer_step_with(Card::Ace, rules);
            assert(self.is_turned(*old(self), Card::Ace, *rules));
        }
    }

    /// Whether a session is what a graded decision leads to: one decision fewer is being
    /// graded; one made under other rules or at another shoe is dropped; the others go
    /// into the scoreboard, and the latest of them is shown.
    pub open spec fn is_graded(&self, before: Self, seq: u64, mark: Option<DecisionMark<N>>) -> bool {
        let stale = seq < before.eval_valid_from;
        &&& self.table == before.table
        &&& self.notice == before.notice
        &&& self.entering_count == before.entering_count
        &&& self.count_entry == before.count_entry
        &&& self.basic_rules == before.basic_rules
        &&& self.eval_seq == before.eval_seq
        &&& self.eval_valid_from == before.eval_valid_from
        &&& self.pending_evals == if before.pending_evals > 0 {
            (before.pending_evals - 1) as u32
        } else {
            0
        }
        &&& match mark {
            Some(m) if !stale => {
                &&& self.stats.folds(before.stats, m)
                &&& if seq >= before.last_mark_seq {
                    self.last_mark == Some(m) && self.last_mark_seq == seq
                } else {
                    self.last_mark == before.last_mark && self.last_mark_seq == before.last_mark_seq
                }
            },
            _ => self.stats == before.stats && self.last_mark == before.last_mark
                && self.last_mark_seq == before.last_mark_seq,
        }
    }

    /// Take in a graded decision. The chart that came along is handed on where it belongs
    /// to the rules and the shoe of now.
    pub fn take_eval(&mut self, result: EvalResult<N>) -> (r: Option<(Card, ChartTable<CellInfo<N>>)>)
        requires
            old(self).stats.has_room(),
        ensures
            final(self).is_graded(*old(self), result.seq, result.mark),
            r == if result.seq < old(self).eval_valid_from {
                None
            } else {
                match result.basic_summary {
                    Some(table) => Some((result.up, table)),
                    None => None,
                }
            },
    {
        if self.pending_evals > 0 {
            self.pending_evals = self.pending_evals - 1;
        }
        if result.seq < self.eval_valid_from {
            return None;
        }
        if let Some(mark) = result.mark {
            self.stats.fold_decision(&mark);
            if result.seq >= self.last_mark_seq {
                self.last_mark_seq = result.seq;
                self.last_mark = Some(mark);
            }
        }
        match result.basic_summary {
            Some(table) => Some((result.up, table)),
            None => None,
        }
    }

    /// Whether a decision is being graded.
    pub fn grading(&self) -> (r: bool)
        ensures
            r == (self.pending_evals > 0),
    {
        self.pending_evals > 0
    }
}

/// A decision is graded on the cards that the player has not seen: without the up-card and the
/// hand, the shoe that it is graded on is the live shoe and the hole card.
pub proof fn law_grading_draws_hidden_cards<N: Scalar>(v: TableView<N>)
    requires
        v.valid(),
        v.phase == Phase::Player,
        v.shoe is Finite,
    ensures
        ({
            let hand = v.hands[v.active].tally();
            taken(taken(solver_shoe(v)->0, single(v.dealer[0])), hand) == with_card(
                v.shoe->cards,
                v.dealer[1],
            )
        }),
{
    let up = v.dealer[0];
    let hole = v.dealer[1];
    let hand = v.hands[v.active].tally();
    let cards = v.shoe->cards;
    let shoe = solver_shoe(v)->0;
    assert(up.valid() && hole.valid());
    assert(v.hands[v.active].valid());
    few_cards(v.hands[v.active].cards);
    crate::shoe::tally_len(v.hands[v.active].cards);
    assert(cards.len() == 10);
    assert(taken(taken(shoe, single(up)), hand) =~= with_card(cards, hole));
}

} // verus!
