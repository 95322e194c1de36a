//! The solver: what each move is worth with every hand against one up-card.
use crate::card::Card;
use crate::dealer::{
    dealer_dist, dealer_outcome, dealer_outcome_probs, mixed, outcome_at, DealerOutcome,
    N_DEALER_OUTCOMES,
};
use crate::drawing::Shoe;
use crate::hand::HandState;
use crate::num::{from_whole, minus_one, one, whole, zero, Scalar};
use crate::rules::Ruleset;
use crate::shoe::{single, tally_bounds, with_card, CardCol};
use vstd::prelude::*;

verus! {

broadcast use tally_bounds;

/// What a hand that stands wins against a dealer outcome, as a multiple of the
/// bet.
pub open spec fn payoff<N: Scalar>(player: HandState, dealer: DealerOutcome, bj_payout: N) -> N {
    match (player, dealer) {
        (HandState::Natural, DealerOutcome::Natural) => whole::<N>(0),
        (_, DealerOutcome::Natural) => minus_one::<N>(),
        (HandState::Natural, _) => bj_payout,
        (HandState::Bust, _) => minus_one::<N>(),
        (_, DealerOutcome::Bust) => whole::<N>(1),
        (HandState::Hard(p), DealerOutcome::Total(d)) => by_total::<N>(p, d),
        (HandState::Soft(p), DealerOutcome::Total(d)) => by_total::<N>(p, d),
    }
}

/// The higher total wins the bet.
pub open spec fn by_total<N: Scalar>(p: u8, d: u8) -> N {
    if p < d {
        minus_one::<N>()
    } else if p == d {
        whole::<N>(0)
    } else {
        whole::<N>(1)
    }
}

/// What a hand that stands wins against a dealer outcome, as a multiple of the
/// bet. Only a hand that is presented as a natural earns `bj_payout` and pushes
/// a dealer's natural.
pub fn resolve_ev<N: Scalar>(player: HandState, dealer: DealerOutcome, bj_payout: N) -> (r: N)
    ensures
        r == payoff(player, dealer, bj_payout),
{
    match dealer {
        DealerOutcome::Natural => match player {
            HandState::Natural => from_whole(0),
            _ => from_whole(-1),
        },
        DealerOutcome::Bust => match player {
            HandState::Natural => bj_payout,
            HandState::Bust => from_whole(-1),
            _ => from_whole(1),
        },
        DealerOutcome::Total(d) => match player {
            HandState::Natural => bj_payout,
            HandState::Bust => from_whole(-1),
            HandState::Hard(p) | HandState::Soft(p) => if p < d {
                from_whole(-1)
            } else if p == d {
                from_whole(0)
            } else {
                from_whole(1)
            },
        },
    }
}

/// The rank that makes a dealer's natural with the up-card, if there is one.
pub open spec fn natural_hole(up: Card) -> Option<Card> {
    match up {
        Card::Ace => Some(Card::Ten),
        Card::Ten => Some(Card::Ace),
        Card::Pip(_) => None,
    }
}

/// The rank that makes a dealer's natural with the up-card, if there is one.
pub fn natural_hole_rank(up_card: Card) -> (r: Option<Card>)
    ensures
        r == natural_hole(up_card),
        r matches Some(card) ==> card.valid(),
{
    match up_card {
        Card::Ace => Some(Card::Ten),
        Card::Ten => Some(Card::Ace),
        Card::Pip(_) => None,
    }
}

/// The chance that the dealer's hole card makes a natural.
pub open spec fn natural_chance<N: Scalar, S: Shoe<N>>(s: S::State, up: Card) -> N {
    match natural_hole(up) {
        Some(rank) => S::prob(s, rank),
        None => zero::<N>(),
    }
}

/// The chance that the dealer's hole card makes a natural.
pub fn dealer_natural_prob<N: Scalar, S: Shoe<N>>(up_card: Card, shoe: &S) -> (r: N)
    ensures
        r == natural_chance::<N, S>(shoe.state(), up_card),
{
    match natural_hole_rank(up_card) {
        Some(rank) => shoe.draw_prob(&rank),
        None => from_whole(0),
    }
}

/// What the insurance bet is worth: it wins two with the chance of a natural and
/// loses one otherwise. The up-card is already out of the shoe.
pub fn insurance_ev<N: Scalar, S: Shoe<N>>(up_card: Card, shoe_after_up: &S) -> (r: N)
    ensures
        r == whole::<N>(3).times_spec(
            natural_chance::<N, S>(shoe_after_up.state(), up_card),
        ).minus_spec(one::<N>()),
{
    let three: N = from_whole(3);
    let p: N = dealer_natural_prob(up_card, shoe_after_up);
    three.times(p).minus(from_whole(1))
}

/// The chance that the hole card is not the one that makes a natural.
pub open spec fn no_natural<N: Scalar, S: Shoe<N>>(s: S::State, bj_rank: Card) -> N {
    one::<N>().minus_spec(S::prob(s, bj_rank))
}

/// The part of [`peeked_dist`] over the first `k` cards that the hole can be.
pub open spec fn peeked_dist_upto<N: Scalar, S: Shoe<N>>(
    s: S::State,
    up: Card,
    bj_rank: Card,
    hs17: bool,
    k: int,
) -> Seq<N>
    decreases k,
{
    if k <= 0 {
        Seq::new(7, |i: int| zero::<N>())
    } else {
        let acc = peeked_dist_upto::<N, S>(s, up, bj_rank, hs17, k - 1);
        let (hole, p) = S::draws(s)[k - 1];
        if hole == bj_rank {
            acc
        } else {
            mixed(
                acc,
                p.over_spec(no_natural::<N, S>(s, bj_rank)),
                dealer_dist::<N, S>(
                    S::without(s, single(hole)),
                    with_card(single(up), hole),
                    hs17,
                ),
            )
        }
    }
}

/// The chance of each dealer outcome when the dealer has looked and has no
/// natural: the average over the hole cards that do not make one.
pub open spec fn peeked_dist<N: Scalar, S: Shoe<N>>(
    s: S::State,
    up: Card,
    bj_rank: Card,
    hs17: bool,
) -> Seq<N> {
    peeked_dist_upto::<N, S>(s, up, bj_rank, hs17, S::draws(s).len() as int)
}

/// The chance of each dealer outcome when the dealer has looked and has no
/// natural.
pub fn conditional_dealer_dist<N: Scalar, S: Shoe<N>>(
    up_card: Card,
    bj_rank: Card,
    shoe: &S,
    hs17: bool,
) -> (r: [N; 7])
    requires
        up_card.valid(),
        bj_rank.valid(),
    ensures
        r@ == peeked_dist::<N, S>(shoe.state(), up_card, bj_rank, hs17),
{
    let one_n: N = from_whole(1);
    let zero_n: N = from_whole(0);
    let norm: N = one_n.minus(shoe.draw_prob(&bj_rank));
    let mut acc: [N; 7] = [zero_n; 7];
    let draws = shoe.all_draw_probs();
    let mut k: usize = 0;
    assert(acc@ =~= peeked_dist_upto::<N, S>(shoe.state(), up_card, bj_rank, hs17, 0));
    while k < draws.len()
        invariant
            k <= draws@.len(),
            up_card.valid(),
            draws@ == S::draws(shoe.state()),
            norm == no_natural::<N, S>(shoe.state(), bj_rank),
            acc@ == peeked_dist_upto::<N, S>(shoe.state(), up_card, bj_rank, hs17, k as int),
        decreases draws@.len() - k,
    {
        let (hole, p_hole) = draws[k];
        shoe.is_sane();
        proof {
            S::draws_are_there(shoe.state());
            assert(S::draws(shoe.state())[k as int].0.valid());
        }
        if hole != bj_rank {
            let w: N = p_hole.over(norm);
            let one_card = CardCol::new().with(hole);
            let seed = CardCol::new().with(up_card).with(hole);
            let deck = shoe.remove_hand(&one_card);
            let sub: [N; 7] = dealer_outcome_probs(seed, &deck, hs17);
            mix_in(&mut acc, w, &sub);
        }
        k += 1;
    }
    acc
}

/// Add a distribution that is weighted with `w`.
fn mix_in<N: Scalar>(acc: &mut [N; 7], w: N, sub: &[N; 7])
    ensures
        final(acc)@ == mixed(old(acc)@, w, sub@),
{
    let mut i: usize = 0;
    while i < N_DEALER_OUTCOMES
        invariant
            i <= 7,
            forall|j: int|
                0 <= j < i ==> #[trigger] acc@[j] == old(acc)@[j].plus_spec(w.times_spec(sub@[j])),
            forall|j: int| i <= j < 7 ==> #[trigger] acc@[j] == old(acc)@[j],
        decreases 7 - i,
    {
        let added: N = acc[i].plus(w.times(sub[i]));
        acc[i] = added;
        i += 1;
    }
    assert(acc@ =~= mixed(old(acc)@, w, sub@));
}

/// The part over the first `k` hole cards of the chance that the player draws a
/// card when the dealer has looked and has no natural.
pub open spec fn peeked_chance_upto<N: Scalar, S: Shoe<N>>(
    s: S::State,
    bj_rank: Card,
    card: Card,
    k: int,
) -> N
    decreases k,
{
    if k <= 0 {
        zero::<N>()
    } else {
        let acc = peeked_chance_upto::<N, S>(s, bj_rank, card, k - 1);
        let (hole, p) = S::draws(s)[k - 1];
        if hole == bj_rank {
            acc
        } else {
            acc.plus_spec(
                p.over_spec(no_natural::<N, S>(s, bj_rank)).times_spec(
                    S::prob(S::without(s, single(hole)), card),
                ),
            )
        }
    }
}

/// The chance of each card that the player can draw when the dealer has looked
/// and has no natural: the average over the hole cards that do not make one.
pub open spec fn peeked_draws<N: Scalar, S: Shoe<N>>(s: S::State, bj_rank: Card) -> Seq<(Card, N)> {
    Seq::new(
        S::draws(s).len(),
        |i: int|
            (
                S::draws(s)[i].0,
                peeked_chance_upto::<N, S>(
                    s,
                    bj_rank,
                    S::draws(s)[i].0,
                    S::draws(s).len() as int,
                ),
            ),
    )
}

/// The chance of each card that the player can draw when the dealer has looked
/// and has no natural.
pub fn conditional_draw_probs<N: Scalar, S: Shoe<N>>(bj_rank: Card, shoe: &S) -> (r: Vec<(Card, N)>)
    requires
        bj_rank.valid(),
    ensures
        r@ == peeked_draws::<N, S>(shoe.state(), bj_rank),
{
    let one_n: N = from_whole(1);
    let norm: N = one_n.minus(shoe.draw_prob(&bj_rank));
    let draws = shoe.all_draw_probs();
    let ghost s = shoe.state();
    shoe.is_sane();
    proof {
        S::draws_are_there(s);
    }
    let mut decks: Vec<S> = Vec::new();
    let mut k: usize = 0;
    while k < draws.len()
        invariant
            k <= draws@.len(),
            s == shoe.state(),
            draws@ == S::draws(s),
            forall|i: int| 0 <= i < draws@.len() ==> (#[trigger] draws@[i]).0.valid(),
            decks@.len() == k,
            forall|i: int|
                0 <= i < k ==> (#[trigger] decks@[i]).state() == S::without(s, single(draws@[i].0)),
        decreases draws@.len() - k,
    {
        assert(draws@[k as int].0.valid());
        let one_card = CardCol::new().with(draws[k].0);
        decks.push(shoe.remove_hand(&one_card));
        k += 1;
    }
    let mut out: Vec<(Card, N)> = Vec::new();
    let mut c: usize = 0;
    while c < draws.len()
        invariant
            c <= draws@.len(),
            draws@ == S::draws(s),
            norm == no_natural::<N, S>(s, bj_rank),
            forall|i: int| 0 <= i < draws@.len() ==> (#[trigger] draws@[i]).0.valid(),
            decks@.len() == draws@.len(),
            forall|i: int|
                0 <= i < draws@.len() ==> (#[trigger] decks@[i]).state() == S::without(
                    s,
                    single(draws@[i].0),
                ),
            out@.len() == c,
            forall|i: int|
                0 <= i < c ==> #[trigger] out@[i] == peeked_draws::<N, S>(s, bj_rank)[i],
        decreases draws@.len() - c,
    {
        let card = draws[c].0;
        assert(draws@[c as int].0.valid());
        let mut p_c: N = from_whole(0);
        let mut h: usize = 0;
        while h < draws.len()
            invariant
                h <= draws@.len(),
                draws@ == S::draws(s),
                card.valid(),
                norm == no_natural::<N, S>(s, bj_rank),
                decks@.len() == draws@.len(),
                forall|i: int|
                    0 <= i < draws@.len() ==> (#[trigger] decks@[i]).state() == S::without(
                        s,
                        single(draws@[i].0),
                    ),
                p_c == peeked_chance_upto::<N, S>(s, bj_rank, card, h as int),
            decreases draws@.len() - h,
        {
            let (hole, p_hole) = draws[h];
            assert(decks@[h as int].state() == S::without(s, single(hole)));
            if hole != bj_rank {
                let w: N = p_hole.over(norm);
                p_c = p_c.plus(w.times(decks[h].draw_prob(&card)));
            }
            h += 1;
        }
        out.push((card, p_c));
        c += 1;
    }
    assert(out@ =~= peeked_draws::<N, S>(s, bj_rank));
    out
}

/// What all plays against one up-card have in common: the chances of the
/// dealer's outcomes and of the player's next card, given the shoe that is left.
/// Where the dealer looks and could have a natural, both are those of a dealer
/// who has none.
#[derive(Clone, Copy, Debug, PartialEq, Eq, Structural)]
pub struct Basis {
    pub up_card: Card,
    /// The hole card that makes a natural.
    pub bj_rank: Option<Card>,
    /// Whether the dealer has looked and has no natural.
    pub conditional: bool,
    pub hs17: bool,
}

/// The basis of an up-card under some rules.
pub open spec fn basis_of(up: Card, rules: Ruleset) -> Basis {
    Basis {
        up_card: up,
        bj_rank: natural_hole(up),
        conditional: rules.peek.peeks_spec() && natural_hole(up) is Some,
        hs17: rules.hs17,
    }
}

/// The chance of each dealer outcome on a basis.
pub open spec fn basis_dist<N: Scalar, S: Shoe<N>>(b: Basis, s: S::State) -> Seq<N> {
    if b.conditional {
        peeked_dist::<N, S>(s, b.up_card, b.bj_rank->0, b.hs17)
    } else {
        dealer_dist::<N, S>(s, single(b.up_card), b.hs17)
    }
}

/// The chance of each card that the player can draw on a basis.
pub open spec fn basis_draws<N: Scalar, S: Shoe<N>>(b: Basis, s: S::State) -> Seq<(Card, N)> {
    if b.conditional {
        peeked_draws::<N, S>(s, b.bj_rank->0)
    } else {
        S::draws(s)
    }
}

impl Basis {
    /// The cards of the basis are cards, and there is a rank for a natural where
    /// there has to be one.
    pub open spec fn wf(self) -> bool {
        &&& self.up_card.valid()
        &&& self.bj_rank matches Some(card) ==> card.valid()
        &&& self.conditional ==> self.bj_rank is Some
    }

    /// The basis of an up-card under some rules.
    pub fn new(up_card: Card, rules: &Ruleset) -> (r: Self)
        requires
            up_card.valid(),
        ensures
            r == basis_of(up_card, *rules),
            r.wf(),
    {
        let bj_rank = natural_hole_rank(up_card);
        Basis {
            up_card,
            bj_rank,
            conditional: rules.peek.peeks() && bj_rank.is_some(),
            hs17: rules.hs17,
        }
    }

    /// The chance of each dealer outcome.
    pub fn dealer_dist<N: Scalar, S: Shoe<N>>(&self, shoe: &S) -> (r: [N; 7])
        requires
            self.wf(),
        ensures
            r@ == basis_dist::<N, S>(*self, shoe.state()),
    {
        match self.bj_rank {
            Some(bj_rank) if self.conditional => conditional_dealer_dist(
                self.up_card,
                bj_rank,
                shoe,
                self.hs17,
            ),
            _ => dealer_outcome_probs(CardCol::new().with(self.up_card), shoe, self.hs17),
        }
    }

    /// The chance of each card that the player can draw.
    pub fn draw_probs<N: Scalar, S: Shoe<N>>(&self, shoe: &S) -> (r: Vec<(Card, N)>)
        requires
            self.wf(),
        ensures
            r@ == basis_draws::<N, S>(*self, shoe.state()),
    {
        match self.bj_rank {
            Some(bj_rank) if self.conditional => conditional_draw_probs(bj_rank, shoe),
            _ => shoe.all_draw_probs(),
        }
    }
}

/// On every basis the player can draw the cards that the shoe holds.
pub proof fn basis_draws_are_there<N: Scalar, S: Shoe<N>>(b: Basis, s: S::State)
    requires
        S::sane(s),
    ensures
        basis_draws::<N, S>(b, s).len() == S::draws(s).len(),
        forall|i: int|
            0 <= i < S::draws(s).len() ==> {
                let card = (#[trigger] basis_draws::<N, S>(b, s)[i]).0;
                card == S::draws(s)[i].0 && card.valid() && S::supply(s, card.rank()) != Some(0nat)
            },
{
    S::draws_are_there(s);
    assert forall|i: int| 0 <= i < S::draws(s).len() implies {
        let card = (#[trigger] basis_draws::<N, S>(b, s)[i]).0;
        card == S::draws(s)[i].0 && card.valid() && S::supply(s, card.rank()) != Some(0nat)
    } by {
        assert(S::draws(s)[i].0.valid());
    }
}

/// What a hand in this state wins on average when it stands, over the first `k`
/// outcomes.
pub open spec fn stand_upto<N: Scalar>(dist: Seq<N>, state: HandState, bj_payout: N, k: int) -> N
    decreases k,
{
    if k <= 0 {
        zero::<N>()
    } else {
        stand_upto(dist, state, bj_payout, k - 1).plus_spec(
            dist[k - 1].times_spec(payoff(state, outcome_at(k - 1), bj_payout)),
        )
    }
}

/// What a hand in this state wins on average when it stands.
pub open spec fn stand_value<N: Scalar>(dist: Seq<N>, state: HandState, bj_payout: N) -> N {
    stand_upto(dist, state, bj_payout, 7)
}

/// What a hand in this state wins on average when it stands.
pub fn stand_ev<N: Scalar>(dist: &[N; 7], state: HandState, bj_payout: N) -> (r: N)
    ensures
        r == stand_value(dist@, state, bj_payout),
{
    let mut ev: N = from_whole(0);
    let mut k: usize = 0;
    while k < N_DEALER_OUTCOMES
        invariant
            k <= 7,
            ev == stand_upto(dist@, state, bj_payout, k as int),
        decreases 7 - k,
    {
        let outcome = dealer_outcome(k);
        ev = ev.plus(dist[k].times(resolve_ev(state, outcome, bj_payout)));
        k += 1;
    }
    ev
}

} // verus!
