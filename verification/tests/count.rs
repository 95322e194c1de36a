use std::collections::HashMap;

use itertools::Itertools;

use blackjack::card::Card;
use blackjack::combinat::{binomial, check_hg_norm_weights, check_hg_weights};
use blackjack::count::{
    cond_for_frame, cond_from_count, cond_from_external, CountCmp, CountCondition, CountFrame,
    CountKind, CountSystemId, Penetration,
};
use blackjack::countshoe::{expected_composition, CountShoe};
use blackjack::countw::CountW;
use blackjack::drawing::Shoe;
use blackjack::num::Scalar;
use blackjack::shoe::{CardCol, N_RANKS};

/// Double precision, with the meaning of each operation being the operation.
#[derive(Clone, Copy, Debug)]
struct F(f64);

impl Scalar for F {
    fn plus_spec(self, rhs: F) -> F {
        F(self.0 + rhs.0)
    }
    fn minus_spec(self, rhs: F) -> F {
        F(self.0 - rhs.0)
    }
    fn times_spec(self, rhs: F) -> F {
        F(self.0 * rhs.0)
    }
    fn over_spec(self, rhs: F) -> F {
        F(self.0 / rhs.0)
    }
    fn less_spec(self, rhs: F) -> bool {
        self.0 < rhs.0
    }
    fn ratio_spec(num: i64, den: i64) -> F {
        F(num as f64 / den as f64)
    }
    fn floor_spec(self) -> i64 {
        self.0.floor() as i64
    }
    fn plus(self, rhs: F) -> F {
        F(self.0 + rhs.0)
    }
    fn minus(self, rhs: F) -> F {
        F(self.0 - rhs.0)
    }
    fn times(self, rhs: F) -> F {
        F(self.0 * rhs.0)
    }
    fn over(self, rhs: F) -> F {
        F(self.0 / rhs.0)
    }
    fn less(self, rhs: F) -> bool {
        self.0 < rhs.0
    }
    fn ratio(num: i64, den: i64) -> F {
        F(num as f64 / den as f64)
    }
    fn floor(self) -> i64 {
        self.0.floor() as i64
    }
}

fn n_picks(n: u16, k: u16) -> f64 {
    if k > n {
        return 0.;
    }
    let k = k.min(n - k);
    (1..=k).fold(1.0, |acc, i| acc * (n - k + i) as f64 / i as f64)
}

/// The next-card chances of a counted pool by going through every number of cards of
/// each class.
struct CountState {
    deck: CardCol,
    value_of_rank: [i16; N_RANKS],
    pivot: i16,
}

impl CountState {
    fn count_classes(&self) -> CountClasses {
        CountClasses::from_value_map(self.value_of_rank, &self.deck)
    }

    fn from_pool(system: CountSystemId, deck: CardCol, n_decks: u8) -> Self {
        let value_of_rank = system.value_of_rank();
        Self {
            deck,
            value_of_rank,
            pivot: system.pivot(n_decks),
        }
    }

    fn from_decks(system: CountSystemId, n: u8) -> Self {
        Self::from_pool(system, CardCol::from_decks(n), n)
    }

    fn internal_to_external(&self, internal: i16) -> i16 {
        self.pivot - internal
    }

    fn external_to_internal(&self, external: i16) -> i16 {
        self.pivot - external
    }

    fn all_draw_probs_given_c(&self, c: i16) -> impl Iterator<Item = (Card, f64)> {
        let classes = self.count_classes();
        let mut card_prob_array = [0.; N_RANKS];
        for (knums, kprob) in self.prob_val_counts_given_c(c) {
            let n = knums.iter().sum::<u16>() as f64;
            for (r, &j) in classes.class_of_rank.iter().enumerate() {
                let m_r = self.deck.get_count_i(r) as f64;
                let m_j = classes.sizes[j] as f64;
                let k_j = knums[j] as f64;
                card_prob_array[r] += kprob * (k_j / n) * (m_r / m_j);
            }
        }
        let card_prob_norm: f64 = card_prob_array.iter().sum();
        card_prob_array
            .iter_mut()
            .for_each(|p| *p /= card_prob_norm);
        card_prob_array
            .into_iter()
            .enumerate()
            .map(|(i, p)| (Card::from_rank_index(i), p))
    }

    fn draw_probs_where(
        &self,
        accept: impl Fn(i16, u16) -> bool,
        n_weight: impl Fn(u16) -> f64,
    ) -> [f64; N_RANKS] {
        let classes = self.count_classes();
        let dp = CountDp::build(&classes);
        let big_n = dp.n_max;

        let inv_cn: Vec<f64> = (0..=dp.n_max).map(|n| 1.0 / n_picks(big_n, n)).collect();

        let mut rank_probs = [0.0; N_RANKS];
        for s in dp.s_min..=dp.s_max {
            for n in 1..=dp.n_max {
                if !accept(s, n) {
                    continue;
                }
                let w_n = n_weight(n);
                if w_n == 0.0 {
                    continue;
                }
                let base = dp.cell(s, n);
                if dp.data[base] == 0.0 {
                    continue; // unreachable count/total combination
                }
                let cell_w = w_n * inv_cn[n as usize];
                for (r, rank_prob_r) in rank_probs.iter_mut().enumerate() {
                    let j = classes.class_of_rank[r];
                    let m_j = classes.sizes[j];
                    if m_j == 0 {
                        continue;
                    }
                    let m_r = self.deck.get_count_i(r) as f64;
                    let t_j = dp.data[base + 1 + j]; // T_j[s][n] = Σ_configs k_j · ∏ C
                    *rank_prob_r += cell_w * (t_j / n as f64) * (m_r / m_j as f64);
                }
            }
        }

        let total: f64 = rank_probs.iter().sum();
        if total > 0.0 {
            rank_probs.iter_mut().for_each(|p| *p /= total);
        }
        rank_probs
    }

    fn draw_probs_given_count(&self, c: i16) -> [f64; N_RANKS] {
        let cutoff = self.deck.len() as u16 / 4;
        self.draw_probs_where(|s, _| s == c, move |n| if n >= cutoff { 1.0 } else { 0.0 })
    }

    fn prob_val_counts_given_c(&self, c: i16) -> HashMap<Vec<u16>, f64> {
        let classes = self.count_classes();
        let big_n = self.deck.len() as u16;
        let n_cutoff = big_n / 4;

        classes
            .sizes
            .iter()
            .map(|&m| 0..=m)
            .multi_cartesian_product()
            .filter_map(|knums| {
                let n_k = knums.iter().sum::<u16>();
                if n_k < n_cutoff {
                    return None;
                }
                let count: i16 = classes
                    .values
                    .iter()
                    .zip(&knums)
                    .map(|(&v, &k)| v * k as i16)
                    .sum();
                if count != c {
                    return None;
                }
                let weight = knums
                    .iter()
                    .zip(&classes.sizes)
                    .map(|(&k, &m)| n_picks(m, k))
                    .product::<f64>()
                    / n_picks(big_n, n_k);
                Some((knums, weight))
            })
            .collect()
    }

    fn running_count(&self) -> i16 {
        self.deck
            .iter()
            .into_iter()
            .map(|(card, quant)| self.value_of_rank[card.rank_index()] * quant as i16)
            .sum()
    }
}

/// The ranks grouped by what they count.
struct CountClasses {
    values: Vec<i16>,
    sizes: Vec<u16>,
    class_of_rank: [usize; N_RANKS],
}

impl CountClasses {
    fn from_value_map(values: [i16; N_RANKS], deck: &CardCol) -> Self {
        let mut distinct: Vec<i16> = values.to_vec();
        distinct.sort_unstable();
        distinct.dedup();

        let class_of_rank: [usize; N_RANKS] =
            std::array::from_fn(|r| distinct.iter().position(|&v| v == values[r]).unwrap());

        let mut sizes = vec![0u16; distinct.len()];
        for r in 0..N_RANKS {
            sizes[class_of_rank[r]] += deck.get_count_i(r);
        }

        Self {
            values: distinct,
            sizes,
            class_of_rank,
        }
    }
}

/// The number of picks and the first moments of the classes, for every count and size.
struct CountDp {
    s_min: i16,
    s_max: i16,
    n_max: u16,
    n_span: usize,
    width: usize,
    data: Vec<f64>,
}

impl CountDp {
    fn cell(&self, s: i16, n: u16) -> usize {
        let row = (s - self.s_min) as usize;
        (row * self.n_span + n as usize) * self.width
    }

    fn build(classes: &CountClasses) -> Self {
        let m = classes.values.len();
        let width = 1 + m;
        let n_max: u16 = classes.sizes.iter().sum();
        let n_span = n_max as usize + 1;
        let s_min: i16 = classes
            .values
            .iter()
            .zip(&classes.sizes)
            .map(|(&v, &sz)| (v * sz as i16).min(0))
            .sum();
        let s_max: i16 = classes
            .values
            .iter()
            .zip(&classes.sizes)
            .map(|(&v, &sz)| (v * sz as i16).max(0))
            .sum();
        let s_span = (s_max - s_min + 1) as usize;

        let mut cur = Self {
            s_min,
            s_max,
            n_max,
            n_span,
            width,
            data: vec![0.0; s_span * n_span * width],
        };
        let seed = cur.cell(0, 0);
        cur.data[seed] = 1.0;

        for (i, (&v_i, &m_i)) in classes.values.iter().zip(&classes.sizes).enumerate() {
            let binom: Vec<f64> = (0..=m_i).map(|k| n_picks(m_i, k)).collect();
            let mut next = vec![0.0; cur.data.len()];
            for s in s_min..=s_max {
                for n in 0..=n_max {
                    let src = cur.cell(s, n);
                    let w = cur.data[src];
                    if w == 0.0 {
                        continue;
                    }
                    for k in 0..=m_i {
                        let b = binom[k as usize];
                        let dst = cur.cell(s + v_i * k as i16, n + k);
                        next[dst] += w * b;
                        for j in 0..m {
                            if j != i {
                                next[dst + 1 + j] += cur.data[src + 1 + j] * b;
                            }
                        }
                        next[dst + 1 + i] += w * k as f64 * b;
                    }
                }
            }
            cur.data = next;
        }
        cur
    }
}
const KO: CountSystemId = CountSystemId::Ko;
const HI_LO: CountSystemId = CountSystemId::HiLo;

fn plain(dist: &[F; N_RANKS]) -> [f64; N_RANKS] {
    std::array::from_fn(|r| dist[r].0)
}

#[test]
fn count_w_multideck_draw_dist_normalized() {
    let val = KO.value_of_rank();
    let pen = Penetration::FlatPastPercent(25);
    for n in [2u8, 4u8] {
        let mut cw: CountW<F> = CountW::build(val, CardCol::from_decks(n));
        for step in 0..6 {
            for cond in [
                CountCondition::Eq(0),
                CountCondition::Eq(KO.full_shoe_count(n)),
                CountCondition::Ge(-5),
                CountCondition::Le(5),
                CountCondition::Eq(10_000),
            ] {
                let dist = plain(&cw.draw_dist(CountFrame::pre_round(cond), pen));
                let sum: f64 = dist.iter().sum();
                assert!(
                    dist.iter().all(|p| p.is_finite() && *p >= -1e-12),
                    "n={n} step={step} {cond:?}: non-finite or negative draw prob: {dist:?}"
                );
                assert!(
                    sum.abs() < 1e-9 || (sum - 1.0).abs() < 1e-9,
                    "n={n} step={step} {cond:?}: draw dist sums to {sum}, not 0 or 1"
                );
            }
            if cw.deck().get_count(&Card::Ten) > 0 {
                cw.remove_card(&Card::Ten);
            }
        }
    }
}

#[test]
fn count_w_draw_dist_band_matches_single() {
    let val = KO.value_of_rank();
    let pen = Penetration::FlatPastPercent(25);
    let conds = [
        CountCondition::Eq(0),
        CountCondition::Eq(3),
        CountCondition::Ge(-2),
        CountCondition::Le(4),
        CountCondition::Eq(9_999),
    ];
    let frames: Vec<CountFrame> = conds.iter().map(|&c| CountFrame::pre_round(c)).collect();
    for n in [1u8, 2u8] {
        let mut cw: CountW<F> = CountW::build(val, CardCol::from_decks(n));
        for step in 0..5 {
            let band = cw.draw_dist_band(&frames, pen);
            for (i, &cond) in conds.iter().enumerate() {
                let single = cw.draw_dist(CountFrame::pre_round(cond), pen);
                for r in 0..N_RANKS {
                    assert!(
                        (band[i][r].0 - single[r].0).abs() < 1e-12,
                        "n={n} step={step} {cond:?} rank {r}"
                    );
                }
            }
            if cw.deck().get_count(&Card::Ten) > 0 {
                cw.remove_card(&Card::Ten);
            }
        }
    }
}

#[test]
fn count_shoe_band_matches_singletons() {
    let pen = Penetration::FlatPastPercent(25);
    let externals = [-4i16, -1, 0, 2, 5];
    let hand = CardCol::from_hand(&[Card::Ten, Card::Pip(6), Card::Pip(5)]);
    for n in [1u8, 2u8] {
        let frames: Vec<CountFrame> = externals
            .iter()
            .map(|&e| CountFrame::pre_round(cond_from_external(KO, n, e, CountCmp::Eq)))
            .collect();
        let band: Vec<CountShoe<F>> = CountShoe::band(KO, n, &frames, pen);
        for (k, &ext) in externals.iter().enumerate() {
            let single: CountShoe<F> = CountShoe::from_external(KO, n, ext, CountCmp::Eq, pen);
            let b = band[k].remove_hand(&hand);
            let s = single.remove_hand(&hand);
            for r in 0..N_RANKS {
                let card = Card::from_rank_index(r);
                let (bp, sp): (F, F) = (b.draw_prob(&card), s.draw_prob(&card));
                assert!((bp.0 - sp.0).abs() < 1e-12, "n={n} ext={ext} rank {r}");
            }
        }
    }
}

#[test]
fn ko_pivot_and_conversion() {
    for n in [1u8, 2, 6, 8] {
        assert_eq!(KO.full_shoe_count(n), 4 * n as i16);
        assert_eq!(KO.starting_count(n), 4 - 4 * n as i16);
        assert_eq!(KO.pivot(n), 4, "KO pivot is +4 for every shoe size");

        let internal_full = KO.full_shoe_count(n);
        assert_eq!(
            KO.internal_to_external(n, internal_full),
            KO.starting_count(n)
        );

        let state = CountState::from_decks(KO, n);
        assert_eq!(
            state.running_count(),
            internal_full,
            "fresh shoe internal count"
        );
        for internal in -20i16..=20 {
            let external = KO.internal_to_external(n, internal);
            assert_eq!(external, 4 - internal);
            assert_eq!(KO.external_to_internal(n, external), internal);
            assert_eq!(state.internal_to_external(internal), external);
            assert_eq!(state.external_to_internal(external), internal);
        }
    }
}

#[test]
fn balanced_system_pivots_at_zero() {
    for n in [1u8, 6, 8] {
        assert_eq!(HI_LO.full_shoe_count(n), 0);
        assert_eq!(HI_LO.pivot(n), 0);
        assert_eq!(HI_LO.internal_to_external(n, 7), -7);
        assert_eq!(HI_LO.external_to_internal(n, -7), 7);
    }
}

#[test]
fn count_kinds_are_classified() {
    assert_eq!(HI_LO.kind(), CountKind::TrueCount);
    assert_eq!(KO.kind(), CountKind::Running);
    assert_eq!(CountSystemId::AceFive.kind(), CountKind::Running);
    for n in [1u8, 2, 6, 8] {
        assert_eq!(
            HI_LO.full_shoe_count(n),
            0,
            "a true-count system must be balanced"
        );
        assert_eq!(HI_LO.pivot(n), 0);
    }
}

#[test]
fn cond_from_count_dispatches_on_kind() {
    for how in [CountCmp::Eq, CountCmp::Ge, CountCmp::Le] {
        assert_eq!(
            cond_from_count(KO, 6, 3, how),
            cond_from_external(KO, 6, 3, how),
        );
    }
    assert_eq!(
        cond_from_count(HI_LO, 6, 2, CountCmp::Ge),
        CountCondition::TrueGe { cutoff: 2 },
    );
    assert_eq!(
        cond_from_count(HI_LO, 6, -1, CountCmp::Le),
        CountCondition::TrueLe { cutoff: -1 },
    );
    assert_eq!(cond_from_external(KO, 6, 3, CountCmp::Eq), CountCondition::Eq(1));
    assert_eq!(cond_from_external(KO, 6, 3, CountCmp::Ge), CountCondition::Le(1));
    assert_eq!(cond_from_external(KO, 6, 3, CountCmp::Le), CountCondition::Ge(1));
}

#[test]
fn cond_for_frame_matches_running_shift_and_true_offset() {
    for how in [CountCmp::Ge, CountCmp::Le] {
        for &up in &[Card::Pip(6), Card::Ten, Card::Ace] {
            for k in -2i16..=2 {
                assert_eq!(
                    cond_for_frame(KO, 6, 5, how, up, k, 3),
                    CountFrame::pre_round(cond_from_external(KO, 6, 5 - KO.map(&up) - k, how)),
                    "KO frame must equal the external shift (up={up:?} k={k})",
                );
            }
        }
    }
    assert_eq!(
        cond_for_frame(HI_LO, 6, 3, CountCmp::Ge, Card::Ten, 1, 3),
        CountFrame {
            cond: CountCondition::TrueGe { cutoff: 3 },
            vis_sum: HI_LO.map(&Card::Ten) + 1,
            vis_cards: 3,
        },
    );
}

#[test]
fn true_count_accepts_matches_float_reference() {
    for cutoff in -3i16..=3 {
        for (vis_sum, vis_cards) in [(0i16, 0u16), (1, 3), (-2, 3), (0, 1)] {
            let ge = CountFrame {
                cond: CountCondition::TrueGe { cutoff },
                vis_sum,
                vis_cards,
            };
            let le = CountFrame {
                cond: CountCondition::TrueLe { cutoff },
                vis_sum,
                vis_cards,
            };
            for s in -10i32..=10 {
                for n in 1i32..=20 {
                    let n_dp = n - vis_cards as i32;
                    if n_dp <= 0 {
                        assert!(
                            !ge.accepts(s, n),
                            "Ge must let nothing in at a non-positive size"
                        );
                        assert!(
                            !le.accepts(s, n),
                            "Le must let nothing in at a non-positive size"
                        );
                        continue;
                    }
                    let tc = -52.0 * (s - vis_sum as i32) as f64 / n_dp as f64;
                    let thr = cutoff as f64 / 2.0;
                    if (tc - thr).abs() <= 1e-9 {
                        continue;
                    }
                    assert_eq!(
                        ge.accepts(s, n),
                        tc > thr,
                        "Ge s={s} n={n} vis=({vis_sum},{vis_cards})"
                    );
                    assert_eq!(
                        le.accepts(s, n),
                        tc < thr,
                        "Le s={s} n={n} vis=({vis_sum},{vis_cards})"
                    );
                }
            }
        }
    }
}

#[test]
fn true_count_shoe_tracks_drawn_offsets() {
    let pen = Penetration::FlatPastPercent(25);
    let mut shoe: CountShoe<F> = CountShoe::from_count(HI_LO, 2, 1, CountCmp::Ge, pen);
    assert_eq!(shoe.drawn(), (0, 0), "a fresh shoe has drawn nothing");
    let hand = [Card::Pip(5), Card::Ten, Card::Ace, Card::Pip(8)];
    let mut exp_sum = 0i16;
    for (i, c) in hand.iter().enumerate() {
        shoe.draw(c);
        exp_sum += HI_LO.map(c);
        assert_eq!(
            shoe.drawn(),
            (exp_sum, (i + 1) as u16),
            "after drawing {c:?} (#{}) the offsets must equal the running tally",
            i + 1
        );
    }
}

#[test]
fn true_count_full_deck_pin_gates_on_cutoff() {
    let finite = CardCol::from_decks(1);
    let full = finite.len() as u16;

    let taken: CountShoe<F> =
        CountShoe::from_count(HI_LO, 1, 0, CountCmp::Ge, Penetration::CardsRemaining(full));
    for r in 0..N_RANKS {
        let card = Card::from_rank_index(r);
        let (got, want): (F, F) = (taken.draw_prob(&card), finite.draw_prob(&card));
        assert!(
            (got.0 - want.0).abs() < 1e-12,
            "TC>=0 over the full deck must match the finite deck: rank {r} {got:?} vs {want:?}"
        );
    }

    let reject: CountShoe<F> =
        CountShoe::from_count(HI_LO, 1, 2, CountCmp::Ge, Penetration::CardsRemaining(full));
    let mass: f64 = (0..N_RANKS)
        .map(|r| {
            let p: F = reject.draw_prob(&Card::from_rank_index(r));
            p.0
        })
        .sum();
    assert_eq!(mass, 0.0, "TC>=1 over a count-0 pool must leave no mass");
}

#[test]
fn insurance_count_frame_matches_finite_deck() {
    for n in [1u8, 2, 6] {
        let full = CardCol::from_decks(n).len() as u16;
        let entered = KO.starting_count(n) + KO.map(&Card::Ace);
        let c_in = entered - KO.map(&Card::Ace);
        let mut shoe: CountShoe<F> = CountShoe::new(
            KO,
            n,
            cond_from_external(KO, n, c_in, CountCmp::Eq),
            Penetration::CardsRemaining(full),
        );
        shoe.draw(&Card::Ace);
        let p_ten: F = shoe.draw_prob(&Card::Ten);
        let n = n as u32;
        let expected = (16 * n) as f64 / (52 * n - 1) as f64;
        assert!(
            (p_ten.0 - expected).abs() < 1e-9,
            "n={n}: hole-Ten prob {p_ten:?} vs exact finite-deck {expected}"
        );
    }
}

#[test]
fn count_w_draw_dist_matches_oracle() {
    let cw: CountW<F> = CountW::build(KO.value_of_rank(), CardCol::from_decks(1));
    let state = CountState::from_decks(KO, 1);
    for c in [-2i16, 0, 2, 4] {
        let oracle: Vec<f64> = state.all_draw_probs_given_c(c).map(|(_, p)| p).collect();
        let got = plain(&cw.draw_dist(
            CountFrame::pre_round(CountCondition::Eq(c)),
            Penetration::FlatPastPercent(25),
        ));
        for (r, (&o, g)) in oracle.iter().zip(got).enumerate() {
            assert!(
                (o - g).abs() < 1e-9,
                "rank {r}, count {c}: oracle {o} vs CountW {g}"
            );
        }
    }
}

#[test]
fn count_w_remove_card_matches_rebuild() {
    let val = KO.value_of_rank();
    let removed = [Card::Ten, Card::Pip(5), Card::Ace, Card::Ten];
    let mut cw: CountW<F> = CountW::build(val, CardCol::from_decks(1));
    for rank in removed {
        cw.remove_card(&rank);
    }
    let fresh: CountW<F> = CountW::build(val, CardCol::from_decks(1) - CardCol::from_hand(&removed));
    for c in [-3i16, 0, 3] {
        let pen = Penetration::FlatPastPercent(25);
        let a = plain(&cw.draw_dist(CountFrame::pre_round(CountCondition::Eq(c)), pen));
        let b = plain(&fresh.draw_dist(CountFrame::pre_round(CountCondition::Eq(c)), pen));
        for (r, (x, y)) in a.iter().zip(b).enumerate() {
            assert!(
                (x - y).abs() < 1e-9,
                "rank {r}, count {c}: incremental {x} vs rebuild {y}"
            );
        }
    }
}

#[test]
fn dp_matches_enumeration() {
    let state = CountState::from_decks(KO, 1);
    let cw: CountW<F> = CountW::build(KO.value_of_rank(), CardCol::from_decks(1));
    for c in [-2i16, 0, 2, 4] {
        let oracle: Vec<f64> = state.all_draw_probs_given_c(c).map(|(_, p)| p).collect();
        let dp = state.draw_probs_given_count(c);
        let lib = plain(&cw.draw_dist(
            CountFrame::pre_round(CountCondition::Eq(c)),
            Penetration::FlatPastPercent(25),
        ));
        for (r, (&o, d)) in oracle.iter().zip(dp).enumerate() {
            assert!(
                (o - d).abs() < 1e-9,
                "rank {r}, count {c}: enumeration {o} vs dp {d}",
            );
            assert!(
                (o - lib[r]).abs() < 1e-9,
                "rank {r}, count {c}: enumeration {o} vs table {}",
                lib[r],
            );
        }
    }
}

/// The cards left count from the percentage on, and not just below it.
#[test]
fn percentage_is_reached_or_not() {
    let quarter = Penetration::FlatPastPercent(25);
    assert!(quarter.admits(13, 52) && !quarter.admits(12, 52));
    assert!(quarter.admits(13, 50) && !quarter.admits(12, 50));
    assert!(Penetration::FlatPastPercent(0).admits(0, 50));
    assert!(Penetration::FlatPastPercent(100).admits(50, 50));
    assert!(!Penetration::FlatPastPercent(101).admits(50, 50));
    assert!(Penetration::CardsRemaining(12).admits(12, 50));
}

/// The running counts rise and add up to one, and so do the whole true counts; what lies
/// from a whole true count on is the chance of at least that true count.
#[test]
fn occurrences_rise_and_add_up() {
    let pen = Penetration::FlatPastPercent(25);
    for (system, n) in [(KO, 1u8), (HI_LO, 1), (HI_LO, 2)] {
        let running: Vec<(i16, F)> = CountShoe::external_count_distribution(system, n, pen);
        assert!(running.windows(2).all(|w| w[0].0 < w[1].0));
        let sum: f64 = running.iter().map(|(_, p)| p.0).sum();
        assert!((sum - 1.0).abs() < 1e-9, "running counts add up to {sum}");
    }
    let list: Vec<(i16, F)> = CountShoe::true_count_distribution(HI_LO, 1, pen);
    assert!(list.windows(2).all(|w| w[0].0 < w[1].0));
    let sum: f64 = list.iter().map(|(_, p)| p.0).sum();
    assert!((sum - 1.0).abs() < 1e-9, "true counts add up to {sum}");
    let table: CountW<F> = CountW::build(HI_LO.value_of_rank(), CardCol::from_decks(1));
    for c in [-3i64, 0, 2] {
        let (mut at_least, mut all) = (0.0, 0.0);
        for n in 13..=52u16 {
            for s in -20..=20i64 {
                let p = table.at(s, n).0;
                all += p;
                if -52 * s >= c * n as i64 {
                    at_least += p;
                }
            }
        }
        let tail: f64 = list.iter().filter(|(t, _)| *t as i64 >= c).map(|(_, p)| p.0).sum();
        assert!((tail - at_least / all).abs() < 1e-9, "from {c} on: {tail}");
    }
    // No shoe of one deck has sixty cards left.
    let none: Vec<(i16, F)> =
        CountShoe::external_count_distribution(KO, 1, Penetration::CardsRemaining(60));
    assert!(none.is_empty());
}

/// The arms of a split are dealt from a tilted deck, whose units are counted.
#[test]
fn split_view_counts_units() {
    let shoe: CountShoe<F> =
        CountShoe::from_count(KO, 1, 0, CountCmp::Eq, Penetration::FlatPastPercent(25));
    let pool = CardCol::from_decks(1);
    let arms = Shoe::<F>::for_split(&shoe);
    let dist: [F; N_RANKS] =
        std::array::from_fn(|r| shoe.draw_prob(&Card::from_rank_index(r)));
    let (deck, unit) = expected_composition(&dist, pool.len() as u16);
    assert!(unit > 1);
    for r in 0..N_RANKS {
        let card = Card::from_rank_index(r);
        assert_eq!(Shoe::<F>::rank_count(&shoe, &card), Some(pool.get_count(&card)));
        assert_eq!(Shoe::<F>::rank_count(&arms, &card), Some(deck.get_count(&card)));
    }
}

/// Pools that are alike in every class have the same scales.
#[test]
fn scales_depend_on_the_classes() {
    let val = KO.value_of_rank();
    let pen = Penetration::FlatPastPercent(25);
    let mut a: CountW<F> = CountW::build(val, CardCol::from_decks(1));
    let mut b: CountW<F> = CountW::build(val, CardCol::from_decks(1));
    a.remove_card(&Card::Pip(3));
    b.remove_card(&Card::Pip(6));
    let frame = CountFrame::pre_round(CountCondition::Ge(0));
    let (x, y) = (a.value_scales(frame, pen, 1, 1), b.value_scales(frame, pen, 1, 1));
    for r in 0..N_RANKS {
        assert_eq!(x[r].0, y[r].0, "rank {r}");
    }
    assert!(a.draw_dist(frame, pen)[2].0 < b.draw_dist(frame, pen)[2].0);
}

/// A tilted deck has as many units as its cards have, and every rank its share.
#[test]
fn tilted_deck_is_in_proportion() {
    let dist: [F; N_RANKS] = std::array::from_fn(|r| F(if r == 9 { 0.3375 } else { 0.6625 / 9.0 }));
    for n in [1u16, 7, 51, 416, 60_000] {
        let (deck, unit) = expected_composition(&dist, n);
        assert_eq!(deck.len(), n as usize * unit as usize, "{n} cards");
        for r in 0..N_RANKS {
            let share = dist[r].0 * deck.len() as f64;
            let got = deck.get_count_i(r) as f64;
            assert!((got - share).abs() <= 1.0, "rank {r} of {n} cards: {got} for {share}");
        }
    }
}
