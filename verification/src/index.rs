//! Count indices: the counts at which the recommended move changes.
use crate::hand::Move;
use vstd::prelude::*;

verus! {

/// A stretch of counts with one recommended move, both ends included.
pub type Run = (Move, i16, i16);

/// Tells the recommended move at a count, if there is one. Looking again gives
/// the same answer. A look may be dear: the counts that were looked at are kept.
pub trait MoveSource {
    type Key;

    /// What the answers are made from.
    spec fn key(&self) -> Self::Key;

    /// The move at a count.
    spec fn at(&self, x: i16) -> Option<Move>;

    /// Whether the source can be asked about a count.
    spec fn covers(&self, x: i16) -> bool;

    /// The counts that were looked at so far, in order.
    spec fn looked(&self) -> Seq<i16>;

    fn look(&mut self, x: i16) -> (r: Option<Move>)
        requires
            old(self).covers(x),
        ensures
            r == old(self).at(x),
            final(self).looked() == old(self).looked().push(x),
            final(self).key() == old(self).key(),
            forall|y: i16| #[trigger] final(self).at(y) == old(self).at(y),
            forall|y: i16| #[trigger] final(self).covers(y) == old(self).covers(y),
    ;
}

/// A function as a source of moves.
pub struct ByFn<F: Fn(i16) -> Option<Move>> {
    f: F,
    seen: Ghost<Seq<i16>>,
}

/// Whether a function can be called at every count and always answers the same.
pub open spec fn is_function<F: Fn(i16) -> Option<Move>>(f: F) -> bool {
    &&& forall|x: i16| #[trigger] call_requires(f, (x,))
    &&& forall|x: i16, a: Option<Move>, b: Option<Move>|
        #[trigger] call_ensures(f, (x,), a) && #[trigger] call_ensures(f, (x,), b) ==> a == b
}

/// What a function answers at a count.
pub open spec fn answer<F: Fn(i16) -> Option<Move>>(f: F, x: i16) -> Option<Move> {
    choose|r: Option<Move>| call_ensures(f, (x,), r)
}

impl<F: Fn(i16) -> Option<Move>> MoveSource for ByFn<F> {
    type Key = F;

    closed spec fn key(&self) -> F {
        self.f
    }

    closed spec fn at(&self, x: i16) -> Option<Move> {
        answer(self.f, x)
    }

    closed spec fn covers(&self, x: i16) -> bool {
        is_function(self.f)
    }

    closed spec fn looked(&self) -> Seq<i16> {
        self.seen@
    }

    fn look(&mut self, x: i16) -> (r: Option<Move>) {
        self.seen = Ghost(self.seen@.push(x));
        assert(call_requires(self.f, (x,)));
        let r = (self.f)(x);
        r
    }
}

/// The counts that are looked at first: both ends and three in between, or all of
/// them where there are no more than five.
pub open spec fn seed_at(lo: int, hi: int, k: int) -> int {
    if hi - lo <= 4 {
        lo + k
    } else {
        lo + (hi - lo) * k / 4
    }
}

/// How many counts are looked at first.
pub open spec fn seed_count(lo: int, hi: int) -> int {
    if hi <= lo {
        1
    } else if hi - lo <= 4 {
        hi - lo + 1
    } else {
        5
    }
}

/// The counts that are looked at first, in ascending order.
pub fn seed_points(lo: i16, hi: i16) -> (r: Vec<i16>)
    ensures
        r@.len() == seed_count(lo as int, hi as int),
        forall|k: int|
            0 <= k < r@.len() ==> #[trigger] r@[k] == seed_at(lo as int, hi as int, k),
        forall|i: int, j: int| 0 <= i < j < r@.len() ==> #[trigger] r@[i] < #[trigger] r@[j],
        r@[0] == lo,
        lo <= hi ==> r@.last() == hi,
{
    let mut out: Vec<i16> = Vec::new();
    if hi <= lo {
        out.push(lo);
        return out;
    }
    let span: i32 = hi as i32 - lo as i32;
    let n: i32 = if span <= 4 {
        span + 1
    } else {
        5
    };
    let mut k: i32 = 0;
    while k < n
        invariant
            lo < hi,
            span == hi - lo,
            n == seed_count(lo as int, hi as int),
            1 < n <= 5,
            0 <= k <= n,
            out@.len() == k,
            forall|i: int|
                0 <= i < k ==> #[trigger] out@[i] == seed_at(lo as int, hi as int, i),
        decreases n - k,
    {
        assert(0 <= span * k / 4 <= span) by (nonlinear_arith)
            requires
                0 <= k <= 4,
                0 < span,
        ;
        assert(span * k <= 0x7fff_ffff) by (nonlinear_arith)
            requires
                0 <= k <= 4,
                0 < span <= 65535,
        ;
        let at: i32 = if span <= 4 {
            lo as i32 + k
        } else {
            lo as i32 + (span * k) / 4
        };
        out.push(at as i16);
        k += 1;
    }
    proof {
        assert forall|i: int, j: int| 0 <= i < j < out@.len() implies #[trigger] out@[i]
            < #[trigger] out@[j] by {
            if span > 4 {
                assert(span * i / 4 < span * j / 4) by (nonlinear_arith)
                    requires
                        0 <= i < j <= 4,
                        span >= 5,
                ;
            }
        }
        let last = out@.len() - 1;
        assert(out@[last] == seed_at(lo as int, hi as int, last));
        if span > 4 {
            assert(span * 4 / 4 == span) by (nonlinear_arith);
        }
    }
    out
}

/// A count that was looked at, with the move there.
pub type Sample = (i16, Move);

/// The moves at all counts.
pub type Answers = spec_fn(i16) -> Option<Move>;

/// Whether a source gives these answers, and can be asked from one count to
/// another.
pub open spec fn gives<M: MoveSource>(src: M, f: Answers, lo: int, hi: int) -> bool {
    &&& forall|y: i16| #[trigger] src.at(y) == f(y)
    &&& forall|y: i16| lo <= y <= hi ==> #[trigger] src.covers(y)
}

/// Whether samples are answers, in ascending order.
spec fn are_samples(f: Answers, samples: Seq<Sample>) -> bool {
    &&& forall|i: int|
        0 <= i < samples.len() ==> f((#[trigger] samples[i]).0) == Some(samples[i].1)
    &&& forall|i: int, j: int|
        0 <= i < j < samples.len() ==> (#[trigger] samples[i]).0 < (#[trigger] samples[j]).0
}

/// Whether two samples next to each other have the same move, or are next to each
/// other as counts, or have a count between them without a move.
spec fn is_pinned(f: Answers, samples: Seq<Sample>, i: int) -> bool {
    let a = samples[i];
    let b = samples[i + 1];
    a.1 == b.1 || b.0 - a.0 <= 1 || exists|x: i16| a.0 < x < b.0 && #[trigger] f(x) is None
}

spec fn all_pinned(f: Answers, samples: Seq<Sample>) -> bool {
    forall|i: int| 0 <= i < samples.len() - 1 ==> #[trigger] is_pinned(f, samples, i)
}

/// Whether `more` begins with the samples of `fewer`.
spec fn extends(more: Seq<Sample>, fewer: Seq<Sample>) -> bool {
    more.len() >= fewer.len() && more.take(fewer.len() as int) == fewer
}

proof fn extends_further(a: Seq<Sample>, b: Seq<Sample>, c: Seq<Sample>)
    requires
        extends(c, b),
        extends(b, a),
    ensures
        extends(c, a),
{
    assert forall|i: int| 0 <= i < a.len() implies c[i] == a[i] by {
        assert(c.take(b.len() as int)[i] == c[i]);
        assert(b.take(a.len() as int)[i] == b[i]);
    }
    assert(c.take(a.len() as int) =~= a);
}

/// The samples behind `a` up to `b`: where the moves differ and there are counts between,
/// the one in the middle is looked at, and both halves go on in the same way.
pub open spec fn bisected(f: Answers, a: Sample, b: Sample) -> Seq<Sample>
    decreases b.0 - a.0,
{
    let mid = (a.0 + (b.0 - a.0) / 2) as i16;
    if b.0 - a.0 <= 1 || a.1 == b.1 || f(mid) is None {
        seq![b]
    } else {
        bisected(f, a, (mid, f(mid)->0)) + bisected(f, (mid, f(mid)->0), b)
    }
}

/// The counts that are looked at between `a` and `b`: the one in the middle, where the
/// moves differ and there are counts between, and then those in either half.
pub open spec fn looks_between(f: Answers, a: Sample, b: Sample) -> Seq<i16>
    decreases b.0 - a.0,
{
    let mid = (a.0 + (b.0 - a.0) / 2) as i16;
    if b.0 - a.0 <= 1 || a.1 == b.1 {
        seq![]
    } else {
        match f(mid) {
            None => seq![mid],
            Some(mv) => seq![mid] + (looks_between(f, a, (mid, mv)) + looks_between(
                f,
                (mid, mv),
                b,
            )),
        }
    }
}

/// The counts that are looked at up to the first `k` of those that are looked at first.
pub open spec fn looks_upto(f: Answers, lo: i16, hi: i16, k: int) -> Seq<i16>
    decreases k,
{
    if k <= 0 {
        seq![]
    } else {
        let before = looks_upto(f, lo, hi, k - 1);
        let samples = sampled_upto(f, lo, hi, k - 1);
        let at = seed_at(lo as int, hi as int, k - 1) as i16;
        match f(at) {
            None => before.push(at),
            Some(mv) => if samples.len() == 0 {
                before.push(at)
            } else {
                before.push(at) + looks_between(f, samples.last(), (at, mv))
            },
        }
    }
}

/// The counts that are looked at to find the runs over the counts from `lo` to `hi`.
pub open spec fn looks_over(f: Answers, lo: i16, hi: i16) -> Seq<i16> {
    looks_upto(f, lo, hi, seed_count(lo as int, hi as int))
}

/// The samples up to the first `k` counts that are looked at first.
pub open spec fn sampled_upto(f: Answers, lo: i16, hi: i16, k: int) -> Seq<Sample>
    decreases k,
{
    if k <= 0 {
        seq![]
    } else {
        let before = sampled_upto(f, lo, hi, k - 1);
        let at = seed_at(lo as int, hi as int, k - 1) as i16;
        match f(at) {
            None => before,
            Some(mv) => if before.len() == 0 {
                seq![(at, mv)]
            } else {
                before + bisected(f, before.last(), (at, mv))
            },
        }
    }
}

/// The samples over the counts from `lo` to `hi`.
pub open spec fn sampled(f: Answers, lo: i16, hi: i16) -> Seq<Sample> {
    sampled_upto(f, lo, hi, seed_count(lo as int, hi as int))
}

/// The first `k` samples, with those of one move in a row taken together.
pub open spec fn grouped_upto(samples: Seq<Sample>, k: int) -> Seq<Run>
    decreases k,
{
    if k <= 0 {
        seq![]
    } else {
        let before = grouped_upto(samples, k - 1);
        let (x, mv) = samples[k - 1];
        if before.len() > 0 && before.last().0 == mv {
            before.update(before.len() - 1, (mv, before.last().1, x))
        } else {
            before.push((mv, x, x))
        }
    }
}

/// Runs whose first begins at `lo` and whose last ends at `hi`.
pub open spec fn stretched(runs: Seq<Run>, lo: i16, hi: i16) -> Seq<Run> {
    Seq::new(
        runs.len(),
        |i: int|
            (
                runs[i].0,
                if i == 0 {
                    lo
                } else {
                    runs[i].1
                },
                if i == runs.len() - 1 {
                    hi
                } else {
                    runs[i].2
                },
            ),
    )
}

/// The runs over the counts from `lo` to `hi`: the samples, taken together and stretched
/// to both ends.
pub open spec fn runs_over(f: Answers, lo: i16, hi: i16) -> Seq<Run> {
    let samples = sampled(f, lo, hi);
    stretched(grouped_upto(samples, samples.len() as int), lo, hi)
}

/// A look and the looks after it, put in a row.
proof fn looks_join(before: Seq<i16>, mid: i16, left: Seq<i16>, right: Seq<i16>)
    ensures
        before.push(mid) + left + right == before + (seq![mid] + (left + right)),
{
    assert(before.push(mid) + left + right =~= before + (seq![mid] + (left + right)));
}

/// Look between the last sample and a later one, until each change of the move is
/// pinned down to neighbouring counts, and add the later one.
#[verifier::rlimit(40)]
fn refine<M: MoveSource>(
    src: &mut M,
    samples: &mut Vec<Sample>,
    b: i16,
    move_b: Move,
    Ghost(f): Ghost<Answers>,
    Ghost(lo): Ghost<int>,
    Ghost(hi): Ghost<int>,
)
    requires
        gives(*old(src), f, lo, hi),
        old(samples)@.len() > 0,
        lo <= old(samples)@.last().0 < b <= hi,
        f(b) == Some(move_b),
        are_samples(f, old(samples)@),
        all_pinned(f, old(samples)@),
    ensures
        gives(*final(src), f, lo, hi),
        final(src).key() == old(src).key(),
        are_samples(f, final(samples)@),
        all_pinned(f, final(samples)@),
        extends(final(samples)@, old(samples)@),
        final(samples)@.len() > old(samples)@.len(),
        final(samples)@.last() == (b, move_b),
        final(samples)@ == old(samples)@ + bisected(f, old(samples)@.last(), (b, move_b)),
        final(src).looked() == old(src).looked() + looks_between(
            f,
            old(samples)@.last(),
            (b, move_b),
        ),
    decreases b - old(samples)@.last().0,
{
    let n: usize = samples.len();
    let (a, move_a) = samples[n - 1];
    let gap: i32 = b as i32 - a as i32;
    if gap > 1 && move_a != move_b {
        let mid: i16 = (a as i32 + gap / 2) as i16;
        match src.look(mid) {
            Some(move_mid) => {
                refine(src, samples, mid, move_mid, Ghost(f), Ghost(lo), Ghost(hi));
                let ghost half = samples@;
                refine(src, samples, b, move_b, Ghost(f), Ghost(lo), Ghost(hi));
                proof {
                    extends_further(old(samples)@, half, samples@);
                    assert(samples@ =~= old(samples)@ + (bisected(f, (a, move_a), (mid, move_mid))
                        + bisected(f, (mid, move_mid), (b, move_b))));
                    looks_join(
                        old(src).looked(),
                        mid,
                        looks_between(f, (a, move_a), (mid, move_mid)),
                        looks_between(f, (mid, move_mid), (b, move_b)),
                    );
                }
                return ;
            },
            None => {
                assert(f(mid) is None);
                assert(looks_between(f, (a, move_a), (b, move_b)) =~= seq![mid]);
                assert(old(src).looked().push(mid) =~= old(src).looked() + seq![mid]);
            },
        }
    } else {
        assert(looks_between(f, (a, move_a), (b, move_b)) =~= seq![]);
        assert(src.looked() =~= old(src).looked() + seq![]);
    }
    let ghost before = samples@;
    samples.push((b, move_b));
    proof {
        assert(samples@.take(before.len() as int) =~= before);
        assert(samples@ =~= before + seq![(b, move_b)]);
        assert forall|i: int| 0 <= i < samples@.len() - 1 implies #[trigger] is_pinned(
            f,
            samples@,
            i,
        ) by {
            if i < before.len() - 1 {
                assert(is_pinned(f, before, i));
            } else {
                assert(samples@[i] == (a, move_a));
            }
        }
    }
}

/// Whether there is no count between two counts, or one without a move.
pub open spec fn is_flip(f: Answers, a: i16, b: i16) -> bool {
    b - a <= 1 || exists|x: i16| a < x < b && #[trigger] f(x) is None
}

/// Whether the run behind the one at place `i` follows it: it begins behind it
/// with another move, and the change is pinned down.
pub open spec fn follows(f: Answers, runs: Seq<Run>, i: int) -> bool {
    let run = runs[i];
    let next = runs[i + 1];
    &&& run.0 != next.0
    &&& run.2 < next.1
    &&& f(run.2) == Some(run.0)
    &&& f(next.1) == Some(next.0)
    &&& is_flip(f, run.2, next.1)
}

/// Whether runs follow each other.
pub open spec fn is_ladder(f: Answers, runs: Seq<Run>) -> bool {
    forall|i: int| 0 <= i < runs.len() - 1 ==> #[trigger] follows(f, runs, i)
}

/// Whether a run holds a count.
pub open spec fn in_run(run: Run, x: int) -> bool {
    run.1 <= x <= run.2
}

/// What runs over the counts from `lo` to `hi` say of the moves there:
/// - they reach from `lo` to `hi`,
/// - each run but the first begins, and each but the last ends, at a count with
///   its move, and the runs between follow each other,
/// - every count that was looked at first and has a move is in a run with it,
/// - there are no runs exactly where none of those counts has a move.
pub open spec fn describes(runs: Seq<Run>, f: Answers, lo: i16, hi: i16) -> bool {
    &&& runs.len() == 0 <==> forall|k: int|
        0 <= k < seed_count(lo as int, hi as int) ==> f(
            (#[trigger] seed_at(lo as int, hi as int, k)) as i16,
        ) is None
    &&& runs.len() > 0 ==> runs[0].1 == lo && runs.last().2 == hi
    &&& is_ladder(f, runs)
    &&& lo <= hi ==> forall|i: int|
        0 <= i < runs.len() ==> lo <= (#[trigger] runs[i]).1 <= runs[i].2 <= hi
    &&& lo <= hi ==> forall|k: int|
        0 <= k < seed_count(lo as int, hi as int) && f(
            (#[trigger] seed_at(lo as int, hi as int, k)) as i16,
        ) is Some ==> exists|i: int|
            0 <= i < runs.len() && in_run(#[trigger] runs[i], seed_at(lo as int, hi as int, k))
                && f(seed_at(lo as int, hi as int, k) as i16) == Some(runs[i].0)
}

/// What holds of the runs of the first `k` samples.
spec fn runs_of(f: Answers, samples: Seq<Sample>, k: int, runs: Seq<Run>) -> bool {
    &&& k == 0 <==> runs.len() == 0
    &&& k > 0 ==> runs[0].1 == samples[0].0 && runs.last().2 == samples[k - 1].0
        && runs.last().0 == samples[k - 1].1
    &&& is_ladder(f, runs)
    &&& forall|i: int| 0 <= i < runs.len() ==> (#[trigger] runs[i]).1 <= runs[i].2
    &&& forall|j: int|
        0 <= j < k ==> exists|i: int|
            0 <= i < runs.len() && in_run(#[trigger] runs[i], (#[trigger] samples[j]).0 as int)
                && samples[j].1 == runs[i].0
}

fn build_runs(samples: &Vec<Sample>, Ghost(f): Ghost<Answers>) -> (r: Vec<Run>)
    requires
        are_samples(f, samples@),
        all_pinned(f, samples@),
    ensures
        runs_of(f, samples@, samples@.len() as int, r@),
        r@ == grouped_upto(samples@, samples@.len() as int),
{
    let mut runs: Vec<Run> = Vec::new();
    let mut k: usize = 0;
    while k < samples.len()
        invariant
            k <= samples@.len(),
            are_samples(f, samples@),
            all_pinned(f, samples@),
            runs_of(f, samples@, k as int, runs@),
            runs@ == grouped_upto(samples@, k as int),
        decreases samples@.len() - k,
    {
        let (x, mv) = samples[k];
        let n: usize = runs.len();
        let ghost before = runs@;
        assert(f(x) == Some(mv));
        if n > 0 && runs[n - 1].0 == mv {
            let start: i16 = runs[n - 1].1;
            runs.set(n - 1, (mv, start, x));
            proof {
                assert(samples@[k - 1].0 < x);
                assert forall|i: int| 0 <= i < runs@.len() - 1 implies #[trigger] follows(f, runs@, i) by {
                    assert(follows(f, before, i));
                }
            }
        } else {
            runs.push((mv, x, x));
            proof {
                assert forall|i: int| 0 <= i < runs@.len() - 1 implies #[trigger] follows(f, runs@, i) by {
                    if i < before.len() - 1 {
                        assert(follows(f, before, i));
                    } else {
                        assert(samples@[k - 1].0 < x);
                        assert(is_pinned(f, samples@, k - 1));
                    }
                }
            }
        }
        proof {
            assert forall|j: int| 0 <= j < k + 1 implies exists|i: int|
                0 <= i < runs@.len() && in_run(
                    #[trigger] runs@[i],
                    (#[trigger] samples@[j]).0 as int,
                ) && samples@[j].1 == runs@[i].0 by {
                if j < k {
                    let i = choose|i: int|
                        0 <= i < before.len() && in_run(
                            #[trigger] before[i],
                            samples@[j].0 as int,
                        ) && samples@[j].1 == before[i].0;
                    assert(in_run(runs@[i], samples@[j].0 as int));
                } else {
                    assert(in_run(runs@[runs@.len() - 1], x as int));
                }
            }
        }
        k += 1;
    }
    runs
}

/// The runs of a source over the counts from `lo` to `hi`.
pub fn find_runs<M: MoveSource>(
    src: &mut M,
    lo: i16,
    hi: i16,
    Ghost(f): Ghost<Answers>,
) -> (r: Vec<Run>)
    requires
        gives(
            *old(src),
            f,
            lo as int,
            if lo <= hi {
                hi as int
            } else {
                lo as int
            },
        ),
    ensures
        r@ == runs_over(f, lo, hi),
        describes(r@, f, lo, hi),
        final(src).looked() == old(src).looked() + looks_over(f, lo, hi),
        final(src).key() == old(src).key(),
        gives(
            *final(src),
            f,
            lo as int,
            if lo <= hi {
                hi as int
            } else {
                lo as int
            },
        ),
{
    let ghost top: int = if lo <= hi {
        hi as int
    } else {
        lo as int
    };
    let seeds = seed_points(lo, hi);
    let mut samples: Vec<Sample> = Vec::new();
    let mut k: usize = 0;
    assert(src.looked() =~= old(src).looked() + looks_upto(f, lo, hi, 0));
    while k < seeds.len()
        invariant
            k <= seeds@.len(),
            seeds@.len() == seed_count(lo as int, hi as int),
            forall|i: int|
                0 <= i < seeds@.len() ==> #[trigger] seeds@[i] == seed_at(
                    lo as int,
                    hi as int,
                    i,
                ),
            forall|i: int, j: int|
                0 <= i < j < seeds@.len() ==> #[trigger] seeds@[i] < #[trigger] seeds@[j],
            seeds@[0] == lo,
            seeds@.last() == top,
            gives(*src, f, lo as int, top),
            src.key() == old(src).key(),
            are_samples(f, samples@),
            all_pinned(f, samples@),
            samples@ == sampled_upto(f, lo, hi, k as int),
            src.looked() == old(src).looked() + looks_upto(f, lo, hi, k as int),
            forall|i: int| 0 <= i < samples@.len() ==> lo <= (#[trigger] samples@[i]).0 <= top,
            samples@.len() > 0 ==> k > 0 && samples@.last().0 <= seeds@[k - 1],
            forall|i: int|
                0 <= i < k && f(#[trigger] seeds@[i]) is Some ==> exists|j: int|
                    0 <= j < samples@.len() && (#[trigger] samples@[j]).0 == seeds@[i],
            samples@.len() > 0 ==> exists|i: int| 0 <= i < k && f(#[trigger] seeds@[i]) is Some,
        decreases seeds@.len() - k,
    {
        let s: i16 = seeds[k];
        let ghost before = samples@;
        assert(lo <= s <= top) by {
            if k > 0 {
                assert(seeds@[0] < seeds@[k as int]);
            }
            if k < seeds@.len() - 1 {
                assert(seeds@[k as int] < seeds@[seeds@.len() - 1]);
            }
        }
        match src.look(s) {
            None => {},
            Some(mv) => {
                if samples.len() == 0 {
                    samples.push((s, mv));
                    assert(samples@ =~= seq![(s, mv)]);
                } else {
                    assert(seeds@[k - 1] < seeds@[k as int]);
                    refine(src, &mut samples, s, mv, Ghost(f), Ghost(lo as int), Ghost(top));
                }
                proof {
                    let last = samples@.len() - 1;
                    assert(samples@[last].0 == s);
                    assert forall|i: int| 0 <= i < samples@.len() implies lo <= (
                    #[trigger] samples@[i]).0 <= top by {
                        if before.len() > 0 {
                            assert(samples@.take(before.len() as int)[0] == samples@[0]);
                            assert(samples@[0] == before[0]);
                        }
                        if i > 0 {
                            assert(samples@[0].0 < samples@[i].0);
                        }
                        if i < last {
                            assert(samples@[i].0 < samples@[last].0);
                        }
                    }
                    assert(f(seeds@[k as int]) is Some);
                }
            },
        }
        assert(src.looked() =~= old(src).looked() + looks_upto(f, lo, hi, k + 1));
        proof {
            assert forall|i: int| 0 <= i < k + 1 && f(#[trigger] seeds@[i]) is Some implies exists|j:
                int| 0 <= j < samples@.len() && (#[trigger] samples@[j]).0 == seeds@[i] by {
                if i < k {
                    let j = choose|j: int|
                        0 <= j < before.len() && (#[trigger] before[j]).0 == seeds@[i];
                    if samples@.len() > before.len() {
                        if before.len() > 0 {
                            assert(samples@.take(before.len() as int)[j] == samples@[j]);
                        }
                    }
                    assert(samples@[j].0 == seeds@[i]);
                } else {
                    assert(samples@[samples@.len() - 1].0 == s);
                }
            }
        }
        k += 1;
    }
    let mut runs = build_runs(&samples, Ghost(f));
    let ghost raw = runs@;
    let n: usize = runs.len();
    if n > 0 {
        let (mv, _, end) = runs[0];
        runs.set(0, (mv, lo, end));
        let (mv, start, _) = runs[n - 1];
        runs.set(n - 1, (mv, start, hi));
    }
    proof {
        finish_runs(f, samples@, raw, runs@, lo, hi);
        assert(runs@ =~= runs_over(f, lo, hi));
        assert forall|k: int|
            0 <= k < seed_count(lo as int, hi as int) implies (#[trigger] seed_at(
            lo as int,
            hi as int,
            k,
        )) == seeds@[k] by {}
        if runs@.len() > 0 {
            let i = choose|i: int| 0 <= i < seeds@.len() && f(#[trigger] seeds@[i]) is Some;
            assert(f(seed_at(lo as int, hi as int, i) as i16) is Some);
        } else {
            assert forall|k: int| 0 <= k < seed_count(lo as int, hi as int) implies f(
                (#[trigger] seed_at(lo as int, hi as int, k)) as i16,
            ) is None by {
                assert(seeds@[k] == seed_at(lo as int, hi as int, k));
                if f(seeds@[k]) is Some {
                    let j = choose|j: int|
                        0 <= j < samples@.len() && (#[trigger] samples@[j]).0 == seeds@[k];
                }
            }
        }
        if lo <= hi {
            assert forall|k: int|
                0 <= k < seed_count(lo as int, hi as int) && f(
                    (#[trigger] seed_at(lo as int, hi as int, k)) as i16,
                ) is Some implies exists|i: int|
                0 <= i < runs@.len() && in_run(
                    #[trigger] runs@[i],
                    seed_at(lo as int, hi as int, k),
                ) && f(seed_at(lo as int, hi as int, k) as i16) == Some(runs@[i].0) by {
                assert(seeds@[k] == seed_at(lo as int, hi as int, k));
                let j = choose|j: int|
                    0 <= j < samples@.len() && (#[trigger] samples@[j]).0 == seeds@[k];
                assert(f(samples@[j].0) == Some(samples@[j].1));
                let i = choose|i: int|
                    0 <= i < runs@.len() && in_run(#[trigger] runs@[i], samples@[j].0 as int)
                        && samples@[j].1 == runs@[i].0;
                assert(in_run(runs@[i], seed_at(lo as int, hi as int, k)));
            }
        }
    }
    runs
}

/// Stretching the outer runs to the ends of the counts keeps what the runs say.
proof fn finish_runs(
    f: Answers,
    samples: Seq<Sample>,
    raw: Seq<Run>,
    runs: Seq<Run>,
    lo: i16,
    hi: i16,
)
    requires
        runs_of(f, samples, samples.len() as int, raw),
        are_samples(f, samples),
        forall|i: int|
            0 <= i < samples.len() ==> lo <= (#[trigger] samples[i]).0 <= if lo <= hi {
                hi
            } else {
                lo
            },
        runs.len() == raw.len(),
        forall|i: int|
            0 <= i < raw.len() ==> {
                &&& (#[trigger] runs[i]).0 == raw[i].0
                &&& runs[i].1 == if i == 0 {
                    lo
                } else {
                    raw[i].1
                }
                &&& runs[i].2 == if i == raw.len() - 1 {
                    hi
                } else {
                    raw[i].2
                }
            },
    ensures
        runs.len() == 0 <==> samples.len() == 0,
        is_ladder(f, runs),
        runs.len() > 0 ==> runs[0].1 == lo && runs.last().2 == hi,
        lo <= hi ==> forall|i: int|
            0 <= i < runs.len() ==> lo <= (#[trigger] runs[i]).1 <= runs[i].2 <= hi,
        lo <= hi ==> forall|j: int|
            0 <= j < samples.len() ==> exists|i: int|
                0 <= i < runs.len() && in_run(#[trigger] runs[i], (#[trigger] samples[j]).0 as int)
                    && samples[j].1 == runs[i].0,
{
    assert forall|i: int| 0 <= i < runs.len() - 1 implies #[trigger] follows(f, runs, i) by {
        assert(follows(f, raw, i));
        assert(runs[i].0 == raw[i].0 && runs[i + 1].0 == raw[i + 1].0);
    }
    if lo <= hi && raw.len() > 0 {
        let last = raw.len() - 1;
        ladder_ascends(f, raw);
        assert(samples[0].0 <= hi);
        assert(lo <= samples[samples.len() - 1].0 <= hi);
        assert forall|i: int| 0 <= i < runs.len() implies lo <= (#[trigger] runs[i]).1 <= runs[i].2
            <= hi && runs[i].1 <= raw[i].1 && raw[i].2 <= runs[i].2 by {
            assert(raw[0].1 <= raw[i].1);
            assert(raw[i].2 <= raw[last].2);
            assert(raw[i].1 <= raw[i].2);
        }
        assert forall|j: int| 0 <= j < samples.len() implies exists|i: int|
            0 <= i < runs.len() && in_run(#[trigger] runs[i], (#[trigger] samples[j]).0 as int)
                && samples[j].1 == runs[i].0 by {
            let i = choose|i: int|
                0 <= i < raw.len() && in_run(#[trigger] raw[i], samples[j].0 as int)
                    && samples[j].1 == raw[i].0;
            assert(in_run(runs[i], samples[j].0 as int));
        }
    }
}

/// The runs of a ladder ascend.
proof fn ladder_ascends(f: Answers, runs: Seq<Run>)
    requires
        is_ladder(f, runs),
        forall|i: int| 0 <= i < runs.len() ==> (#[trigger] runs[i]).1 <= runs[i].2,
    ensures
        forall|i: int, j: int|
            0 <= i < j < runs.len() ==> (#[trigger] runs[i]).2 < (#[trigger] runs[j]).1,
{
    assert forall|i: int, j: int| 0 <= i < j < runs.len() implies (#[trigger] runs[i]).2 < (
    #[trigger] runs[j]).1 by {
        ladder_ascends_to(f, runs, i, j);
    }
}

proof fn ladder_ascends_to(f: Answers, runs: Seq<Run>, i: int, j: int)
    requires
        is_ladder(f, runs),
        forall|i: int| 0 <= i < runs.len() ==> (#[trigger] runs[i]).1 <= runs[i].2,
        0 <= i < j < runs.len(),
    ensures
        runs[i].2 < runs[j].1,
    decreases j - i,
{
    assert(follows(f, runs, i));
    if i + 1 < j {
        ladder_ascends_to(f, runs, i + 1, j);
        assert(runs[i + 1].1 <= runs[i + 1].2);
    }
}

/// The runs of a function over the counts from `lo` to `hi`, found by bisection
/// between a few counts.
pub fn coalesce_runs<F: Fn(i16) -> Option<Move>>(lo: i16, hi: i16, move_fn: F) -> (r: Vec<Run>)
    requires
        is_function(move_fn),
    ensures
        r@ == runs_over(|x: i16| answer(move_fn, x), lo, hi),
        describes(r@, |x: i16| answer(move_fn, x), lo, hi),
{
    let mut src = ByFn { f: move_fn, seen: Ghost(Seq::empty()) };
    let ghost f = |x: i16| answer(move_fn, x);
    find_runs(&mut src, lo, hi, Ghost(f))
}

/// How often the move changes from one count to the next, above `a` and up to `b`.
pub open spec fn changes(f: Answers, a: int, b: int) -> nat
    decreases b - a,
{
    if b <= a {
        0
    } else {
        changes(f, a, b - 1) + if f(b as i16) != f((b - 1) as i16) {
            1nat
        } else {
            0
        }
    }
}

/// Two to the power of `k`.
pub open spec fn doubled(k: nat) -> nat
    decreases k,
{
    if k == 0 {
        1
    } else {
        2 * doubled((k - 1) as nat)
    }
}

/// Where nothing changes, both ends have one move.
proof fn no_change(f: Answers, a: int, b: int)
    requires
        a <= b,
        changes(f, a, b) == 0,
    ensures
        f(a as i16) == f(b as i16),
    decreases b - a,
{
    if a < b {
        no_change(f, a, b - 1);
    }
}

/// The changes on both sides of a count add up.
proof fn changes_in_parts(f: Answers, a: int, m: int, b: int)
    requires
        a <= m <= b,
    ensures
        changes(f, a, b) == changes(f, a, m) + changes(f, m, b),
    decreases b - m,
{
    if m < b {
        changes_in_parts(f, a, m, b - 1);
    }
}

/// Between two counts whose distance is at most two to the power of `k`, there are at most
/// `k` looks for each change of the move.
pub proof fn law_a_change_takes_few_looks(f: Answers, a: Sample, b: Sample, k: nat)
    requires
        a.0 <= b.0,
        f(a.0) == Some(a.1),
        f(b.0) == Some(b.1),
        b.0 - a.0 <= doubled(k),
    ensures
        looks_between(f, a, b).len() <= changes(f, a.0 as int, b.0 as int) * k,
    decreases k,
{
    let mid = (a.0 + (b.0 - a.0) / 2) as i16;
    let n = changes(f, a.0 as int, b.0 as int);
    if b.0 - a.0 <= 1 || a.1 == b.1 {
        assert(n * k >= 0) by (nonlinear_arith)
            requires
                n >= 0,
                k >= 0,
        ;
    } else {
        if n == 0 {
            no_change(f, a.0 as int, b.0 as int);
        }
        let less = (k - 1) as nat;
        assert(n * k == n * less + n) by (nonlinear_arith)
            requires
                k == less + 1,
        ;
        assert(n * less >= 0) by (nonlinear_arith)
            requires
                n >= 0,
                less >= 0,
        ;
        if let Some(mv) = f(mid) {
            law_a_change_takes_few_looks(f, a, (mid, mv), less);
            law_a_change_takes_few_looks(f, (mid, mv), b, less);
            changes_in_parts(f, a.0 as int, mid as int, b.0 as int);
            let n1 = changes(f, a.0 as int, mid as int);
            let n2 = changes(f, mid as int, b.0 as int);
            assert(n * less == n1 * less + n2 * less) by (nonlinear_arith)
                requires
                    n == n1 + n2,
            ;
        }
    }
}

/// The last sample is an answer at a count that was looked at.
proof fn last_sample(f: Answers, lo: i16, hi: i16, k: int)
    requires
        lo <= hi,
        0 <= k <= seed_count(lo as int, hi as int),
    ensures
        ({
            let samples = sampled_upto(f, lo, hi, k);
            samples.len() > 0 ==> k > 0 && f(samples.last().0) == Some(samples.last().1) && lo
                <= samples.last().0 <= seed_at(lo as int, hi as int, k - 1)
        }),
    decreases k,
{
    if k > 0 {
        last_sample(f, lo, hi, k - 1);
        seed_in_place(lo as int, hi as int, k - 1);
        let at = seed_at(lo as int, hi as int, k - 1) as i16;
        let before = sampled_upto(f, lo, hi, k - 1);
        if let Some(mv) = f(at) {
            if before.len() > 0 {
                bisected_ends(f, before.last(), (at, mv));
            }
        }
    }
}

proof fn bisected_ends(f: Answers, a: Sample, b: Sample)
    ensures
        bisected(f, a, b).len() > 0,
        bisected(f, a, b).last() == b,
    decreases b.0 - a.0,
{
    let mid = (a.0 + (b.0 - a.0) / 2) as i16;
    if !(b.0 - a.0 <= 1 || a.1 == b.1 || f(mid) is None) {
        bisected_ends(f, (mid, f(mid)->0), b);
    }
}

/// The counts that are looked at first lie within, in ascending order.
proof fn seed_in_place(lo: int, hi: int, k: int)
    requires
        lo <= hi,
        0 <= k < seed_count(lo, hi),
    ensures
        lo <= seed_at(lo, hi, k) <= hi,
        k > 0 ==> seed_at(lo, hi, k - 1) <= seed_at(lo, hi, k),
{
    let span = hi - lo;
    if span > 4 {
        assert(0 <= span * k / 4 <= span) by (nonlinear_arith)
            requires
                0 <= k <= 4,
                span >= 0,
        ;
        assert(span * (k - 1) / 4 <= span * k / 4) by (nonlinear_arith)
            requires
                span >= 0,
        ;
    }
}

/// The looks up to the first `n` of the counts that are looked at first: one for each of
/// those, and few for each change.
proof fn looks_so_far(f: Answers, lo: i16, hi: i16, n: int, k: nat)
    requires
        lo <= hi,
        hi - lo <= doubled(k),
        0 <= n <= seed_count(lo as int, hi as int),
    ensures
        ({
            let samples = sampled_upto(f, lo, hi, n);
            let far = if samples.len() > 0 {
                samples.last().0
            } else {
                lo
            };
            looks_upto(f, lo, hi, n).len() <= n + changes(f, lo as int, far as int) * k
        }),
    decreases n,
{
    if n > 0 {
        looks_so_far(f, lo, hi, n - 1, k);
        last_sample(f, lo, hi, n - 1);
        seed_in_place(lo as int, hi as int, n - 1);
        let at = seed_at(lo as int, hi as int, n - 1) as i16;
        let before = sampled_upto(f, lo, hi, n - 1);
        if let Some(mv) = f(at) {
            if before.len() > 0 {
                let far = before.last();
                law_a_change_takes_few_looks(f, far, (at, mv), k);
                bisected_ends(f, far, (at, mv));
                changes_in_parts(f, lo as int, far.0 as int, at as int);
                let n1 = changes(f, lo as int, far.0 as int);
                let n2 = changes(f, far.0 as int, at as int);
                assert((n1 + n2) * k == n1 * k + n2 * k) by (nonlinear_arith);
            } else {
                let m = changes(f, lo as int, at as int);
                assert(0 * k == 0 && m * k >= 0) by (nonlinear_arith)
                    requires
                        m >= 0,
                        k >= 0,
                ;
            }
        }
    } else {
        assert(0 * k == 0) by (nonlinear_arith);
    }
}

/// Runs are found with few looks: five at most, and for each change of the move over the
/// counts `k` more at most, where two to the power of `k` is no less than their width.
pub proof fn law_runs_take_few_looks(f: Answers, lo: i16, hi: i16, k: nat)
    requires
        lo <= hi,
        hi - lo <= doubled(k),
    ensures
        looks_over(f, lo, hi).len() <= 5 + changes(f, lo as int, hi as int) * k,
{
    let n = seed_count(lo as int, hi as int);
    looks_so_far(f, lo, hi, n, k);
    last_sample(f, lo, hi, n);
    seed_in_place(lo as int, hi as int, n - 1);
    let samples = sampled_upto(f, lo, hi, n);
    let far = if samples.len() > 0 {
        samples.last().0
    } else {
        lo
    };
    changes_in_parts(f, lo as int, far as int, hi as int);
    let n1 = changes(f, lo as int, far as int);
    let n2 = changes(f, lo as int, hi as int);
    assert(n1 * k <= n2 * k) by (nonlinear_arith)
        requires
            n1 <= n2,
            k >= 0,
    ;
}

/// Where every count has a move, the runs leave no count out: each begins right
/// behind the one before it.
pub proof fn law_runs_tile_the_counts(runs: Seq<Run>, f: Answers, lo: i16, hi: i16)
    requires
        describes(runs, f, lo, hi),
        lo <= hi,
        forall|x: i16| lo <= x <= hi ==> #[trigger] f(x) is Some,
    ensures
        runs.len() > 0,
        runs[0].1 == lo,
        runs.last().2 == hi,
        forall|i: int|
            0 <= i < runs.len() - 1 ==> (#[trigger] runs[i]).2 + 1 == runs[i + 1].1,
{
    assert(seed_at(lo as int, hi as int, 0) == lo) by (nonlinear_arith)
        requires
            lo <= hi,
    {
        assert((hi - lo) * 0 / 4 == 0);
    }
    assert(f(seed_at(lo as int, hi as int, 0) as i16) is Some);
    assert forall|i: int| 0 <= i < runs.len() - 1 implies (#[trigger] runs[i]).2 + 1 == runs[i
        + 1].1 by {
        assert(lo <= runs[i].1 <= runs[i].2 <= hi);
        assert(lo <= runs[i + 1].1 <= runs[i + 1].2 <= hi);
        assert(follows(f, runs, i));
    }
}

/// Neighbouring runs recommend different moves.
pub proof fn law_neighbouring_runs_differ(runs: Seq<Run>, f: Answers, lo: i16, hi: i16, i: int)
    requires
        describes(runs, f, lo, hi),
        0 <= i < runs.len() - 1,
    ensures
        runs[i].0 != runs[i + 1].0,
{
    assert(follows(f, runs, i));
}

/// Whether no move comes back between two neighbouring counts of those looked at first.
pub open spec fn changes_once(f: Answers, lo: i16, hi: i16, k: int) -> bool {
    forall|x: i16, y: i16, z: i16|
        seed_at(lo as int, hi as int, k) <= x <= y <= z <= seed_at(lo as int, hi as int, k + 1)
            && #[trigger] f(x) == #[trigger] f(z) ==> #[trigger] f(y) == f(x)
}

/// Where every count has a move, and no move comes back between two neighbouring counts of
/// those looked at first, the runs give every count its own move.
pub proof fn law_runs_give_every_move(runs: Seq<Run>, f: Answers, lo: i16, hi: i16, x: i16)
    requires
        describes(runs, f, lo, hi),
        lo <= x <= hi,
        forall|y: i16| lo <= y <= hi ==> #[trigger] f(y) is Some,
        forall|k: int|
            0 <= k < seed_count(lo as int, hi as int) - 1 ==> #[trigger] changes_once(
                f,
                lo,
                hi,
                k,
            ),
    ensures
        exists|i: int|
            0 <= i < runs.len() && in_run(#[trigger] runs[i], x as int) && f(x) == Some(
                runs[i].0,
            ),
        forall|i: int|
            0 <= i < runs.len() && in_run(#[trigger] runs[i], x as int) ==> f(x) == Some(
                runs[i].0,
            ),
{
    law_runs_tile_the_counts(runs, f, lo, hi);
    ladder_ascends(f, runs);
    some_run_holds(runs, f, lo, hi, x, 0);
    let i = choose|i: int| 0 <= i < runs.len() && in_run(#[trigger] runs[i], x as int);
    run_gives_its_move(runs, f, lo, hi, x, i);
    assert forall|j: int|
        0 <= j < runs.len() && in_run(#[trigger] runs[j], x as int) implies j == i by {
        if j < i {
            assert(runs[j].2 < runs[i].1);
        } else if i < j {
            assert(runs[i].2 < runs[j].1);
        }
    }
}

/// From a run that begins at a count or before it on, some run holds that count.
pub proof fn some_run_holds(runs: Seq<Run>, f: Answers, lo: i16, hi: i16, x: i16, i: int)
    requires
        describes(runs, f, lo, hi),
        lo <= x <= hi,
        0 <= i < runs.len(),
        runs[i].1 <= x,
        forall|i: int|
            0 <= i < runs.len() - 1 ==> (#[trigger] runs[i]).2 + 1 == runs[i + 1].1,
    ensures
        exists|i: int| 0 <= i < runs.len() && in_run(#[trigger] runs[i], x as int),
    decreases runs.len() - i,
{
    if runs[i].2 < x {
        some_run_holds(runs, f, lo, hi, x, i + 1);
    } else {
        assert(in_run(runs[i], x as int));
    }
}

/// The counts looked at first ascend from `lo` to `hi`.
proof fn seeds_ascend(lo: i16, hi: i16)
    requires
        lo <= hi,
    ensures
        seed_at(lo as int, hi as int, 0) == lo,
        seed_at(lo as int, hi as int, seed_count(lo as int, hi as int) - 1) == hi,
        forall|i: int, j: int|
            0 <= i < j < seed_count(lo as int, hi as int) ==> #[trigger] seed_at(
                lo as int,
                hi as int,
                i,
            ) < #[trigger] seed_at(lo as int, hi as int, j),
{
    let span = hi - lo;
    assert(span * 0 / 4 == 0 && span * 4 / 4 == span) by (nonlinear_arith);
    assert forall|i: int, j: int|
        0 <= i < j < seed_count(lo as int, hi as int) implies #[trigger] seed_at(
        lo as int,
        hi as int,
        i,
    ) < #[trigger] seed_at(lo as int, hi as int, j) by {
        if span > 4 {
            assert(span * i / 4 < span * j / 4) by (nonlinear_arith)
                requires
                    0 <= i < j <= 4,
                    span >= 5,
            ;
        }
    }
}

/// A count looked at first has the move of the run that holds it.
proof fn seed_has_the_run(runs: Seq<Run>, f: Answers, lo: i16, hi: i16, k: int, i: int)
    requires
        describes(runs, f, lo, hi),
        lo <= hi,
        forall|y: i16| lo <= y <= hi ==> #[trigger] f(y) is Some,
        0 <= k < seed_count(lo as int, hi as int),
        0 <= i < runs.len(),
        in_run(runs[i], seed_at(lo as int, hi as int, k)),
    ensures
        lo <= seed_at(lo as int, hi as int, k) <= hi,
        f(seed_at(lo as int, hi as int, k) as i16) == Some(runs[i].0),
{
    seeds_ascend(lo, hi);
    ladder_ascends(f, runs);
    let at = seed_at(lo as int, hi as int, k);
    assert(lo <= at <= hi);
    assert(f(at as i16) is Some);
    let j = choose|j: int|
        0 <= j < runs.len() && in_run(#[trigger] runs[j], at) && f(at as i16) == Some(runs[j].0);
    if j < i {
        assert(runs[j].2 < runs[i].1);
    } else if i < j {
        assert(runs[i].2 < runs[j].1);
    }
}

/// The last of the counts looked at first that is no greater than a count.
proof fn seed_before(lo: i16, hi: i16, x: i16) -> (k: int)
    requires
        lo <= x < hi,
    ensures
        0 <= k < seed_count(lo as int, hi as int) - 1,
        seed_at(lo as int, hi as int, k) <= x < seed_at(lo as int, hi as int, k + 1),
{
    seeds_ascend(lo, hi);
    seed_before_from(lo, hi, x, 0)
}

proof fn seed_before_from(lo: i16, hi: i16, x: i16, k: int) -> (r: int)
    requires
        lo <= x < hi,
        0 <= k < seed_count(lo as int, hi as int) - 1,
        seed_at(lo as int, hi as int, k) <= x,
        seed_at(lo as int, hi as int, seed_count(lo as int, hi as int) - 1) == hi,
    ensures
        0 <= r < seed_count(lo as int, hi as int) - 1,
        seed_at(lo as int, hi as int, r) <= x < seed_at(lo as int, hi as int, r + 1),
    decreases seed_count(lo as int, hi as int) - k,
{
    if x < seed_at(lo as int, hi as int, k + 1) {
        k
    } else {
        seed_before_from(lo, hi, x, k + 1)
    }
}

/// A run gives each of its counts its own move.
proof fn run_gives_its_move(runs: Seq<Run>, f: Answers, lo: i16, hi: i16, x: i16, i: int)
    requires
        describes(runs, f, lo, hi),
        lo <= x <= hi,
        forall|y: i16| lo <= y <= hi ==> #[trigger] f(y) is Some,
        forall|k: int|
            0 <= k < seed_count(lo as int, hi as int) - 1 ==> #[trigger] changes_once(
                f,
                lo,
                hi,
                k,
            ),
        0 <= i < runs.len(),
        in_run(runs[i], x as int),
    ensures
        f(x) == Some(runs[i].0),
{
    seeds_ascend(lo, hi);
    let top = seed_count(lo as int, hi as int) - 1;
    let run = runs[i];
    assert(lo <= runs[i].1 <= runs[i].2 <= hi);
    if i == 0 {
        seed_has_the_run(runs, f, lo, hi, 0, i);
    } else {
        assert(follows(f, runs, i - 1));
    }
    if i == runs.len() - 1 {
        seed_has_the_run(runs, f, lo, hi, top, i);
    } else {
        assert(follows(f, runs, i));
    }
    assert(f(run.1) == Some(run.0));
    assert(f(run.2) == Some(run.0));
    if x < hi {
        let k = seed_before(lo, hi, x);
        let a = seed_at(lo as int, hi as int, k);
        let b = seed_at(lo as int, hi as int, k + 1);
        let from: i16 = if run.1 <= a {
            a as i16
        } else {
            run.1
        };
        let to: i16 = if b <= run.2 {
            b as i16
        } else {
            run.2
        };
        if run.1 <= a {
            seed_has_the_run(runs, f, lo, hi, k, i);
        }
        if b <= run.2 {
            seed_has_the_run(runs, f, lo, hi, k + 1, i);
        }
        assert(changes_once(f, lo, hi, k));
        assert(f(from) == f(to));
        assert(f(x) == f(from));
    }
}

} // verus!
