//! The results engine: a pure function of a finished keystroke log that
//! reconstructs per-second throughput, a rolling words-per-minute curve,
//! the final WPM, accuracy, and a consistency (standard deviation) metric.
//!
//! Time is measured in integer milliseconds. A "bucket" is the value of the
//! one-second-wide interval a correct keystroke falls into: a whole second
//! expressed as `k * 1000` ms, or the fractional final second expressed as
//! the full elapsed time in ms. WPM values are carried in thousandths
//! (milli-WPM) so every computed value is exact.

use vstd::prelude::*;

use crate::stats::{
    isqrt_spec, lemma_sum_nonneg, lemma_sum_prefix_le, lemma_sum_take_succ, std_dev,
    std_dev_milli_spec, sum_u64, MAX_SAMPLES, MAX_TOTAL,
};

verus! {

/// Largest keystroke log the engine accepts; a longer log could not be
/// held in memory anyway.
pub const MAX_KEYSTROKES: usize = 1_000_000_000;

/// Largest elapsed session time in milliseconds (about 31 years).
pub const MAX_ELAPSED_MS: u64 = 1_000_000_000_000;

/// Whether a keystroke matched the prompt character it was typed against.
#[derive(Clone, Copy, Debug, PartialEq, Eq, Structural)]
pub enum Outcome {
    Correct,
    Incorrect,
}

/// One recorded keystroke: the character typed, whether it was correct at
/// insertion time, and its wall-clock capture time in milliseconds.
#[derive(Clone, Copy, Debug, PartialEq, Eq, Structural)]
pub struct Input {
    pub char: char,
    pub outcome: Outcome,
    pub timestamp: u64,
}

/// The metrics of one finished session. `accuracy` is a whole percentage;
/// `std_dev_milli` and the WPM values in `wpm_coords` are in thousandths;
/// the first component of each curve point is a bucket in milliseconds.
#[derive(Clone, Debug)]
pub struct Results {
    pub wpm: u64,
    pub accuracy: u64,
    pub std_dev_milli: u64,
    pub wpm_coords: Vec<(u64, u64)>,
}

#[verifier::ext_equal]
pub ghost struct ResultsView {
    pub wpm: u64,
    pub accuracy: u64,
    pub std_dev_milli: u64,
    pub wpm_coords: Seq<(u64, u64)>,
}

impl View for Results {
    type V = ResultsView;

    open spec fn view(&self) -> ResultsView {
        ResultsView {
            wpm: self.wpm,
            accuracy: self.accuracy,
            std_dev_milli: self.std_dev_milli,
            wpm_coords: self.wpm_coords@,
        }
    }
}

pub open spec fn is_correct(i: Input) -> bool {
    i.outcome == Outcome::Correct
}

/// How many keystrokes of the log were correct at insertion time.
pub open spec fn correct_count(log: Seq<Input>) -> int
    decreases log.len(),
{
    if log.len() == 0 {
        0
    } else {
        correct_count(log.drop_last()) + if is_correct(log.last()) {
            1int
        } else {
            0int
        }
    }
}

/// The bucket a correct keystroke at `offset` ms after the start falls
/// into, for a session that lasted `elapsed` ms:
/// - an offset of zero, or inside the first second, goes to second one;
/// - an offset whose whole-second ceiling is within the last whole elapsed
///   second goes to that ceiling;
/// - a tail keystroke beyond the last whole second goes to the fractional
///   final bucket, the elapsed time itself.
pub open spec fn bucket_of(offset: int, elapsed: int) -> int {
    if offset == 0 {
        1000
    } else if offset < 1000 {
        1000
    } else if (offset + 999) / 1000 <= elapsed / 1000 {
        ((offset + 999) / 1000) * 1000
    } else {
        elapsed
    }
}

/// The buckets of the correct keystrokes of the log, in log order.
pub open spec fn bucket_seq(log: Seq<Input>, start: int, elapsed: int) -> Seq<u64>
    decreases log.len(),
{
    if log.len() == 0 {
        Seq::empty()
    } else {
        let rest = bucket_seq(log.drop_last(), start, elapsed);
        if is_correct(log.last()) {
            rest.push(bucket_of(log.last().timestamp - start, elapsed) as u64)
        } else {
            rest
        }
    }
}

/// Inserts one bucket value into a bucket-count list kept sorted by
/// bucket: an existing bucket's count grows by one, a new bucket enters
/// at its sorted position with count one.
pub open spec fn insert_bucket(pairs: Seq<(u64, u64)>, b: u64) -> Seq<(u64, u64)>
    decreases pairs.len(),
{
    if pairs.len() == 0 {
        seq![(b, 1u64)]
    } else if b < pairs[0].0 {
        seq![(b, 1u64)] + pairs
    } else if b == pairs[0].0 {
        seq![(pairs[0].0, (pairs[0].1 + 1) as u64)] + pairs.drop_first()
    } else {
        seq![pairs[0]] + insert_bucket(pairs.drop_first(), b)
    }
}

/// Groups a sequence of buckets into the sorted `(bucket, count)` list.
pub open spec fn grouped(bs: Seq<u64>) -> Seq<(u64, u64)>
    decreases bs.len(),
{
    if bs.len() == 0 {
        Seq::empty()
    } else {
        insert_bucket(grouped(bs.drop_last()), bs.last())
    }
}

/// The counts column of a bucket-count list.
pub open spec fn counts_of(pairs: Seq<(u64, u64)>) -> Seq<u64> {
    pairs.map_values(|p: (u64, u64)| p.1)
}

/// The cumulative WPM curve: at each bucket, the cumulative correct
/// characters so far converted to milli-WPM over that bucket's time,
/// (60000 / bucket_ms) * cum / 5 scaled by 1000, floored.
pub open spec fn curve_spec(pairs: Seq<(u64, u64)>) -> Seq<(u64, u64)>
    decreases pairs.len(),
{
    if pairs.len() == 0 {
        Seq::empty()
    } else {
        curve_spec(pairs.drop_last()).push(
            (
                pairs.last().0,
                (12_000_000 * sum_u64(counts_of(pairs)) / (pairs.last().0 as int)) as u64,
            ),
        )
    }
}

/// The final WPM: the exact value of the last curve point, rounded up.
pub open spec fn wpm_spec(pairs: Seq<(u64, u64)>) -> int {
    if pairs.len() == 0 {
        0
    } else {
        (12_000 * sum_u64(counts_of(pairs)) + pairs.last().0 - 1) / (pairs.last().0 as int)
    }
}

/// Accuracy as a whole percentage, rounded half-up; zero keystrokes give
/// zero rather than a division by zero.
pub open spec fn accuracy_spec(log: Seq<Input>) -> int {
    if log.len() == 0 {
        0
    } else {
        (200 * correct_count(log) + log.len()) / (2 * log.len() as int)
    }
}

/// What the engine computes from a log that started at `start` and was
/// frozen at `now`: the std-dev is taken over the per-second counts with
/// the final (possibly fractional) bucket left out.
pub open spec fn results_spec(log: Seq<Input>, start: int, now: int) -> ResultsView {
    let elapsed = now - start;
    let pairs = grouped(bucket_seq(log, start, elapsed));
    let std = if pairs.len() <= 1 {
        0int
    } else {
        std_dev_milli_spec(counts_of(pairs).drop_last())
    };
    ResultsView {
        wpm: wpm_spec(pairs) as u64,
        accuracy: accuracy_spec(log) as u64,
        std_dev_milli: std as u64,
        wpm_coords: curve_spec(pairs),
    }
}

pub proof fn lemma_log_take_succ(log: Seq<Input>, start: int, elapsed: int, i: int)
    requires
        0 <= i < log.len(),
    ensures
        bucket_seq(log.take(i + 1), start, elapsed) == if is_correct(log[i]) {
            bucket_seq(log.take(i), start, elapsed).push(
                bucket_of(log[i].timestamp - start, elapsed) as u64,
            )
        } else {
            bucket_seq(log.take(i), start, elapsed)
        },
        correct_count(log.take(i + 1)) == correct_count(log.take(i)) + if is_correct(log[i]) {
            1int
        } else {
            0int
        },
{
    assert(log.take(i + 1).drop_last() =~= log.take(i));
    assert(log.take(i + 1).last() == log[i]);
}

/// Inserting a bucket into a sorted bucket-count list whose first `j`
/// buckets are below `b` and whose `j`-th bucket (if any) is not: the
/// result is an in-place count increment or an insertion at `j`.
pub proof fn lemma_insert_bucket_split(pairs: Seq<(u64, u64)>, b: u64, j: int)
    requires
        0 <= j <= pairs.len(),
        forall|k: int| 0 <= k < j ==> (#[trigger] pairs[k]).0 < b,
        j < pairs.len() ==> pairs[j].0 >= b,
    ensures
        j < pairs.len() && pairs[j].0 == b ==> insert_bucket(pairs, b) == pairs.update(
            j,
            (b, (pairs[j].1 + 1) as u64),
        ),
        !(j < pairs.len() && pairs[j].0 == b) ==> insert_bucket(pairs, b) == pairs.insert(
            j,
            (b, 1u64),
        ),
    decreases j,
{
    if j == 0 {
        if pairs.len() == 0 {
            assert(insert_bucket(pairs, b) =~= pairs.insert(0, (b, 1u64)));
        } else if pairs[0].0 == b {
            assert(insert_bucket(pairs, b) =~= pairs.update(0, (b, (pairs[0].1 + 1) as u64)));
        } else {
            assert(insert_bucket(pairs, b) =~= pairs.insert(0, (b, 1u64)));
        }
    } else {
        let rest = pairs.drop_first();
        lemma_insert_bucket_split(rest, b, j - 1);
        assert(forall|k: int| 0 <= k < j - 1 ==> (#[trigger] rest[k]).0 < b);
        assert(insert_bucket(pairs, b) == seq![pairs[0]] + insert_bucket(rest, b));
        if j < pairs.len() && pairs[j].0 == b {
            assert(seq![pairs[0]] + rest.update(j - 1, (b, (pairs[j].1 + 1) as u64)) =~= pairs
                .update(j, (b, (pairs[j].1 + 1) as u64)));
        } else {
            assert(seq![pairs[0]] + rest.insert(j - 1, (b, 1u64)) =~= pairs.insert(j, (b, 1u64)));
        }
    }
}

/// Computes the metrics of a finished session from its frozen keystroke
/// log, the session start time, and the freeze time, all in milliseconds.
#[verifier::rlimit(60)]
pub fn calc_results(input: &Vec<Input>, started_at: u64, now: u64) -> (r: Results)
    requires
        input@.len() <= MAX_KEYSTROKES,
        started_at <= now,
        now - started_at <= MAX_ELAPSED_MS,
        forall|k: int|
            0 <= k < input@.len() ==> started_at <= (#[trigger] input@[k]).timestamp <= now,
    ensures
        r@ == results_spec(input@, started_at as int, now as int),
{
    let n = input.len();
    let elapsed: u64 = now - started_at;
    let ghost start_i = started_at as int;
    let ghost elapsed_i = elapsed as int;

    let mut pairs: Vec<(u64, u64)> = Vec::new();
    let mut c_count: u64 = 0;
    for i in 0..n
        invariant
            n == input@.len(),
            n <= MAX_KEYSTROKES,
            elapsed == now - started_at,
            elapsed <= MAX_ELAPSED_MS,
            started_at <= now,
            start_i == started_at as int,
            elapsed_i == elapsed as int,
            forall|k: int|
                0 <= k < input@.len() ==> started_at <= (#[trigger] input@[k]).timestamp <= now,
            pairs@ == grouped(bucket_seq(input@.take(i as int), start_i, elapsed_i)),
            c_count == correct_count(input@.take(i as int)),
            c_count <= i,
            sum_u64(counts_of(pairs@)) == c_count,
            pairs@.len() <= c_count,
            forall|k: int|
                0 <= k < pairs@.len() ==> 1000 <= (#[trigger] pairs@[k]).0 <= MAX_ELAPSED_MS + 999,
            forall|k: int| 0 <= k < pairs@.len() ==> 1 <= (#[trigger] pairs@[k]).1 <= i,
            forall|k1: int, k2: int|
                0 <= k1 < k2 < pairs@.len() ==> (#[trigger] pairs@[k1]).0 < (
                #[trigger] pairs@[k2]).0,
    {
        let inp = input[i];
        proof {
            lemma_log_take_succ(input@, start_i, elapsed_i, i as int);
        }
        if inp.outcome == Outcome::Correct {
            let off = inp.timestamp - started_at;
            let b: u64 = if off == 0 {
                1000
            } else if off < 1000 {
                1000
            } else if (off + 999) / 1000 <= elapsed / 1000 {
                ((off + 999) / 1000) * 1000
            } else {
                elapsed
            };
            assert(b as int == bucket_of(off as int, elapsed_i));
            assert(b >= 1000);
            proof {
                let bs = bucket_seq(input@.take(i as int), start_i, elapsed_i);
                assert(bs.push(b).drop_last() =~= bs);
                assert(bs.push(b).last() == b);
                assert(grouped(bs.push(b)) == insert_bucket(grouped(bs), b));
            }
            let ghost pairs_before = pairs@;
            let mut j: usize = 0;
            while j < pairs.len() && pairs[j].0 < b
                invariant
                    0 <= j <= pairs@.len(),
                    pairs@ == pairs_before,
                    forall|k: int| 0 <= k < j ==> (#[trigger] pairs@[k]).0 < b,
                decreases pairs@.len() - j,
            {
                j += 1;
            }
            proof {
                lemma_insert_bucket_split(pairs@, b, j as int);
            }
            if j < pairs.len() && pairs[j].0 == b {
                let c = pairs[j].1;
                pairs[j] = (b, c + 1);
                proof {
                    assert(counts_of(pairs@) =~= counts_of(pairs_before).update(
                        j as int,
                        (c + 1) as u64,
                    ));
                    crate::stats::lemma_sum_update(counts_of(pairs_before), j as int, (c + 1) as u64);
                }
            } else {
                pairs.insert(j, (b, 1));
                proof {
                    assert(counts_of(pairs@) =~= counts_of(pairs_before).insert(j as int, 1u64));
                    crate::stats::lemma_sum_insert(counts_of(pairs_before), j as int, 1u64);
                }
            }
            c_count = c_count + 1;
        }
    }
    proof {
        assert(input@.take(n as int) =~= input@);
    }
    let ghost gpairs = grouped(bucket_seq(input@, start_i, elapsed_i));
    assert(pairs@ == gpairs);

    // the per-second counts, with the final bucket left out of the
    // consistency metric
    let m = pairs.len();
    let mut counts: Vec<u64> = Vec::new();
    for k in 0..m
        invariant
            m == pairs@.len(),
            counts@ == counts_of(pairs@).take(k as int),
    {
        counts.push(pairs[k].1);
        proof {
            assert(counts_of(pairs@).take(k + 1) =~= counts_of(pairs@).take(k as int).push(
                pairs@[k as int].1,
            ));
        }
    }
    proof {
        assert(counts_of(pairs@).take(m as int) =~= counts_of(pairs@));
    }

    let std_dev_milli: u64 = if m <= 1 {
        0
    } else {
        let mut body = counts;
        body.pop();
        proof {
            assert(body@ =~= counts_of(pairs@).take(m - 1));
            assert(body@ =~= counts_of(pairs@).drop_last());
            lemma_sum_prefix_le(counts_of(pairs@), m - 1);
            lemma_sum_nonneg(body@);
            assert(body@.len() <= MAX_SAMPLES);
            assert(sum_u64(body@) <= MAX_TOTAL);
        }
        match std_dev(&body) {
            Some(sd) => sd,
            None => {
                proof {
                    assert(false);
                }
                0
            },
        }
    };

    // the cumulative WPM curve
    let mut curve: Vec<(u64, u64)> = Vec::new();
    let mut cum: u64 = 0;
    for k in 0..m
        invariant
            m == pairs@.len(),
            pairs@ == gpairs,
            curve@ == curve_spec(pairs@.take(k as int)),
            cum == sum_u64(counts_of(pairs@).take(k as int)),
            sum_u64(counts_of(pairs@)) <= MAX_TOTAL,
            forall|k2: int| 0 <= k2 < pairs@.len() ==> 1000 <= (#[trigger] pairs@[k2]).0,
    {
        let (b, c) = pairs[k];
        proof {
            lemma_sum_take_succ(counts_of(pairs@), k as int);
            lemma_sum_prefix_le(counts_of(pairs@), k + 1);
            lemma_sum_nonneg(counts_of(pairs@).take(k as int));
        }
        cum = cum + c;
        let w: u64 = 12_000_000u64 * cum / b;
        curve.push((b, w));
        proof {
            assert(pairs@.take(k + 1).drop_last() =~= pairs@.take(k as int));
            assert(counts_of(pairs@.take(k + 1)) =~= counts_of(pairs@).take(k + 1));
            assert(curve@ =~= curve_spec(pairs@.take(k + 1)));
        }
    }
    proof {
        assert(pairs@.take(m as int) =~= pairs@);
    }

    let wpm: u64 = if m == 0 {
        0
    } else {
        let lb = pairs[m - 1].0;
        (12_000u64 * cum + (lb - 1)) / lb
    };

    let accuracy: u64 = if n == 0 {
        0
    } else {
        proof {
            lemma_correct_count_bounds(input@);
        }
        (200u64 * c_count + n as u64) / (2 * n as u64)
    };

    let r = Results { wpm, accuracy, std_dev_milli, wpm_coords: curve };
    proof {
        assert(r@ =~= results_spec(input@, started_at as int, now as int));
    }
    r
}

pub proof fn lemma_correct_count_bounds(log: Seq<Input>)
    ensures
        0 <= correct_count(log) <= log.len(),
    decreases log.len(),
{
    if log.len() > 0 {
        lemma_correct_count_bounds(log.drop_last());
    }
}

/// A bucket-count list in strictly increasing bucket order.
pub open spec fn sorted_by_bucket(pairs: Seq<(u64, u64)>) -> bool {
    forall|k1: int, k2: int|
        0 <= k1 < k2 < pairs.len() ==> (#[trigger] pairs[k1]).0 < (#[trigger] pairs[k2]).0
}

/// Every bucket of `insert_bucket(s, b)` stays above a bound below both
/// `b` and all of `s`.
proof fn lemma_insert_bucket_lower(s: Seq<(u64, u64)>, b: u64, x: u64)
    requires
        x < b,
        forall|j: int| 0 <= j < s.len() ==> x < (#[trigger] s[j]).0,
    ensures
        forall|k: int|
            0 <= k < insert_bucket(s, b).len() ==> x < (#[trigger] insert_bucket(s, b)[k]).0,
    decreases s.len(),
{
    let r = insert_bucket(s, b);
    if s.len() == 0 {
        assert(r =~= seq![(b, 1u64)]);
    } else if b < s[0].0 {
        assert forall|k: int| 0 <= k < r.len() implies x < (#[trigger] r[k]).0 by {
            if k > 0 {
                assert(r[k] == s[k - 1]);
            }
        }
    } else if b == s[0].0 {
        assert forall|k: int| 0 <= k < r.len() implies x < (#[trigger] r[k]).0 by {
            if k > 0 {
                assert(r[k] == s[k]);
            }
        }
    } else {
        lemma_insert_bucket_lower(s.drop_first(), b, x);
        assert forall|k: int| 0 <= k < r.len() implies x < (#[trigger] r[k]).0 by {
            if k > 0 {
                assert(r[k] == insert_bucket(s.drop_first(), b)[k - 1]);
            }
        }
    }
}

/// Inserting into a sorted bucket-count list keeps it sorted.
proof fn lemma_insert_bucket_sorted(s: Seq<(u64, u64)>, b: u64)
    requires
        sorted_by_bucket(s),
    ensures
        sorted_by_bucket(insert_bucket(s, b)),
    decreases s.len(),
{
    if s.len() == 0 {
    } else if b < s[0].0 {
        let r = seq![(b, 1u64)] + s;
        assert forall|k1: int, k2: int| 0 <= k1 < k2 < r.len() implies (#[trigger] r[k1]).0 < (
        #[trigger] r[k2]).0 by {
            if k1 > 0 {
                assert(s[k1 - 1].0 < s[k2 - 1].0);
            } else if k2 > 1 {
                assert(s[0].0 < s[k2 - 1].0);
            }
        }
    } else if b == s[0].0 {
        let r = seq![(s[0].0, (s[0].1 + 1) as u64)] + s.drop_first();
        assert forall|k1: int, k2: int| 0 <= k1 < k2 < r.len() implies (#[trigger] r[k1]).0 < (
        #[trigger] r[k2]).0 by {
            assert(r[k1].0 == s[k1].0 && r[k2].0 == s[k2].0);
        }
    } else {
        let rest = s.drop_first();
        lemma_insert_bucket_sorted(rest, b);
        lemma_insert_bucket_lower(rest, b, s[0].0);
        let r = seq![s[0]] + insert_bucket(rest, b);
        assert forall|k1: int, k2: int| 0 <= k1 < k2 < r.len() implies (#[trigger] r[k1]).0 < (
        #[trigger] r[k2]).0 by {
            if k1 > 0 {
                assert(insert_bucket(rest, b)[k1 - 1].0 < insert_bucket(rest, b)[k2 - 1].0);
            }
        }
    }
}

/// The grouped bucket-count list is sorted by bucket.
pub proof fn lemma_grouped_sorted(bs: Seq<u64>)
    ensures
        sorted_by_bucket(grouped(bs)),
    decreases bs.len(),
{
    if bs.len() > 0 {
        lemma_grouped_sorted(bs.drop_last());
        lemma_insert_bucket_sorted(grouped(bs.drop_last()), bs.last());
    }
}

pub proof fn lemma_sum_singleton(v: u64)
    ensures
        sum_u64(seq![v]) == v,
{
    assert(seq![v].drop_last() =~= Seq::<u64>::empty());
    assert(seq![v].last() == v);
    assert(sum_u64(Seq::<u64>::empty()) == 0);
}

pub proof fn lemma_sum_append(s: Seq<u64>, t: Seq<u64>)
    ensures
        sum_u64(s + t) == sum_u64(s) + sum_u64(t),
    decreases t.len(),
{
    if t.len() == 0 {
        assert(s + t =~= s);
    } else {
        assert((s + t).drop_last() =~= s + t.drop_last());
        assert((s + t).last() == t.last());
        lemma_sum_append(s, t.drop_last());
    }
}

/// Inserting one bucket raises the total count by exactly one, as long
/// as no count can wrap around.
proof fn lemma_insert_bucket_total(s: Seq<(u64, u64)>, b: u64, m: u64)
    requires
        m < u64::MAX,
        forall|j: int| 0 <= j < s.len() ==> (#[trigger] s[j]).1 <= m,
    ensures
        sum_u64(counts_of(insert_bucket(s, b))) == sum_u64(counts_of(s)) + 1,
        forall|k: int|
            0 <= k < insert_bucket(s, b).len() ==> (#[trigger] insert_bucket(s, b)[k]).1 <= m + 1,
    decreases s.len(),
{
    if s.len() == 0 {
        assert(counts_of(insert_bucket(s, b)) =~= seq![1u64]);
        assert(counts_of(s) =~= Seq::<u64>::empty());
        lemma_sum_singleton(1u64);
    } else if b < s[0].0 {
        assert(counts_of(seq![(b, 1u64)] + s) =~= seq![1u64] + counts_of(s));
        lemma_sum_append(seq![1u64], counts_of(s));
        lemma_sum_singleton(1u64);
    } else if b == s[0].0 {
        let c2 = (s[0].1 + 1) as u64;
        assert(counts_of(seq![(s[0].0, c2)] + s.drop_first()) =~= seq![c2] + counts_of(
            s.drop_first(),
        ));
        assert(counts_of(s) =~= seq![s[0].1] + counts_of(s.drop_first()));
        lemma_sum_append(seq![c2], counts_of(s.drop_first()));
        lemma_sum_append(seq![s[0].1], counts_of(s.drop_first()));
        lemma_sum_singleton(c2);
        lemma_sum_singleton(s[0].1);
    } else {
        let rest = s.drop_first();
        lemma_insert_bucket_total(rest, b, m);
        assert(counts_of(seq![s[0]] + insert_bucket(rest, b)) =~= seq![s[0].1] + counts_of(
            insert_bucket(rest, b),
        ));
        assert(counts_of(s) =~= seq![s[0].1] + counts_of(rest));
        lemma_sum_append(seq![s[0].1], counts_of(insert_bucket(rest, b)));
        lemma_sum_append(seq![s[0].1], counts_of(rest));
        lemma_sum_singleton(s[0].1);
    }
}

/// Grouping conserves the keystrokes: the bucket counts sum to the
/// number of buckets grouped, so every correct keystroke lands in
/// exactly one bucket; and no single bucket can count more than all of
/// them.
pub proof fn lemma_grouped_total(bs: Seq<u64>)
    requires
        bs.len() < u64::MAX,
    ensures
        sum_u64(counts_of(grouped(bs))) == bs.len(),
        forall|k: int|
            0 <= k < grouped(bs).len() ==> (#[trigger] grouped(bs)[k]).1 <= bs.len(),
    decreases bs.len(),
{
    if bs.len() == 0 {
        assert(counts_of(grouped(bs)) =~= Seq::<u64>::empty());
    } else {
        lemma_grouped_total(bs.drop_last());
        lemma_insert_bucket_total(
            grouped(bs.drop_last()),
            bs.last(),
            (bs.len() - 1) as u64,
        );
    }
}

/// The curve carries the buckets through in order.
proof fn lemma_curve_firsts(pairs: Seq<(u64, u64)>)
    ensures
        curve_spec(pairs).len() == pairs.len(),
        forall|k: int|
            0 <= k < pairs.len() ==> (#[trigger] curve_spec(pairs)[k]).0 == pairs[k].0,
    decreases pairs.len(),
{
    if pairs.len() > 0 {
        lemma_curve_firsts(pairs.drop_last());
    }
}

/// The WPM curve of any session is sorted: its points stand in strictly
/// increasing bucket order, one per occupied second, with every correct
/// keystroke counted in exactly one of them.
pub proof fn lemma_curve_shape(log: Seq<Input>, start: int, now: int)
    requires
        log.len() < u64::MAX,
    ensures
        forall|k1: int, k2: int|
            0 <= k1 < k2 < results_spec(log, start, now).wpm_coords.len() ==> (
            #[trigger] results_spec(log, start, now).wpm_coords[k1]).0 < (
            #[trigger] results_spec(log, start, now).wpm_coords[k2]).0,
        sum_u64(counts_of(grouped(bucket_seq(log, start, now - start)))) == correct_count(log),
{
    let bs = bucket_seq(log, start, now - start);
    let pairs = grouped(bs);
    lemma_bucket_seq_len(log, start, now - start);
    lemma_correct_count_bounds(log);
    lemma_grouped_sorted(bs);
    lemma_grouped_total(bs);
    lemma_curve_firsts(pairs);
}

/// The accuracy of any log is a percentage: round(100 * correct / total)
/// always lies in [0, 100].
pub proof fn lemma_accuracy_range(log: Seq<Input>)
    ensures
        0 <= accuracy_spec(log) <= 100,
{
    if log.len() > 0 {
        lemma_correct_count_bounds(log);
        let c = correct_count(log);
        let t = log.len() as int;
        vstd::arithmetic::div_mod::lemma_div_pos_is_pos(200 * c + t, 2 * t);
        vstd::arithmetic::div_mod::lemma_div_is_ordered(200 * c + t, 2 * t * 100 + t, 2 * t);
        vstd::arithmetic::div_mod::lemma_div_multiples_vanish_fancy(100, t, 2 * t);
    }
}

/// There are as many buckets as correct keystrokes.
pub proof fn lemma_bucket_seq_len(log: Seq<Input>, start: int, elapsed: int)
    ensures
        bucket_seq(log, start, elapsed).len() == correct_count(log),
    decreases log.len(),
{
    if log.len() > 0 {
        lemma_bucket_seq_len(log.drop_last(), start, elapsed);
        lemma_correct_count_bounds(log.drop_last());
    }
}

/// With no correct keystroke on record, the WPM curve is empty and both
/// the final WPM and the consistency metric are zero.
pub proof fn lemma_zero_correct(log: Seq<Input>, start: int, now: int)
    requires
        correct_count(log) == 0,
    ensures
        results_spec(log, start, now).wpm == 0,
        results_spec(log, start, now).wpm_coords.len() == 0,
        results_spec(log, start, now).std_dev_milli == 0,
{
    lemma_bucket_seq_len(log, start, now - start);
    assert(bucket_seq(log, start, now - start) =~= Seq::<u64>::empty());
}

/// When every correct keystroke is at the starting instant, each of them
/// buckets into second one.
proof fn lemma_zero_offset_buckets(log: Seq<Input>, start: int, elapsed: int)
    requires
        forall|k: int|
            0 <= k < log.len() && is_correct(#[trigger] log[k]) ==> log[k].timestamp == start,
    ensures
        bucket_seq(log, start, elapsed) =~= Seq::new(
            correct_count(log) as nat,
            |i: int| 1000u64,
        ),
    decreases log.len(),
{
    if log.len() > 0 {
        lemma_zero_offset_buckets(log.drop_last(), start, elapsed);
        lemma_correct_count_bounds(log.drop_last());
        lemma_correct_count_bounds(log);
    }
}

/// A log with a single correct keystroke, typed at the starting instant,
/// buckets into second one and yields a one-point curve: 1 correct
/// character over 1 second is 12 WPM.
pub proof fn lemma_single_zero_offset(log: Seq<Input>, start: int, now: int)
    requires
        correct_count(log) == 1,
        forall|k: int|
            0 <= k < log.len() && is_correct(#[trigger] log[k]) ==> log[k].timestamp == start,
    ensures
        bucket_seq(log, start, now - start) =~= seq![1000u64],
        results_spec(log, start, now).wpm_coords =~= seq![(1000u64, 12000u64)],
        results_spec(log, start, now).wpm == 12,
        results_spec(log, start, now).std_dev_milli == 0,
{
    lemma_zero_offset_buckets(log, start, now - start);
    let bs = bucket_seq(log, start, now - start);
    assert(bs =~= seq![1000u64]);
    assert(bs.len() == 1 && bs.last() == 1000u64);
    assert(bs.drop_last() =~= Seq::<u64>::empty());
    let pairs = grouped(bs);
    assert(grouped(Seq::<u64>::empty()) == Seq::<(u64, u64)>::empty());
    assert(pairs == insert_bucket(Seq::<(u64, u64)>::empty(), 1000u64));
    assert(pairs =~= seq![(1000u64, 1u64)]);
    assert(counts_of(pairs) =~= seq![1u64]);
    assert(counts_of(pairs).drop_last() =~= Seq::<u64>::empty());
    let one = counts_of(pairs);
    assert(one.drop_last() =~= Seq::<u64>::empty());
    assert(sum_u64(one.drop_last()) == 0);
    assert(one.last() == 1u64);
    assert(sum_u64(one) == 1);
    assert(pairs.drop_last() =~= Seq::<(u64, u64)>::empty());
    assert(curve_spec(pairs.drop_last()) == Seq::<(u64, u64)>::empty());
    assert(curve_spec(pairs) =~= seq![(1000u64, 12000u64)]);
    assert(wpm_spec(pairs) == (12_000 + 999) / 1000);
}

} // verus!
