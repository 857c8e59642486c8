//! Samples, their binarization into levels, and run-length encoding.
use vstd::prelude::*;

verus! {

/// The binarized state of one sample.
#[derive(Clone, Copy, Debug, PartialEq, Eq, Structural)]
pub enum Level {
    Active,
    Idle,
}

/// The level a sample value is classified as: `Active` exactly when
/// `sample / 256 > 0.7`, i.e. `10 * sample > 7 * 256`.
pub open spec fn level_of_sample(sample: int) -> Level {
    if 10 * sample > 7 * 256 {
        Level::Active
    } else {
        Level::Idle
    }
}

impl Level {
    /// Classifies one raw sample against the fixed bias (strictly above
    /// 70% of full scale is `Active`).
    pub fn from_sample(sample: i32) -> (r: Level)
        ensures
            r == level_of_sample(sample as int),
    {
        if (sample as i64) * 10 > 7 * 256 {
            Level::Active
        } else {
            Level::Idle
        }
    }
}

/// An ASCII decimal digit.
pub open spec fn is_digit(c: char) -> bool {
    '0' <= c <= '9'
}

/// One or more decimal digits and nothing else.
pub open spec fn all_digits(s: Seq<char>) -> bool {
    s.len() > 0 && forall|i: int| 0 <= i < s.len() ==> is_digit(#[trigger] s[i])
}

/// The number that a string of decimal digits spells.
pub open spec fn digits_value(s: Seq<char>) -> int
    decreases s.len(),
{
    if s.len() == 0 {
        0
    } else {
        10 * digits_value(s.drop_last()) + (s.last() as int - '0' as int)
    }
}

/// The integer a line spells: an optional `+` or `-`, then one or more
/// decimal digits and nothing else.
pub open spec fn integer_of(s: Seq<char>) -> Option<int> {
    if s.len() > 0 && s[0] == '-' && all_digits(s.drop_first()) {
        Some(-digits_value(s.drop_first()))
    } else if s.len() > 0 && s[0] == '+' && all_digits(s.drop_first()) {
        Some(digits_value(s.drop_first()))
    } else if all_digits(s) {
        Some(digits_value(s))
    } else {
        None
    }
}

/// The sample a line holds: its integer, where that fits in an `i32`.
pub open spec fn sample_of(s: Seq<char>) -> Option<i32> {
    match integer_of(s) {
        Some(v) => if i32::MIN <= v <= i32::MAX {
            Some(v as i32)
        } else {
            None
        },
        None => None,
    }
}

/// A value just above every `i32` magnitude: digit accumulation stops
/// growing there.
const MAGNITUDE_CAP: i64 = 2147483649;

proof fn lemma_digits_value_nonneg(s: Seq<char>)
    requires
        forall|i: int| 0 <= i < s.len() ==> is_digit(#[trigger] s[i]),
    ensures
        digits_value(s) >= 0,
    decreases s.len(),
{
    if s.len() > 0 {
        lemma_digits_value_nonneg(s.drop_last());
    }
}

/// Reads the decimal digits of `s` from index `from` on, stopping at the
/// first non-digit. Returns whether all of them were digits (and there was
/// at least one) and their value, capped at `MAGNITUDE_CAP`.
fn read_digits(s: &str, from: usize) -> (r: (bool, i64))
    requires
        from <= s@.len(),
    ensures
        0 <= r.1 <= MAGNITUDE_CAP,
        r.0 == all_digits(s@.subrange(from as int, s@.len() as int)),
        r.0 ==> r.1 == if digits_value(s@.subrange(from as int, s@.len() as int)) < MAGNITUDE_CAP {
            digits_value(s@.subrange(from as int, s@.len() as int))
        } else {
            MAGNITUDE_CAP as int
        },
{
    let n = s.unicode_len();
    if from >= n {
        return (false, 0);
    }
    let mut acc: i64 = 0;
    let mut i: usize = from;
    while i < n
        invariant
            n == s@.len(),
            from <= i <= n,
            0 <= acc <= MAGNITUDE_CAP,
            forall|j: int| from <= j < i ==> is_digit(#[trigger] s@[j]),
            acc == if digits_value(s@.subrange(from as int, i as int)) < MAGNITUDE_CAP {
                digits_value(s@.subrange(from as int, i as int))
            } else {
                MAGNITUDE_CAP as int
            },
        decreases n - i,
    {
        let c = s.get_char(i);
        if !('0' <= c && c <= '9') {
            assert(!is_digit(s@.subrange(from as int, n as int)[i - from]));
            return (false, 0);
        }
        let ghost prefix = s@.subrange(from as int, i as int);
        let ghost next = s@.subrange(from as int, i + 1);
        proof {
            assert(next.drop_last() =~= prefix);
            lemma_digits_value_nonneg(prefix);
        }
        let d = (c as u32 - '0' as u32) as i64;
        if acc < MAGNITUDE_CAP {
            let v = 10 * acc + d;
            acc = if v < MAGNITUDE_CAP { v } else { MAGNITUDE_CAP };
        }
        i = i + 1;
    }
    assert(forall|j: int| 0 <= j < n - from ==> #[trigger] s@.subrange(from as int, n as int)[j] == s@[from + j]);
    (true, acc)
}

/// Reads one line as a sample: an optional sign and decimal digits that
/// fit in an `i32`; any other line holds no sample.
pub fn parse_sample(line: &str) -> (r: Option<i32>)
    ensures
        r == sample_of(line@),
{
    let n = line.unicode_len();
    if n == 0 {
        return None;
    }
    let first = line.get_char(0);
    let negative = first == '-';
    let from: usize = if first == '-' || first == '+' { 1 } else { 0 };
    let (ok, magnitude) = read_digits(line, from);
    proof {
        assert(line@.drop_first() =~= line@.subrange(1, n as int));
        assert(line@ =~= line@.subrange(0, n as int));
        if first == '-' || first == '+' {
            assert(!is_digit(line@[0]));
        }
    }
    if !ok {
        return None;
    }
    if negative {
        if magnitude <= 2147483648 {
            Some((-magnitude) as i32)
        } else {
            None
        }
    } else {
        if magnitude <= 2147483647 {
            Some(magnitude as i32)
        } else {
            None
        }
    }
}

/// The levels of the samples that a sequence of lines holds, in order;
/// lines that hold no sample are skipped.
pub open spec fn levels_of_lines(lines: Seq<String>) -> Seq<Level>
    decreases lines.len(),
{
    if lines.len() == 0 {
        Seq::empty()
    } else {
        let prev = levels_of_lines(lines.drop_last());
        match sample_of(lines.last()@) {
            Some(v) => prev.push(level_of_sample(v as int)),
            None => prev,
        }
    }
}

/// Binarizes the sample of every line that holds one, dropping the others.
pub fn quantize_lines(lines: &Vec<String>) -> (r: Vec<Level>)
    ensures
        r@ == levels_of_lines(lines@),
{
    let mut result: Vec<Level> = Vec::new();
    let n = lines.len();
    let mut i: usize = 0;
    while i < n
        invariant
            n == lines@.len(),
            i <= n,
            result@ == levels_of_lines(lines@.take(i as int)),
        decreases n - i,
    {
        proof {
            assert(lines@.take(i as int + 1).drop_last() =~= lines@.take(i as int));
        }
        match parse_sample(lines[i].as_str()) {
            Some(v) => result.push(Level::from_sample(v)),
            None => {},
        }
        i = i + 1;
    }
    assert(lines@.take(n as int) =~= lines@);
    result
}

/// A maximal block of consecutive equal levels and how many samples it spans.
#[derive(Clone, Copy, Debug, PartialEq, Eq, Structural)]
pub struct Run {
    pub level: Level,
    pub length: usize,
}

/// The bias cut lies between 179 and 180: every sample up to 179 is idle and
/// every sample from 180 on is active.
pub proof fn lemma_bias_boundary(sample: int)
    ensures
        sample <= 179 ==> level_of_sample(sample) == Level::Idle,
        sample >= 180 ==> level_of_sample(sample) == Level::Active,
{
}

/// The run-length encoding of a level sequence: each level either lengthens
/// the last run, when it has the same level, or starts a run of one.
pub open spec fn runs_of(levels: Seq<Level>) -> Seq<Run>
    decreases levels.len(),
{
    if levels.len() == 0 {
        Seq::empty()
    } else {
        let prev = runs_of(levels.drop_last());
        let x = levels.last();
        if prev.len() > 0 && prev.last().level == x {
            prev.update(prev.len() - 1, Run { level: x, length: (prev.last().length + 1) as usize })
        } else {
            prev.push(Run { level: x, length: 1 })
        }
    }
}

/// The levels that a run sequence stands for: each run repeated as often as
/// its length, in order.
pub open spec fn expand(runs: Seq<Run>) -> Seq<Level>
    decreases runs.len(),
{
    if runs.len() == 0 {
        Seq::empty()
    } else {
        expand(runs.drop_last()) + Seq::new(runs.last().length as nat, |_i: int| runs.last().level)
    }
}

/// No two adjacent runs share a level.
pub open spec fn alternating(runs: Seq<Run>) -> bool {
    forall|i: int, j: int| 0 <= i && j == i + 1 && j < runs.len() ==> #[trigger] runs[i].level != #[trigger] runs[j].level
}

/// Every run spans at least one sample.
pub open spec fn nonempty_runs(runs: Seq<Run>) -> bool {
    forall|i: int| 0 <= i < runs.len() ==> #[trigger] runs[i].length >= 1
}

proof fn lemma_runs_of_lengths(levels: Seq<Level>)
    requires
        levels.len() <= usize::MAX,
    ensures
        forall|i: int|
            0 <= i < runs_of(levels).len() ==> 1 <= #[trigger] runs_of(levels)[i].length <= levels.len(),
        levels.len() > 0 ==> runs_of(levels).len() > 0,
    decreases levels.len(),
{
    if levels.len() > 0 {
        lemma_runs_of_lengths(levels.drop_last());
    }
}

proof fn lemma_expand_lengthen_last(prev: Seq<Run>, x: Level)
    requires
        prev.len() > 0,
        prev.last().level == x,
        prev.last().length < usize::MAX,
    ensures
        expand(prev.update(prev.len() - 1, Run { level: x, length: (prev.last().length + 1) as usize }))
            == expand(prev).push(x),
{
    let last = prev.last();
    let runs = prev.update(prev.len() - 1, Run { level: x, length: (last.length + 1) as usize });
    assert(runs.drop_last() =~= prev.drop_last());
    assert(Seq::new((last.length + 1) as nat, |_i: int| x) =~= Seq::new(last.length as nat, |_i: int| x).push(x));
    assert(expand(runs) =~= expand(prev).push(x));
}

proof fn lemma_expand_push(prev: Seq<Run>, x: Level)
    ensures
        expand(prev.push(Run { level: x, length: 1 })) == expand(prev).push(x),
{
    let runs = prev.push(Run { level: x, length: 1 });
    assert(runs.drop_last() =~= prev);
    assert(expand(runs) =~= expand(prev).push(x));
}

proof fn lemma_runs_of_alternating(levels: Seq<Level>)
    ensures
        alternating(runs_of(levels)),
    decreases levels.len(),
{
    if levels.len() > 0 {
        let init = levels.drop_last();
        let prev = runs_of(init);
        let x = levels.last();
        lemma_runs_of_alternating(init);
        let runs = runs_of(levels);
        if prev.len() > 0 && prev.last().level == x {
            let merged = prev.update(prev.len() - 1, Run { level: x, length: (prev.last().length + 1) as usize });
            assert(runs == merged);
            assert forall|i: int, j: int| 0 <= i && j == i + 1 && j < merged.len() implies #[trigger] merged[i].level != #[trigger] merged[j].level by {
                assert(prev[i].level != prev[j].level);
            }
        } else {
            let pushed = prev.push(Run { level: x, length: 1 });
            assert(runs == pushed);
            assert forall|i: int, j: int| 0 <= i && j == i + 1 && j < pushed.len() implies #[trigger] pushed[i].level != #[trigger] pushed[j].level by {
                if j < prev.len() {
                    assert(prev[i].level != prev[j].level);
                }
            }
        }
    }
}

proof fn lemma_runs_of_expand(levels: Seq<Level>)
    requires
        levels.len() <= usize::MAX,
    ensures
        expand(runs_of(levels)) == levels,
    decreases levels.len(),
{
    if levels.len() > 0 {
        let init = levels.drop_last();
        let prev = runs_of(init);
        let x = levels.last();
        lemma_runs_of_expand(init);
        lemma_runs_of_lengths(init);
        if prev.len() > 0 && prev.last().level == x {
            lemma_expand_lengthen_last(prev, x);
        } else {
            lemma_expand_push(prev, x);
        }
        assert(levels =~= init.push(x));
    }
}

/// Run-length encoding loses nothing: expanding the runs of a level
/// sequence gives the sequence back, every run spans at least one level, and
/// adjacent runs differ in level.
pub proof fn lemma_run_encoding_round_trip(levels: Seq<Level>)
    requires
        levels.len() <= usize::MAX,
    ensures
        expand(runs_of(levels)) == levels,
        alternating(runs_of(levels)),
        nonempty_runs(runs_of(levels)),
{
    lemma_runs_of_lengths(levels);
    lemma_runs_of_alternating(levels);
    lemma_runs_of_expand(levels);
}

/// Collapses consecutive equal levels into runs, counting each run's
/// samples.
pub fn group(levels: Vec<Level>) -> (r: Vec<Run>)
    ensures
        r@ == runs_of(levels@),
{
    let mut result: Vec<Run> = Vec::new();
    let n = levels.len();
    let mut i: usize = 0;
    while i < n
        invariant
            n == levels@.len(),
            i <= n,
            result@ == runs_of(levels@.take(i as int)),
        decreases n - i,
    {
        let x = levels[i];
        proof {
            lemma_runs_of_lengths(levels@.take(i as int));
            assert(levels@.take(i as int + 1).drop_last() =~= levels@.take(i as int));
        }
        let k = result.len();
        if k > 0 && result[k - 1].level == x {
            let len = result[k - 1].length;
            result.set(k - 1, Run { level: x, length: len + 1 });
        } else {
            result.push(Run { level: x, length: 1 });
        }
        i = i + 1;
    }
    assert(levels@.take(n as int) =~= levels@);
    result
}

} // verus!
