//! The typing-session state machine: a prompt, an insertion-ordered
//! keystroke log, a cursor, the start instant, an optional countdown for
//! timed mode, and the metrics computed once the session finishes.
//!
//! Every mutation is specified as a pure transition on the session's
//! mathematical view, so properties of operation sequences can be stated
//! and proved at the spec level.

use vstd::prelude::*;

use crate::results::{
    calc_results, results_spec, Input, Outcome, Results, ResultsView, MAX_ELAPSED_MS,
    MAX_KEYSTROKES,
};

verus! {

/// Sum of a sequence of line lengths.
pub open spec fn sum_usize(s: Seq<usize>) -> int
    decreases s.len(),
{
    if s.len() == 0 {
        0
    } else {
        sum_usize(s.drop_last()) + s.last()
    }
}

pub proof fn lemma_sum_usize_take_succ(s: Seq<usize>, i: int)
    requires
        0 <= i < s.len(),
    ensures
        sum_usize(s.take(i + 1)) == sum_usize(s.take(i)) + s[i],
{
    assert(s.take(i + 1).drop_last() =~= s.take(i));
    assert(s.take(i + 1).last() == s[i]);
}

pub proof fn lemma_sum_usize_nonneg(s: Seq<usize>)
    ensures
        sum_usize(s) >= 0,
    decreases s.len(),
{
    if s.len() > 0 {
        lemma_sum_usize_nonneg(s.drop_last());
    }
}

pub proof fn lemma_sum_usize_prefix_le(s: Seq<usize>, i: int)
    requires
        0 <= i <= s.len(),
    ensures
        sum_usize(s.take(i)) <= sum_usize(s),
    decreases s.len() - i,
{
    if i == s.len() {
        assert(s.take(i) =~= s);
    } else {
        lemma_sum_usize_take_succ(s, i);
        lemma_sum_usize_prefix_le(s, i + 1);
    }
}

/// Whether `x` is one of the recorded line endpoints.
pub open spec fn has_endpoint(s: Seq<usize>, x: usize) -> bool {
    exists|k: int| 0 <= k < s.len() && s[k] == x
}

/// Inserts `x` into a sorted duplicate-free sequence, keeping it a set.
pub open spec fn set_insert(s: Seq<usize>, x: usize) -> Seq<usize>
    decreases s.len(),
{
    if s.len() == 0 {
        seq![x]
    } else if x < s[0] {
        seq![x] + s
    } else if x == s[0] {
        s
    } else {
        seq![s[0]] + set_insert(s.drop_first(), x)
    }
}

/// Removes the first occurrence of `x`, if any.
pub open spec fn set_remove(s: Seq<usize>, x: usize) -> Seq<usize>
    decreases s.len(),
{
    if s.len() == 0 {
        s
    } else if x == s[0] {
        s.drop_first()
    } else {
        seq![s[0]] + set_remove(s.drop_first(), x)
    }
}

/// `set_insert` seen at the split position a left-to-right scan finds.
pub proof fn lemma_set_insert_split(s: Seq<usize>, x: usize, j: int)
    requires
        0 <= j <= s.len(),
        forall|k: int| 0 <= k < j ==> s[k] < x,
        j < s.len() ==> s[j] >= x,
    ensures
        j < s.len() && s[j] == x ==> set_insert(s, x) == s,
        !(j < s.len() && s[j] == x) ==> set_insert(s, x) == s.insert(j, x),
    decreases j,
{
    if j == 0 {
        if s.len() == 0 || s[0] > x {
            assert(set_insert(s, x) =~= s.insert(0, x));
        }
    } else {
        let rest = s.drop_first();
        lemma_set_insert_split(rest, x, j - 1);
        assert(set_insert(s, x) == seq![s[0]] + set_insert(rest, x));
        if j < s.len() && s[j] == x {
            assert(seq![s[0]] + rest =~= s);
        } else {
            assert(seq![s[0]] + rest.insert(j - 1, x) =~= s.insert(j, x));
        }
    }
}

/// `set_remove` seen at the split position a left-to-right scan finds.
pub proof fn lemma_set_remove_split(s: Seq<usize>, x: usize, j: int)
    requires
        0 <= j <= s.len(),
        forall|k: int| 0 <= k < j ==> s[k] != x,
        j < s.len() ==> s[j] == x,
    ensures
        j < s.len() ==> set_remove(s, x) == s.remove(j),
        j == s.len() ==> set_remove(s, x) == s,
    decreases j,
{
    if j == 0 {
    } else {
        let rest = s.drop_first();
        lemma_set_remove_split(rest, x, j - 1);
        assert(set_remove(s, x) == seq![s[0]] + set_remove(rest, x));
        if j < s.len() {
            assert(seq![s[0]] + rest.remove(j - 1) =~= s.remove(j));
        } else {
            assert(seq![s[0]] + rest =~= s);
        }
    }
}

/// The index of the first space at or after `from`, or the prompt's end.
pub open spec fn next_space(prompt: Seq<char>, from: int) -> int
    decreases prompt.len() - from,
{
    if from < 0 || from >= prompt.len() {
        prompt.len() as int
    } else if prompt[from] == ' ' {
        from
    } else {
        next_space(prompt, from + 1)
    }
}

/// The mathematical state of a session.
#[verifier::ext_equal]
pub ghost struct SessionView {
    pub prompt: Seq<char>,
    pub input: Seq<Input>,
    pub cursor_pos: usize,
    pub started_at: Option<u64>,
    pub time_limit_ms: Option<u64>,
    pub time_remaining_ms: Option<i64>,
    pub number_of_words: usize,
    pub death_mode: bool,
    pub results: Option<ResultsView>,
    pub line_lengths: Seq<usize>,
    pub total_line_length: usize,
    pub skip_curr: usize,
    pub current_line: usize,
    pub endpoints: Seq<usize>,
}

impl SessionView {
    /// The session invariant: the cursor stays inside the log, the log
    /// never outgrows the prompt, the start instant exists from the first
    /// keystroke on and precedes every recorded timestamp, the countdown
    /// exists exactly in timed mode, and the line-scroll bookkeeping is
    /// consistent (the line counter counts the recorded lines, the running
    /// totals are the line-length sums, and the endpoints form a sorted
    /// set no larger than the set of lines).
    pub open spec fn wf(self) -> bool {
        &&& self.prompt.len() <= usize::MAX
        &&& self.cursor_pos <= self.input.len()
        &&& self.input.len() <= self.prompt.len()
        &&& (self.started_at is None ==> self.input.len() == 0)
        &&& (self.started_at matches Some(t0) ==> forall|k: int|
            0 <= k < self.input.len() ==> (#[trigger] self.input[k]).timestamp >= t0)
        &&& (self.time_remaining_ms is Some <==> self.time_limit_ms is Some)
        &&& self.current_line == self.line_lengths.len()
        &&& self.total_line_length == sum_usize(self.line_lengths)
        &&& (self.current_line >= 1 ==> self.skip_curr == sum_usize(
            self.line_lengths.take(self.current_line - 1),
        ))
        &&& (self.current_line == 0 ==> self.skip_curr == 0)
        &&& self.endpoints.len() <= self.line_lengths.len()
        &&& forall|k1: int, k2: int|
            0 <= k1 < k2 < self.endpoints.len() ==> self.endpoints[k1] < self.endpoints[k2]
    }
}

/// A session is finished when the log has filled the prompt, when a timed
/// session's countdown has run out, or, in death mode, when any recorded
/// keystroke was incorrect.
pub open spec fn spec_finished(v: SessionView) -> bool {
    ||| v.input.len() == v.prompt.len()
    ||| (v.time_remaining_ms matches Some(t) && t <= 0)
    ||| (v.death_mode && exists|k: int|
        0 <= k < v.input.len() && (#[trigger] v.input[k]).outcome == Outcome::Incorrect)
}

/// The outcome a keystroke receives: it is compared against the prompt
/// character at the insertion index, the current log length.
pub open spec fn spec_outcome(v: SessionView, c: char) -> Outcome {
    if v.input.len() < v.prompt.len() && c == v.prompt[v.input.len() as int] {
        Outcome::Correct
    } else {
        Outcome::Incorrect
    }
}

/// Writing a character: the first keystroke starts the clock; the record
/// is inserted at the cursor and the cursor advances.
pub open spec fn spec_write(v: SessionView, c: char, now_ms: u64) -> SessionView {
    let rec = Input { char: c, outcome: spec_outcome(v, c), timestamp: now_ms };
    SessionView {
        input: v.input.insert(v.cursor_pos as int, rec),
        cursor_pos: (v.cursor_pos + 1) as usize,
        started_at: if v.input.len() == 0 && v.started_at is None {
            Some(now_ms)
        } else {
            v.started_at
        },
        ..v
    }
}

/// Backspace: with the cursor at the start it is a no-op; otherwise the
/// record before the cursor is removed and the cursor steps back. When
/// the position stepped over is a recorded line endpoint the scroll
/// bookkeeping gives its line back.
pub open spec fn spec_backspace(v: SessionView) -> SessionView {
    if v.cursor_pos > 0 {
        let shrunk = SessionView {
            input: v.input.remove(v.cursor_pos - 1),
            cursor_pos: (v.cursor_pos - 1) as usize,
            ..v
        };
        if has_endpoint(v.endpoints, v.cursor_pos) {
            SessionView {
                skip_curr: if v.skip_curr > 0 {
                    (v.skip_curr - v.line_lengths[v.current_line - 2]) as usize
                } else {
                    v.skip_curr
                },
                total_line_length: (v.total_line_length - v.line_lengths.last()) as usize,
                line_lengths: v.line_lengths.drop_last(),
                current_line: (v.current_line - 1) as usize,
                endpoints: set_remove(v.endpoints, v.cursor_pos),
                ..shrunk
            }
        } else {
            shrunk
        }
    } else {
        v
    }
}

/// Completing a display line of `line_len` characters: the line and its
/// endpoint are recorded, and from the second line on the second-to-last
/// line joins the lines scrolled out of view.
pub open spec fn spec_scroll_line(v: SessionView, line_len: usize) -> SessionView {
    let lines2 = v.line_lengths.push(line_len);
    let total2 = (v.total_line_length + line_len) as usize;
    let cl2 = (v.current_line + 1) as usize;
    SessionView {
        line_lengths: lines2,
        total_line_length: total2,
        endpoints: set_insert(v.endpoints, total2),
        current_line: cl2,
        skip_curr: if lines2.len() >= 2 {
            (v.skip_curr + lines2[cl2 - 2]) as usize
        } else {
            v.skip_curr
        },
        ..v
    }
}

/// Whether typing has reached a new display line of width `max_width`:
/// either the current line is exactly full, or the word after the cursor
/// cannot fit on it; in both cases the line is recorded and scrolled.
pub open spec fn spec_scroll(v: SessionView, max_width: usize) -> SessionView {
    let count = v.cursor_pos - v.total_line_length;
    if count == max_width {
        spec_scroll_line(v, count as usize)
    } else {
        let sp = next_space(v.prompt, v.cursor_pos as int);
        if sp < v.prompt.len() && count + (sp - v.cursor_pos) > max_width {
            spec_scroll_line(v, count as usize)
        } else {
            v
        }
    }
}

/// One countdown tick of a timed session.
pub open spec fn spec_on_tick(v: SessionView, dt_ms: u64) -> SessionView {
    SessionView {
        time_remaining_ms: match v.time_remaining_ms {
            Some(t) => Some((t - dt_ms) as i64),
            None => v.time_remaining_ms,
        },
        ..v
    }
}

/// A session being typed: the prompt, the keystroke log and cursor, the
/// timing state, and, once finished, the computed results.
#[derive(Debug)]
pub struct Session {
    pub prompt: Vec<char>,
    pub input: Vec<Input>,
    pub cursor_pos: usize,
    pub started_at: Option<u64>,
    pub time_limit_ms: Option<u64>,
    pub time_remaining_ms: Option<i64>,
    pub number_of_words: usize,
    pub death_mode: bool,
    pub results: Option<Results>,
    pub line_lengths: Vec<usize>,
    pub total_line_length: usize,
    pub skip_curr: usize,
    pub current_line: usize,
    pub endpoints: Vec<usize>,
}

impl View for Session {
    type V = SessionView;

    open spec fn view(&self) -> SessionView {
        SessionView {
            prompt: self.prompt@,
            input: self.input@,
            cursor_pos: self.cursor_pos,
            started_at: self.started_at,
            time_limit_ms: self.time_limit_ms,
            time_remaining_ms: self.time_remaining_ms,
            number_of_words: self.number_of_words,
            death_mode: self.death_mode,
            results: match self.results {
                Some(ref r) => Some(r@),
                None => None,
            },
            line_lengths: self.line_lengths@,
            total_line_length: self.total_line_length,
            skip_curr: self.skip_curr,
            current_line: self.current_line,
            endpoints: self.endpoints@,
        }
    }
}

impl Session {
    /// A fresh session over `prompt`, in timed mode when a limit is given.
    pub fn new(prompt: Vec<char>, number_of_words: usize, time_limit_ms: Option<u64>) -> (s:
        Session)
        requires
            time_limit_ms matches Some(t) ==> t <= i64::MAX,
        ensures
            s@ == (SessionView {
                prompt: prompt@,
                input: Seq::empty(),
                cursor_pos: 0,
                started_at: None,
                time_limit_ms: time_limit_ms,
                time_remaining_ms: match time_limit_ms {
                    Some(t) => Some(t as i64),
                    None => None,
                },
                number_of_words: number_of_words,
                death_mode: false,
                results: None,
                line_lengths: Seq::empty(),
                total_line_length: 0,
                skip_curr: 0,
                current_line: 0,
                endpoints: Seq::empty(),
            }),
            s@.wf(),
    {
        let prompt_len = prompt.len();
        assert(prompt@.len() == prompt_len);
        let time_remaining_ms: Option<i64> = match time_limit_ms {
            Some(t) => Some(t as i64),
            None => None,
        };
        Session {
            prompt,
            input: Vec::new(),
            cursor_pos: 0,
            started_at: None,
            time_limit_ms,
            time_remaining_ms,
            number_of_words,
            death_mode: false,
            results: None,
            line_lengths: Vec::new(),
            total_line_length: 0,
            skip_curr: 0,
            current_line: 0,
            endpoints: Vec::new(),
        }
    }

    /// Switches the session into the death-mode variant, where the first
    /// incorrect keystroke finishes it.
    pub fn enable_death_mode(&mut self)
        ensures
            final(self)@ == (SessionView { death_mode: true, ..old(self)@ }),
    {
        self.death_mode = true;
    }

    /// The prompt character a keystroke at index `idx` is judged against.
    pub fn get_expected_char(&self, idx: usize) -> (c: char)
        requires
            idx < self@.prompt.len(),
        ensures
            c == self@.prompt[idx as int],
    {
        self.prompt[idx]
    }

    /// Moves the cursor one record forward, never past the log's end.
    pub fn increment_cursor(&mut self)
        ensures
            final(self)@ == (SessionView {
                cursor_pos: if old(self)@.cursor_pos < old(self)@.input.len() {
                    (old(self)@.cursor_pos + 1) as usize
                } else {
                    old(self)@.cursor_pos
                },
                ..old(self)@
            }),
    {
        if self.cursor_pos < self.input.len() {
            self.cursor_pos = self.cursor_pos + 1;
        }
    }

    /// Moves the cursor one record back, never before the start.
    pub fn decrement_cursor(&mut self)
        ensures
            final(self)@ == (SessionView {
                cursor_pos: if old(self)@.cursor_pos > 0 {
                    (old(self)@.cursor_pos - 1) as usize
                } else {
                    old(self)@.cursor_pos
                },
                ..old(self)@
            }),
    {
        if self.cursor_pos > 0 {
            self.cursor_pos = self.cursor_pos - 1;
        }
    }

    /// Starts the session clock. `write` does this on the first keystroke.
    pub fn start(&mut self, now_ms: u64)
        requires
            old(self)@.input.len() == 0,
        ensures
            final(self)@ == (SessionView { started_at: Some(now_ms), ..old(self)@ }),
            old(self)@.wf() ==> final(self)@.wf(),
    {
        self.started_at = Some(now_ms);
    }

    /// Whether the first keystroke has happened.
    pub fn has_started(&self) -> (r: bool)
        ensures
            r == (self@.started_at is Some),
    {
        self.started_at.is_some()
    }

    /// Whether the session is finished: prompt filled, countdown run out,
    /// or, in death mode, any incorrect keystroke on record.
    pub fn has_finished(&self) -> (r: bool)
        ensures
            r == spec_finished(self@),
    {
        if self.input.len() == self.prompt.len() {
            return true;
        }
        let timed_out = match self.time_remaining_ms {
            Some(t) => t <= 0,
            None => false,
        };
        if timed_out {
            return true;
        }
        if self.death_mode {
            let n = self.input.len();
            for i in 0..n
                invariant
                    n == self@.input.len(),
                    self@.death_mode,
                    forall|k: int|
                        0 <= k < i ==> (#[trigger] self@.input[k]).outcome != Outcome::Incorrect,
            {
                if self.input[i].outcome == Outcome::Incorrect {
                    proof {
                        assert(0 <= i < self@.input.len() && self@.input[i as int].outcome
                            == Outcome::Incorrect);
                    }
                    return true;
                }
            }
        }
        false
    }

    /// Whether the session is finished; the same check as `has_finished`.
    pub fn is_finished(&self) -> (r: bool)
        ensures
            r == spec_finished(self@),
    {
        self.has_finished()
    }

    /// Records a keystroke at `now_ms`. The caller keeps writes inside an
    /// unfinished session and hands in a clock that has not gone backwards.
    pub fn write(&mut self, c: char, now_ms: u64)
        requires
            old(self)@.wf(),
            !spec_finished(old(self)@),
            old(self)@.started_at matches Some(t0) ==> now_ms >= t0,
        ensures
            final(self)@ == spec_write(old(self)@, c, now_ms),
            final(self)@.wf(),
    {
        let idx = self.input.len();
        if idx == 0 && self.started_at.is_none() {
            self.start(now_ms);
        }
        let outcome = if c == self.get_expected_char(idx) {
            Outcome::Correct
        } else {
            Outcome::Incorrect
        };
        self.input.insert(self.cursor_pos, Input { char: c, outcome, timestamp: now_ms });
        self.increment_cursor();
    }

    /// Deletes the record before the cursor, if any, stepping the scroll
    /// bookkeeping back over a line boundary when one is crossed.
    pub fn backspace(&mut self)
        requires
            old(self)@.wf(),
        ensures
            final(self)@ == spec_backspace(old(self)@),
            final(self)@.wf(),
    {
        if self.cursor_pos > 0 {
            self.input.remove(self.cursor_pos - 1);
            let ghost eps = self.endpoints@;
            let n = self.endpoints.len();
            let mut j: usize = 0;
            while j < n && self.endpoints[j] != self.cursor_pos
                invariant
                    n == self.endpoints@.len(),
                    self.endpoints@ == eps,
                    0 <= j <= n,
                    forall|k: int| 0 <= k < j ==> self.endpoints@[k] != self.cursor_pos,
                decreases n - j,
            {
                j += 1;
            }
            proof {
                lemma_set_remove_split(eps, self.cursor_pos, j as int);
            }
            if j < n {
                assert(has_endpoint(eps, self.cursor_pos));
                proof {
                    lemma_sum_usize_nonneg(self.line_lengths@.take(self.current_line - 1));
                    if self.current_line >= 1 {
                        lemma_sum_usize_take_succ(self.line_lengths@, self.current_line - 1);
                        assert(self.line_lengths@.take(self.current_line as int) =~= self
                            .line_lengths@);
                        lemma_sum_usize_nonneg(
                            self.line_lengths@.take(self.current_line - 2),
                        );
                        if self.current_line >= 2 {
                            lemma_sum_usize_take_succ(self.line_lengths@, self.current_line - 2);
                        }
                    }
                }
                if self.skip_curr > 0 {
                    self.skip_curr = self.skip_curr - self.line_lengths[self.current_line - 2];
                }
                let last = match self.line_lengths.pop() {
                    Some(x) => x,
                    None => {
                        proof {
                            assert(false);
                        }
                        0
                    },
                };
                self.total_line_length = self.total_line_length - last;
                self.current_line = self.current_line - 1;
                self.endpoints.remove(j);
                proof {
                    assert(self.line_lengths@ == old(self).line_lengths@.drop_last());
                    lemma_sum_usize_nonneg(self.line_lengths@);
                }
            } else {
                assert(!has_endpoint(eps, self.cursor_pos));
            }
            self.decrement_cursor();
        }
    }

    /// Records a finished display line of `line_length` characters and
    /// scrolls the second-to-last line out of view once two lines exist.
    fn scroll_line(&mut self, line_length: usize)
        requires
            old(self)@.wf(),
            old(self)@.total_line_length + line_length <= usize::MAX,
        ensures
            final(self)@ == spec_scroll_line(old(self)@, line_length),
            final(self)@.wf(),
    {
        let ghost v0 = self@;
        self.line_lengths.push(line_length);
        let lines_now = self.line_lengths.len();
        self.total_line_length = self.total_line_length + line_length;
        proof {
            assert(self.line_lengths@.drop_last() =~= v0.line_lengths);
        }
        // sorted-set insert of the new endpoint
        let x = self.total_line_length;
        let ghost eps = self.endpoints@;
        let n = self.endpoints.len();
        let mut j: usize = 0;
        while j < n && self.endpoints[j] < x
            invariant
                n == self.endpoints@.len(),
                self.endpoints@ == eps,
                0 <= j <= n,
                forall|k: int| 0 <= k < j ==> eps[k] < x,
            decreases n - j,
        {
            j += 1;
        }
        proof {
            lemma_set_insert_split(eps, x, j as int);
        }
        if j < n && self.endpoints[j] == x {
            // this endpoint is already on record
        } else {
            self.endpoints.insert(j, x);
        }
        self.current_line = self.current_line + 1;
        if lines_now >= 2 {
            let add = self.line_lengths[self.current_line - 2];
            proof {
                lemma_sum_usize_take_succ(v0.line_lengths, v0.current_line - 1);
                assert(v0.line_lengths.take(v0.current_line as int) =~= v0.line_lengths);
                lemma_sum_usize_nonneg(v0.line_lengths.take(v0.current_line - 1));
            }
            self.skip_curr = self.skip_curr + add;
            proof {
                assert(self.line_lengths@.take(self.current_line - 1) =~= v0.line_lengths);
            }
        }
        proof {
            if lines_now < 2 {
                assert(self.line_lengths@.take(self.current_line - 1) =~= v0.line_lengths.take(
                    v0.current_line as int,
                ));
            }
            assert(self@ =~= spec_scroll_line(v0, line_length));
        }
    }

    /// Called on every keystroke with the display width: detects that the
    /// cursor has moved onto a new line, either because the line is
    /// exactly full or because the next word cannot fit, and scrolls.
    pub fn scroll_if_line_exhausted(&mut self, max_width: usize)
        requires
            old(self)@.wf(),
            old(self)@.total_line_length <= old(self)@.cursor_pos,
        ensures
            final(self)@ == spec_scroll(old(self)@, max_width),
            final(self)@.wf(),
    {
        let count = self.cursor_pos - self.total_line_length;
        if count == max_width {
            self.scroll_line(count);
            return;
        }
        // find the next space at or after the cursor: the next word ends there
        let plen = self.prompt.len();
        let cursor = self.cursor_pos;
        let mut k = cursor;
        while k < plen && self.prompt[k] != ' '
            invariant
                plen == self@.prompt.len(),
                cursor <= k <= plen,
                next_space(self@.prompt, cursor as int) == next_space(self@.prompt, k as int),
            decreases plen - k,
        {
            k += 1;
        }
        proof {
            if k < plen {
                assert(next_space(self@.prompt, k as int) == k);
            }
        }
        if k < plen {
            let next_word_len = k - cursor;
            if count + next_word_len > max_width {
                self.scroll_line(count);
            }
        }
    }

    /// One countdown tick of `dt_ms` in timed mode; finishing is detected
    /// by the caller polling `has_finished` afterwards.
    pub fn on_tick(&mut self, dt_ms: u64)
        requires
            old(self)@.time_remaining_ms is Some,
            dt_ms <= i64::MAX,
            old(self)@.time_remaining_ms->0 - dt_ms >= i64::MIN,
        ensures
            final(self)@ == spec_on_tick(old(self)@, dt_ms),
    {
        let t = match self.time_remaining_ms {
            Some(t) => t,
            None => {
                proof {
                    assert(false);
                }
                0
            },
        };
        self.time_remaining_ms = Some(t - dt_ms as i64);
    }

    /// Computes and stores the session's results from the frozen log, at
    /// freeze time `now_ms`. Fires once, on the transition to finished.
    pub fn calc_results(&mut self, now_ms: u64)
        requires
            old(self)@.wf(),
            old(self)@.results is None,
            old(self)@.started_at matches Some(t0) ==> now_ms >= t0 && now_ms - t0
                <= MAX_ELAPSED_MS,
            old(self)@.started_at is Some,
            old(self)@.input.len() <= MAX_KEYSTROKES,
            forall|k: int|
                0 <= k < old(self)@.input.len() ==> (#[trigger] old(self)@.input[k]).timestamp
                    <= now_ms,
        ensures
            final(self)@ == (SessionView {
                results: Some(
                    results_spec(
                        old(self)@.input,
                        old(self)@.started_at->0 as int,
                        now_ms as int,
                    ),
                ),
                ..old(self)@
            }),
            final(self)@.wf(),
    {
        let t0 = match self.started_at {
            Some(t) => t,
            None => {
                proof {
                    assert(false);
                }
                0
            },
        };
        let r = calc_results(&self.input, t0, now_ms);
        self.results = Some(r);
    }
}

/// For every well-formed session the log never outgrows the prompt,
/// whatever sequence of writes and backspaces produced it.
pub proof fn lemma_log_within_prompt(v: SessionView)
    requires
        v.wf(),
    ensures
        v.input.len() <= v.prompt.len(),
{
}

/// A write followed immediately by a backspace restores the log and the
/// cursor to their prior values; the start instant, once set, stays.
pub proof fn lemma_write_backspace(v: SessionView, c: char, now_ms: u64)
    requires
        v.wf(),
        !spec_finished(v),
    ensures
        spec_backspace(spec_write(v, c, now_ms)).input == v.input,
        spec_backspace(spec_write(v, c, now_ms)).cursor_pos == v.cursor_pos,
        v.started_at is Some ==> spec_backspace(spec_write(v, c, now_ms)).started_at
            == v.started_at,
{
    let w = spec_write(v, c, now_ms);
    assert(w.input.remove(v.cursor_pos as int) =~= v.input);
}

/// A session that has not recorded a keystroke against a non-empty prompt,
/// and whose countdown (if any) has not run out, is not finished.
pub proof fn lemma_fresh_not_finished(v: SessionView)
    requires
        v.input.len() == 0,
        v.prompt.len() > 0,
        v.time_remaining_ms matches Some(t) ==> t > 0,
    ensures
        !spec_finished(v),
{
}

/// A timed session whose countdown has reached or passed zero is finished
/// however much of the prompt is left.
pub proof fn lemma_timeout_finishes(v: SessionView)
    requires
        v.time_remaining_ms matches Some(t) && t <= 0,
    ensures
        spec_finished(v),
{
}

/// In death mode one recorded incorrect keystroke finishes the session
/// regardless of the remaining prompt.
pub proof fn lemma_death_mode_finishes(v: SessionView, k: int)
    requires
        v.death_mode,
        0 <= k < v.input.len(),
        v.input[k].outcome == Outcome::Incorrect,
    ensures
        spec_finished(v),
{
}

} // verus!
