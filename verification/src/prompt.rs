//! A minimal typing prompt: the prompt characters, the raw characters
//! typed so far, a cursor, and the instant typing began. Unlike the full
//! session it records no per-keystroke outcome or timing; correctness is
//! judged afterwards, position by position, and speed from the total time.

use vstd::prelude::*;

verus! {

/// The mathematical state of a minimal prompt.
#[verifier::ext_equal]
pub ghost struct PromptView {
    pub prompt: Seq<char>,
    pub input: Seq<char>,
    pub cursor_pos: usize,
    pub duration: Option<u64>,
}

#[derive(Clone)]
pub struct Prompt {
    pub prompt: Vec<char>,
    pub input: Vec<char>,
    pub cursor_pos: usize,
    pub duration: Option<u64>,
}

impl View for Prompt {
    type V = PromptView;

    open spec fn view(&self) -> PromptView {
        PromptView {
            prompt: self.prompt@,
            input: self.input@,
            cursor_pos: self.cursor_pos,
            duration: self.duration,
        }
    }
}

impl Prompt {
    /// The cursor stays inside the typed input.
    pub open spec fn wf(self) -> bool {
        self.cursor_pos <= self.input@.len()
    }

    /// A fresh prompt with nothing typed.
    pub fn new(prompt: Vec<char>) -> (p: Prompt)
        ensures
            p@ == (PromptView {
                prompt: prompt@,
                input: Seq::empty(),
                cursor_pos: 0,
                duration: None,
            }),
            p.wf(),
    {
        Prompt { prompt, input: Vec::new(), cursor_pos: 0, duration: None }
    }

    /// The prompt character at index `idx`.
    pub fn get_expected_char(&self, idx: usize) -> (c: char)
        requires
            idx < self@.prompt.len(),
        ensures
            c == self@.prompt[idx as int],
    {
        self.prompt[idx]
    }

    /// Whether the character typed at index `idx` exists and matches the
    /// prompt character there; an index where nothing is typed yet is
    /// answered with `false` without consulting the prompt.
    pub fn get_is_input_char_correct(&self, idx: usize) -> (r: bool)
        requires
            idx < self@.input.len() ==> idx < self@.prompt.len(),
        ensures
            r == (idx < self@.input.len() && self@.input[idx as int] == self@.prompt[idx as int]),
    {
        idx < self.input.len() && self.input[idx] == self.get_expected_char(idx)
    }

    /// Moves the cursor one character forward, never past the input's end.
    pub fn increment_cursor(&mut self)
        ensures
            final(self)@ == (PromptView {
                cursor_pos: if old(self)@.cursor_pos < old(self)@.input.len() {
                    (old(self)@.cursor_pos + 1) as usize
                } else {
                    old(self)@.cursor_pos
                },
                ..old(self)@
            }),
    {
        if self.cursor_pos < self.input.len() {
            self.cursor_pos = self.cursor_pos + 1;
        }
    }

    /// Moves the cursor one character back, never before the start.
    pub fn decrement_cursor(&mut self)
        ensures
            final(self)@ == (PromptView {
                cursor_pos: if old(self)@.cursor_pos > 0 {
                    (old(self)@.cursor_pos - 1) as usize
                } else {
                    old(self)@.cursor_pos
                },
                ..old(self)@
            }),
    {
        if self.cursor_pos > 0 {
            self.cursor_pos = self.cursor_pos - 1;
        }
    }

    /// Characters per minute over the whole prompt, measured from the
    /// first keystroke to `now_ms`: (60000 / elapsed_ms) * prompt length,
    /// with whole-number division at each step.
    pub fn get_cpm(self, now_ms: u64) -> (r: usize)
        requires
            self@.duration matches Some(t0) && now_ms > t0,
            (60000int / (now_ms - self@.duration->0)) * self@.prompt.len() <= usize::MAX,
        ensures
            r == (60000int / (now_ms - self@.duration->0)) * self@.prompt.len(),
    {
        let t0 = match self.duration {
            Some(t) => t,
            None => {
                proof {
                    assert(false);
                }
                0
            },
        };
        let rate: u64 = 60000 / (now_ms - t0);
        let plen = self.prompt.len();
        assert(rate * plen == (60000int / (now_ms - t0)) * self@.prompt.len());
        (rate * (plen as u64)) as usize
    }

    /// Words per minute: one word is five characters.
    pub fn get_wpm(self, now_ms: u64) -> (r: usize)
        requires
            self@.duration matches Some(t0) && now_ms > t0,
            (60000int / (now_ms - self@.duration->0)) * self@.prompt.len() <= usize::MAX,
        ensures
            r == (60000int / (now_ms - self@.duration->0)) * self@.prompt.len() / 5,
    {
        self.get_cpm(now_ms) / 5
    }

    /// Deletes the character before the cursor, if any.
    pub fn backspace(&mut self)
        requires
            old(self).wf(),
        ensures
            final(self)@ == if old(self)@.cursor_pos > 0 {
                (PromptView {
                    input: old(self)@.input.remove(old(self)@.cursor_pos - 1),
                    cursor_pos: (old(self)@.cursor_pos - 1) as usize,
                    ..old(self)@
                })
            } else {
                old(self)@
            },
            final(self).wf(),
    {
        if self.cursor_pos > 0 {
            self.input.remove(self.cursor_pos - 1);
            self.decrement_cursor();
        }
    }

    /// Inserts a typed character at the cursor; the first keystroke
    /// starts the clock at `now_ms`, and the start instant, once set, is
    /// never reset.
    pub fn write(&mut self, c: char, now_ms: u64)
        requires
            old(self).wf(),
            old(self)@.input.len() < usize::MAX,
        ensures
            final(self)@ == (PromptView {
                input: old(self)@.input.insert(old(self)@.cursor_pos as int, c),
                cursor_pos: (old(self)@.cursor_pos + 1) as usize,
                duration: if old(self)@.input.len() == 0 && old(self)@.duration is None {
                    Some(now_ms)
                } else {
                    old(self)@.duration
                },
                ..old(self)@
            }),
            final(self).wf(),
    {
        if self.input.len() == 0 && self.duration.is_none() {
            self.duration = Some(now_ms);
        }
        self.input.insert(self.cursor_pos, c);
        self.increment_cursor();
    }
}

} // verus!
