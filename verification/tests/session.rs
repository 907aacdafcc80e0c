use thokr::results::Outcome;
use thokr::session::Session;

fn prompt_of(s: &str) -> Vec<char> {
    s.chars().collect()
}

#[test]
fn log_never_outgrows_prompt() {
    let mut s = Session::new(prompt_of("ab"), 1, None);
    s.write('a', 1000);
    s.write('x', 1100);
    assert_eq!(s.input.len(), 2);
    assert!(s.input.len() <= s.prompt.len());
    assert!(s.has_finished());
}

#[test]
fn write_then_backspace_restores_cursor_and_log() {
    let mut s = Session::new(prompt_of("abc"), 1, None);
    s.write('a', 1000);
    let cursor_before = s.cursor_pos;
    let len_before = s.input.len();
    s.write('x', 1200);
    s.backspace();
    assert_eq!(s.cursor_pos, cursor_before);
    assert_eq!(s.input.len(), len_before);
    // started_at is monotonic: still set from the first keystroke
    assert_eq!(s.started_at, Some(1000));
}

#[test]
fn fresh_session_is_not_finished() {
    let s = Session::new(prompt_of("abc"), 1, None);
    assert!(!s.has_finished());
    assert!(!s.has_started());
}

#[test]
fn outcome_judged_against_insertion_index() {
    let mut s = Session::new(prompt_of("abc"), 1, None);
    s.write('a', 1000);
    s.write('x', 1100);
    assert_eq!(s.input[0].outcome, Outcome::Correct);
    assert_eq!(s.input[1].outcome, Outcome::Incorrect);
    s.backspace();
    // retyping re-evaluates against the current prompt position
    s.write('b', 1200);
    assert_eq!(s.input[1].outcome, Outcome::Correct);
    assert_eq!(s.input[1].char, 'b');
}

#[test]
fn first_keystroke_starts_clock_once() {
    let mut s = Session::new(prompt_of("abc"), 1, None);
    assert_eq!(s.started_at, None);
    s.write('a', 777);
    assert!(s.has_started());
    assert_eq!(s.started_at, Some(777));
    s.backspace();
    // emptied log does not clear the start instant
    assert_eq!(s.started_at, Some(777));
    s.write('a', 900);
    assert_eq!(s.started_at, Some(777));
}

#[test]
fn backspace_at_start_is_noop() {
    let mut s = Session::new(prompt_of("ab"), 1, None);
    s.backspace();
    assert_eq!(s.cursor_pos, 0);
    assert_eq!(s.input.len(), 0);
}

#[test]
fn timed_session_finishes_when_ticked_below_zero() {
    let mut s = Session::new(prompt_of("abcdef"), 1, Some(250));
    s.write('a', 1000);
    assert!(!s.has_finished());
    s.on_tick(100);
    assert!(!s.has_finished());
    s.on_tick(100);
    s.on_tick(100);
    // 250 - 300 ticks below zero with the prompt incomplete
    assert_eq!(s.time_remaining_ms, Some(-50));
    assert!(s.has_finished());
}

#[test]
fn death_mode_finishes_on_first_mistake() {
    let mut s = Session::new(prompt_of("abcdef"), 1, None);
    s.enable_death_mode();
    s.write('a', 1000);
    assert!(!s.has_finished());
    s.write('z', 1100);
    assert!(s.has_finished());
}

#[test]
fn without_death_mode_a_mistake_does_not_finish() {
    let mut s = Session::new(prompt_of("abcdef"), 1, None);
    s.write('z', 1000);
    assert!(!s.has_finished());
}

#[test]
fn cursor_helpers_stay_in_bounds() {
    let mut s = Session::new(prompt_of("abc"), 1, None);
    s.decrement_cursor();
    assert_eq!(s.cursor_pos, 0);
    s.write('a', 1000);
    assert_eq!(s.cursor_pos, 1);
    s.increment_cursor();
    // cannot move past the log
    assert_eq!(s.cursor_pos, 1);
    s.decrement_cursor();
    assert_eq!(s.cursor_pos, 0);
}

#[test]
fn get_expected_char_reads_prompt() {
    let s = Session::new(prompt_of("xyz"), 1, None);
    assert_eq!(s.get_expected_char(0), 'x');
    assert_eq!(s.get_expected_char(2), 'z');
}

#[test]
fn scroll_records_full_line_and_endpoint() {
    let mut s = Session::new(prompt_of("aaaa bb"), 2, None);
    for (i, c) in ['a', 'a', 'a', 'a'].iter().enumerate() {
        s.write(*c, 1000 + (i as u64) * 100);
    }
    s.scroll_if_line_exhausted(4);
    assert_eq!(s.line_lengths, vec![4]);
    assert_eq!(s.total_line_length, 4);
    assert_eq!(s.endpoints, vec![4]);
    assert_eq!(s.current_line, 1);
    assert_eq!(s.skip_curr, 0);
}

#[test]
fn scroll_when_next_word_cannot_fit() {
    // after typing "aa " on a width-4 line, the next word "bbb" cannot fit
    let mut s = Session::new(prompt_of("aa bbb cc"), 2, None);
    s.write('a', 1000);
    s.write('a', 1100);
    s.write(' ', 1200);
    s.scroll_if_line_exhausted(4);
    assert_eq!(s.line_lengths, vec![3]);
    assert_eq!(s.endpoints, vec![3]);
}

#[test]
fn no_scroll_while_line_has_room() {
    let mut s = Session::new(prompt_of("aa bb"), 2, None);
    s.write('a', 1000);
    s.scroll_if_line_exhausted(10);
    assert_eq!(s.line_lengths.len(), 0);
    assert_eq!(s.total_line_length, 0);
    assert_eq!(s.current_line, 0);
}

#[test]
fn backspace_over_endpoint_restores_line() {
    let mut s = Session::new(prompt_of("aaaa bb"), 2, None);
    for (i, c) in ['a', 'a', 'a', 'a'].iter().enumerate() {
        s.write(*c, 1000 + (i as u64) * 100);
    }
    s.scroll_if_line_exhausted(4);
    assert_eq!(s.endpoints, vec![4]);
    // the cursor sits at 4, the recorded endpoint: deleting steps back a line
    s.backspace();
    assert_eq!(s.line_lengths.len(), 0);
    assert_eq!(s.total_line_length, 0);
    assert_eq!(s.current_line, 0);
    assert_eq!(s.endpoints.len(), 0);
    assert_eq!(s.cursor_pos, 3);
    assert_eq!(s.input.len(), 3);
}
