use thokr::results::{calc_results, Input, Outcome};
use thokr::session::Session;

fn prompt_of(s: &str) -> Vec<char> {
    s.chars().collect()
}

fn correct(c: char, timestamp: u64) -> Input {
    Input { char: c, outcome: Outcome::Correct, timestamp }
}

fn incorrect(c: char, timestamp: u64) -> Input {
    Input { char: c, outcome: Outcome::Incorrect, timestamp }
}

#[test]
fn accuracy_counts_only_surviving_records() {
    // prompt "abc", keystrokes a, x (expected b), backspace, b, c:
    // the incorrect record is removed, so the log is [a, b, c], 100%
    let mut s = Session::new(prompt_of("abc"), 1, None);
    s.write('a', 1000);
    s.write('x', 1200);
    s.backspace();
    s.write('b', 1400);
    s.write('c', 1600);
    assert_eq!(s.input.len(), 3);
    assert!(s.has_finished());
    s.calc_results(2000);
    let r = s.results.unwrap();
    assert_eq!(r.accuracy, 100);
}

#[test]
fn accuracy_rounds_half_up() {
    // two correct out of three: round(66.67) = 67
    let mut s = Session::new(prompt_of("abc"), 1, None);
    s.write('a', 1000);
    s.write('x', 1200);
    s.write('c', 1400);
    s.calc_results(2000);
    assert_eq!(s.results.unwrap().accuracy, 67);
    // one correct out of two: round(50) = 50
    let r = calc_results(&vec![correct('a', 0), incorrect('x', 100)], 0, 1000);
    assert_eq!(r.accuracy, 50);
}

#[test]
fn zero_correct_keystrokes_give_zero_metrics() {
    let mut s = Session::new(prompt_of("ab"), 1, None);
    s.write('x', 1000);
    s.write('y', 1500);
    assert!(s.has_finished());
    s.calc_results(2000);
    let r = s.results.unwrap();
    assert_eq!(r.wpm, 0);
    assert_eq!(r.accuracy, 0);
    assert_eq!(r.std_dev_milli, 0);
    assert!(r.wpm_coords.is_empty());
}

#[test]
fn single_keystroke_at_offset_zero_buckets_into_second_one() {
    let mut s = Session::new(prompt_of("a"), 1, None);
    s.write('a', 5000);
    assert!(s.has_finished());
    s.calc_results(7000);
    let r = s.results.unwrap();
    // one curve point at second 1: one character over one second, 12 WPM
    assert_eq!(r.wpm_coords, vec![(1000, 12000)]);
    assert_eq!(r.wpm, 12);
    assert_eq!(r.std_dev_milli, 0);
    assert_eq!(r.accuracy, 100);
}

#[test]
fn whole_second_buckets_and_final_wpm() {
    // offsets 0 and 1000ms inside the first two whole seconds, 1500ms tail
    let mut s = Session::new(prompt_of("abc"), 1, None);
    s.write('a', 1000);
    s.write('b', 2000);
    s.write('c', 2500);
    s.calc_results(3000);
    let r = s.results.unwrap();
    // buckets: 0 -> 1s, 1000 -> 1s, 1500 -> 2s (ceil within floor(2.0))
    assert_eq!(r.wpm_coords, vec![(1000, 24000), (2000, 18000)]);
    assert_eq!(r.wpm, 18);
    // one whole-second count [2] besides the final bucket: deviation 0
    assert_eq!(r.std_dev_milli, 0);
    assert_eq!(r.accuracy, 100);
}

#[test]
fn tail_keystroke_falls_into_fractional_final_bucket() {
    // elapsed 1500ms: the 1300ms keystroke is beyond the last whole second
    let r = calc_results(&vec![correct('a', 0), correct('b', 1300)], 0, 1500);
    assert_eq!(r.wpm_coords, vec![(1000, 12000), (1500, 16000)]);
    assert_eq!(r.wpm, 16);
    assert_eq!(r.std_dev_milli, 0);
}

#[test]
fn early_fraction_keystrokes_fold_into_second_one() {
    // several keystrokes inside the first second share bucket 1
    let r = calc_results(
        &vec![correct('a', 0), correct('b', 200), correct('c', 900), correct('d', 1100)],
        0,
        2000,
    );
    assert_eq!(r.wpm_coords, vec![(1000, 36000), (2000, 24000)]);
    assert_eq!(r.wpm, 24);
    assert_eq!(r.accuracy, 100);
}

#[test]
fn final_wpm_is_ceiling_of_last_point() {
    // 6 correct chars, last bucket second 7: 12000 * 6 / 7000 = 10.28..., ceil 11
    let mut log: Vec<Input> = (0..5).map(|i| correct('a', i * 1000)).collect();
    log.push(correct('a', 6500));
    let r = calc_results(&log, 0, 7000);
    assert_eq!(r.wpm, 11);
    // an incorrect record contributes nothing to the curve: the last
    // bucket moves back to second 4, ceil(12000 * 5 / 4000) = 15
    let mut incomplete = log.clone();
    incomplete[5] = incorrect('x', 6500);
    let r2 = calc_results(&incomplete, 0, 7000);
    assert_eq!(r2.wpm, 15);
    assert_eq!(r2.wpm_coords.len(), 4);
}

#[test]
fn std_dev_over_whole_second_counts() {
    // counts per second 2,1,2 with the final bucket's count excluded:
    // population std-dev of [2, 1] is 0.5
    let log = vec![
        correct('a', 0),
        correct('b', 500),
        correct('c', 1200),
        correct('d', 2100),
        correct('e', 2600),
    ];
    let r = calc_results(&log, 0, 3000);
    assert_eq!(r.wpm_coords.len(), 3);
    assert_eq!(r.std_dev_milli, 500);
}

#[test]
fn incorrect_records_do_not_reach_buckets() {
    let r = calc_results(
        &vec![correct('a', 0), incorrect('x', 400), correct('b', 600)],
        0,
        1000,
    );
    // both correct keystrokes fold into second one
    assert_eq!(r.wpm_coords, vec![(1000, 24000)]);
    assert_eq!(r.wpm, 24);
    // round(100 * 2 / 3) = 67
    assert_eq!(r.accuracy, 67);
}
