use thokr::prompt::Prompt;

fn prompt_of(s: &str) -> Vec<char> {
    s.chars().collect()
}

#[test]
fn write_and_backspace_track_cursor() {
    let mut p = Prompt::new(prompt_of("hello"));
    assert_eq!(p.cursor_pos, 0);
    p.write('h', 1000);
    p.write('e', 1100);
    assert_eq!(p.cursor_pos, 2);
    assert_eq!(p.input, vec!['h', 'e']);
    p.backspace();
    assert_eq!(p.cursor_pos, 1);
    assert_eq!(p.input, vec!['h']);
    p.backspace();
    p.backspace();
    assert_eq!(p.cursor_pos, 0);
    assert_eq!(p.input.len(), 0);
}

#[test]
fn first_write_starts_the_clock() {
    let mut p = Prompt::new(prompt_of("hi"));
    assert_eq!(p.duration, None);
    p.write('h', 4000);
    assert_eq!(p.duration, Some(4000));
    p.write('i', 5000);
    assert_eq!(p.duration, Some(4000));
}

#[test]
fn clock_survives_emptying_the_input() {
    // the start instant is monotone: erasing everything and retyping
    // does not restart it
    let mut p = Prompt::new(prompt_of("hi"));
    p.write('h', 4000);
    p.backspace();
    assert_eq!(p.input.len(), 0);
    p.write('h', 6000);
    assert_eq!(p.duration, Some(4000));
}

#[test]
fn correctness_is_judged_per_position() {
    let mut p = Prompt::new(prompt_of("abc"));
    p.write('a', 1000);
    p.write('x', 1100);
    assert!(p.get_is_input_char_correct(0));
    assert!(!p.get_is_input_char_correct(1));
    // nothing typed at index 2 yet
    assert!(!p.get_is_input_char_correct(2));
    assert_eq!(p.get_expected_char(2), 'c');
}

#[test]
fn cpm_and_wpm_whole_number_arithmetic() {
    // 10 characters finished in 30 seconds: (60000 / 30000) * 10 = 20 cpm
    let mut p = Prompt::new(prompt_of("abcdefghij"));
    p.write('a', 1000);
    let q = p.clone();
    assert_eq!(q.get_cpm(31000), 20);
    assert_eq!(p.get_wpm(31000), 4);
}

#[test]
fn cpm_rate_truncates_like_integer_division() {
    // 7 seconds: 60000 / 7000 = 8, times 4 characters = 32
    let mut p = Prompt::new(prompt_of("abcd"));
    p.write('a', 0);
    assert_eq!(p.get_cpm(7000), 32);
}
