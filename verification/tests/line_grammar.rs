use regex::Regex;
use shadps4_launcher::line_grammar::parse_line;

fn parts(line: &str) -> Option<(String, String, String)> {
    parse_line(line).map(|p| (p.class, p.level_word, p.message))
}

fn by_pattern(pattern: &Regex, line: &str) -> Option<(String, String, String)> {
    pattern.captures(line).map(|c| (c[1].to_string(), c[2].to_string(), c[3].to_string()))
}

fn owned(class: &str, level: &str, message: &str) -> Option<(String, String, String)> {
    Some((class.to_string(), level.to_string(), message.to_string()))
}

#[test]
fn a_plain_line_splits_into_three_parts() {
    assert_eq!(parts("[CORE] <Info> hello"), owned("CORE", "Info", "hello"));
}

#[test]
fn text_without_brackets_is_no_log_line() {
    assert_eq!(parts("not a log line"), None);
    assert_eq!(parts(""), None);
    assert_eq!(parts("[CORE] Info hello"), None);
    assert_eq!(parts("CORE] <Info> hello"), None);
    assert_eq!(parts(" [CORE] <Info> hello"), None);
}

#[test]
fn the_spaces_after_the_brackets_are_optional() {
    assert_eq!(parts("[A]<B>c"), owned("A", "B", "c"));
    assert_eq!(parts("[A] <B>c"), owned("A", "B", "c"));
    assert_eq!(parts("[A]<B> c"), owned("A", "B", "c"));
}

#[test]
fn only_one_space_is_taken_after_a_bracket() {
    assert_eq!(parts("[A] <B>  c"), owned("A", "B", " c"));
    assert_eq!(parts("[A]  <B> c"), None);
}

#[test]
fn parts_may_be_empty() {
    assert_eq!(parts("[]<>"), owned("", "", ""));
    assert_eq!(parts("[] <> "), owned("", "", ""));
}

#[test]
fn the_class_ends_at_the_first_bracket_that_lets_the_rest_fit() {
    assert_eq!(parts("[a]b] <Info> m"), owned("a]b", "Info", "m"));
    assert_eq!(parts("[a] <x] <Info> m"), owned("a", "x] <Info", "m"));
}

#[test]
fn the_level_word_ends_at_the_first_closing_angle() {
    assert_eq!(parts("[Core] <Info> a > b"), owned("Core", "Info", "a > b"));
    assert_eq!(parts("[Core] <<Info>> x"), owned("Core", "<Info", "> x"));
}

#[test]
fn other_whitespace_counts_as_the_optional_space() {
    assert_eq!(parts("[A]\t<B>\tc"), owned("A", "B", "c"));
    assert_eq!(parts("[A]\u{a0}<B>\u{3000}c"), owned("A", "B", "c"));
}

#[test]
fn a_line_feed_fits_only_as_the_optional_space() {
    assert_eq!(parts("[A]\n<B>\nc"), owned("A", "B", "c"));
    assert_eq!(parts("[A] <B> c\n"), None);
    assert_eq!(parts("[A\n] <B> c"), None);
    assert_eq!(parts("[A] <B\n> c"), None);
    assert_eq!(parts("[A] <B>\n\nc"), None);
}

#[test]
fn a_later_closing_angle_is_taken_when_a_line_feed_follows_it() {
    assert_eq!(parts("[A] <B>x>\ny"), owned("A", "B>x", "y"));
}

#[test]
fn characters_beyond_ascii_are_counted_one_by_one() {
    assert_eq!(parts("[Kérnel] <Wärnung> größe ∑"), owned("Kérnel", "Wärnung", "größe ∑"));
}

#[test]
fn chosen_lines_are_read_as_the_pattern_reads_them() {
    let pattern = Regex::new(r"^\[(.*?)]\s?<(.*?)>\s?(.*)$").unwrap();
    let lines = [
        "[CORE] <Info> hello",
        "not a log line",
        "[a]b] <Info> m",
        "[a] <x] <Info> m",
        "[A]\n<B>\nc",
        "[A] <B>x>\ny",
        "[A] <B>\n\nc",
        "[A]  <B> c",
        "[] <> ",
        "[[]] <<>> [] <>",
        "[A]\u{85}<B>\u{2028}c",
        "[A]\u{200b}<B> c",
        "[A] <B> c\r",
        "[A]><B> c",
        "[Kérnel] <Wärnung> größe ∑",
    ];
    for line in lines {
        assert_eq!(parts(line), by_pattern(&pattern, line), "line {:?}", line);
    }
}

#[test]
fn generated_lines_are_read_as_the_pattern_reads_them() {
    let pattern = Regex::new(r"^\[(.*?)]\s?<(.*?)>\s?(.*)$").unwrap();
    let alphabet = ['[', ']', '<', '>', ' ', '\n', 'a', '\u{a0}', '\t'];
    let mut state: u64 = 0x2545_F491_4F6C_DD1D;
    let mut matched = 0;
    for _ in 0..40_000 {
        let mut line = String::from("[");
        state = state.wrapping_mul(6364136223846793005).wrapping_add(1442695040888963407);
        let len = (state >> 60) % 10;
        for _ in 0..len {
            state = state.wrapping_mul(6364136223846793005).wrapping_add(1442695040888963407);
            line.push(alphabet[((state >> 33) % alphabet.len() as u64) as usize]);
        }
        let expected = by_pattern(&pattern, &line);
        if expected.is_some() {
            matched += 1;
        }
        assert_eq!(parts(&line), expected, "line {:?}", line);
    }
    assert!(matched > 100);
}
