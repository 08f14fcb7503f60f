use symspellrs::ingest::{blank, parse_line, LineError};

fn entry(word: &str, frequency: usize) -> Result<Option<(String, usize)>, LineError> {
    Ok(Some((word.to_string(), frequency)))
}

#[test]
fn blank_lines_and_comments_hold_nothing() {
    for has_freq in [false, true] {
        assert_eq!(parse_line("", has_freq, false), Ok(None));
        assert_eq!(parse_line("   \t ", has_freq, false), Ok(None));
        assert_eq!(parse_line("# a comment", has_freq, false), Ok(None));
        assert_eq!(parse_line("   #hello 3", has_freq, true), Ok(None));
    }
}

#[test]
fn bare_word_has_frequency_one() {
    assert_eq!(parse_line("hello", false, false), entry("hello", 1));
    assert_eq!(parse_line("  hello \r", false, false), entry("hello", 1));
    assert_eq!(parse_line("new york 12", false, false), entry("new york 12", 1));
    assert_eq!(parse_line("a#b", false, false), entry("a#b", 1));
}

#[test]
fn word_with_frequency() {
    assert_eq!(parse_line("hello 42", true, false), entry("hello", 42));
    assert_eq!(parse_line("\thello\t \t42  ", true, false), entry("hello", 42));
    assert_eq!(parse_line("hello 42 and more", true, false), entry("hello", 42));
    assert_eq!(parse_line("hello +7", true, false), entry("hello", 7));
    assert_eq!(parse_line("hello 0", true, false), entry("hello", 0));
    assert_eq!(parse_line("hello 007", true, false), entry("hello", 7));
    assert_eq!(parse_line("hello\u{a0}3", true, false), entry("hello", 3));
}

#[test]
fn missing_frequency_is_an_error() {
    assert_eq!(parse_line("hello", true, false), Err(LineError::MissingFrequency));
    assert_eq!(parse_line("  hello   ", true, true), Err(LineError::MissingFrequency));
}

#[test]
fn invalid_frequency_is_an_error() {
    for line in ["hello x", "hello -1", "hello 1.5", "hello +", "hello 12a", "hello ++1", "hello 1_000"] {
        assert_eq!(parse_line(line, true, false), Err(LineError::InvalidFrequency));
    }
}

#[test]
fn frequency_must_fit() {
    let most = format!("hello {}", usize::MAX);
    assert_eq!(parse_line(&most, true, false), entry("hello", usize::MAX));
    let more = format!("hello {}0", usize::MAX);
    assert_eq!(parse_line(&more, true, false), Err(LineError::InvalidFrequency));
    let next = format!("hello {}", usize::MAX as u128 + 1);
    assert_eq!(parse_line(&next, true, false), Err(LineError::InvalidFrequency));
    assert_eq!(
        parse_line("hello 99999999999999999999999999999999999999999", true, false),
        Err(LineError::InvalidFrequency)
    );
}

#[test]
fn words_are_lowered_on_request() {
    assert_eq!(parse_line("HeLLo", false, true), entry("hello", 1));
    assert_eq!(parse_line("HeLLo", false, false), entry("HeLLo", 1));
    assert_eq!(parse_line("WORLD 9", true, true), entry("world", 9));
    assert_eq!(parse_line("\u{c9}T\u{c9}", false, true), entry("\u{e9}t\u{e9}", 1));
}

#[test]
fn white_space_is_what_std_calls_white_space() {
    for code in 0..0x3100u32 {
        if let Some(c) = char::from_u32(code) {
            assert_eq!(blank(c), c.is_whitespace());
        }
    }
}

#[test]
fn frequencies_read_as_std_reads_them() {
    for token in ["0", "1", "+1", "-1", "", "+", "12", "0012", "1 ", "१", "18446744073709551615", "18446744073709551616", "4294967295", "4294967296"] {
        if token.is_empty() || token.contains(' ') {
            continue;
        }
        let line = format!("w {}", token);
        let expected = token.parse::<usize>().ok();
        let got = match parse_line(&line, true, false) {
            Ok(Some((_, f))) => Some(f),
            _ => None,
        };
        assert_eq!(got, expected);
    }
}
