use mines::input::{has_mark, is_white, parse_coord, split_words, to_index, trim};
use mines::{Action, Prompt, Reply};

fn chars(text: &str) -> Vec<char> {
    text.chars().collect()
}

#[test]
fn white_space() {
    for c in [
        ' ', '\t', '\n', '\r', '\u{b}', '\u{c}', '\u{85}', '\u{a0}', '\u{1680}', '\u{2000}', '\u{200a}',
        '\u{2028}', '\u{2029}', '\u{202f}', '\u{205f}', '\u{3000}',
    ] {
        assert!(is_white(c));
    }
    for c in ['a', '0', '_', '\u{8}', '\u{e}', '\u{200b}', '\u{1f}', '\u{feff}'] {
        assert!(!is_white(c));
    }
}

#[test]
fn white_space_as_std_has_it() {
    for code in 0..0x3100u32 {
        if let Some(c) = char::from_u32(code) {
            assert_eq!(c.is_whitespace(), is_white(c));
        }
    }
}

#[test]
fn trim_cuts_both_ends() {
    assert_eq!(chars("1 2"), trim(&chars("  \t1 2\r\n")));
    assert_eq!(chars("a"), trim(&chars("a")));
    assert_eq!(chars("a \t b"), trim(&chars("a \t b")));
    assert_eq!(chars(""), trim(&chars("")));
    assert_eq!(chars(""), trim(&chars(" \n\t ")));
}

#[test]
fn trim_as_std_has_it() {
    for text in ["", " ", "x", " x", "x ", "  x y  ", "\u{a0}f\u{3000}", "\t\n", " a\tb \n"] {
        assert_eq!(chars(text.trim()), trim(&chars(text)));
    }
}

#[test]
fn split_words_at_blanks() {
    assert_eq!(vec![chars("a"), chars("b"), chars("c")], split_words(&chars("a  b c")));
    assert_eq!(vec![chars("f"), chars("12"), chars("3")], split_words(&chars("f 12 3")));
    assert_eq!(vec![chars("1\t2")], split_words(&chars("1\t2")));
    assert_eq!(vec![chars("x")], split_words(&chars("  x  ")));
    assert_eq!(Vec::<Vec<char>>::new(), split_words(&chars("")));
    assert_eq!(Vec::<Vec<char>>::new(), split_words(&chars("   ")));
}

#[test]
fn parse_coord_reads_numbers() {
    assert_eq!(Some(12), parse_coord(&chars("12")));
    assert_eq!(Some(0), parse_coord(&chars("0")));
    assert_eq!(Some(7), parse_coord(&chars("+7")));
    assert_eq!(Some(7), parse_coord(&chars("007")));
    assert_eq!(Some(65535), parse_coord(&chars("65535")));
    assert_eq!(Some(65535), parse_coord(&chars("0000000000065535")));
}

#[test]
fn parse_coord_refuses_the_rest() {
    assert_eq!(None, parse_coord(&chars("65536")));
    assert_eq!(None, parse_coord(&chars("99999999999999999999")));
    assert_eq!(None, parse_coord(&chars("")));
    assert_eq!(None, parse_coord(&chars("+")));
    assert_eq!(None, parse_coord(&chars("-1")));
    assert_eq!(None, parse_coord(&chars("++1")));
    assert_eq!(None, parse_coord(&chars("1a")));
    assert_eq!(None, parse_coord(&chars("a1")));
    assert_eq!(None, parse_coord(&chars("1 ")));
    assert_eq!(None, parse_coord(&chars("1.0")));
    assert_eq!(None, parse_coord(&chars("\u{661}")));
}

#[test]
fn parse_coord_as_std_has_it() {
    for text in [
        "", "+", "-", "0", "+0", "-0", "1", "65535", "65536", "065535", "+65535", "6553a", "\u{661}", "1e3",
        "0x10", "123456",
    ] {
        assert_eq!(text.parse::<u16>().ok(), parse_coord(&chars(text)));
    }
}

#[test]
fn to_index_counts_from_zero() {
    assert_eq!(0, to_index(1));
    assert_eq!(0, to_index(0));
    assert_eq!(4, to_index(5));
    assert_eq!(65534, to_index(65535));
}

#[test]
fn has_mark_trims() {
    assert!(has_mark(&chars("f"), 'f'));
    assert!(has_mark(&chars("f\t"), 'f'));
    assert!(!has_mark(&chars("f"), 'c'));
    assert!(!has_mark(&chars("ff"), 'f'));
    assert!(!has_mark(&chars(""), 'f'));
}

#[test]
fn feed_reveal() {
    let mut prompt = Prompt::new();
    assert_eq!(Reply::Selected(Action::Reveal(1, 0)), prompt.feed(&chars("1 2\n")));
    assert_eq!(Reply::Selected(Action::Reveal(0, 0)), prompt.feed(&chars("1 1")));
    assert_eq!(Reply::Selected(Action::Reveal(65534, 4)), prompt.feed(&chars("  +5   65535  ")));
    assert_eq!(Reply::Selected(Action::Reveal(1, 0)), prompt.feed(&chars("1\t 2")));
}

#[test]
fn feed_flag_and_chord() {
    let mut prompt = Prompt::new();
    assert_eq!(Reply::Selected(Action::Flag(3, 2)), prompt.feed(&chars("f 3 4\n")));
    assert_eq!(Prompt::new(), prompt);
    assert_eq!(Reply::Selected(Action::Chord(0, 9)), prompt.feed(&chars("c 10 1\n")));
    assert_eq!(Prompt::new(), prompt);
    assert_eq!(Reply::Selected(Action::Reveal(3, 2)), prompt.feed(&chars("3 4\n")));
}

#[test]
fn feed_takes_zero_for_one() {
    let mut prompt = Prompt::new();
    assert_eq!(Reply::Selected(Action::Reveal(0, 0)), prompt.feed(&chars("0 0")));
    assert_eq!(Reply::Selected(Action::Flag(0, 2)), prompt.feed(&chars("f 3 0")));
}

#[test]
fn feed_wrong_input_count() {
    let mut prompt = Prompt::new();
    assert_eq!(Reply::WrongInputCount(0), prompt.feed(&chars("\n")));
    assert_eq!(Reply::WrongInputCount(0), prompt.feed(&chars("")));
    assert_eq!(Reply::WrongInputCount(1), prompt.feed(&chars("1\n")));
    assert_eq!(Reply::WrongInputCount(3), prompt.feed(&chars("1 2 3\n")));
    assert_eq!(Reply::WrongInputCount(3), prompt.feed(&chars("x f 3\n")));
    assert_eq!(Prompt::new(), prompt);
    assert_eq!(Reply::WrongInputCount(3), prompt.feed(&chars("f c 1 2\n")));
}

#[test]
fn feed_wrong_coords_count() {
    let mut prompt = Prompt::new();
    assert_eq!(Reply::WrongCoordsCount(0), prompt.feed(&chars("a b\n")));
    assert_eq!(Reply::WrongCoordsCount(1), prompt.feed(&chars("1 b\n")));
    assert_eq!(Reply::WrongCoordsCount(1), prompt.feed(&chars("a 2\n")));
    assert_eq!(Reply::WrongCoordsCount(1), prompt.feed(&chars("65536 2\n")));
    assert_eq!(Reply::WrongCoordsCount(0), prompt.feed(&chars("-1 -2\n")));
    assert_eq!(Prompt::new(), prompt);
}

#[test]
fn feed_keeps_the_mark_of_a_refused_line() {
    let mut prompt = Prompt::new();
    assert_eq!(Reply::WrongInputCount(1), prompt.feed(&chars("f 1\n")));
    assert_eq!(Prompt { flag: true, chord: false }, prompt);
    assert_eq!(Reply::Selected(Action::Flag(2, 1)), prompt.feed(&chars("2 3\n")));
    assert_eq!(Prompt::new(), prompt);
    assert_eq!(Reply::WrongInputCount(0), prompt.feed(&chars("c\n")));
    assert_eq!(Prompt { flag: false, chord: true }, prompt);
    assert_eq!(Reply::Selected(Action::Chord(2, 1)), prompt.feed(&chars("2 3\n")));
}

#[test]
fn feed_flag_goes_before_chord() {
    let mut prompt = Prompt::new();
    assert_eq!(Reply::WrongCoordsCount(0), prompt.feed(&chars("c x y\n")));
    assert_eq!(Reply::Selected(Action::Flag(1, 0)), prompt.feed(&chars("f 1 2\n")));
    let mut prompt = Prompt { flag: true, chord: true };
    assert_eq!(Reply::Selected(Action::Flag(1, 0)), prompt.feed(&chars("1 2\n")));
}

#[test]
fn action_of_prompt() {
    assert_eq!(Action::Reveal(6, 2), Prompt::new().action(3, 7));
    assert_eq!(Action::Flag(6, 2), Prompt { flag: true, chord: false }.action(3, 7));
    assert_eq!(Action::Chord(6, 2), Prompt { flag: false, chord: true }.action(3, 7));
}
