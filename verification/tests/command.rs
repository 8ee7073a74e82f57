use move_window::command::{next_integer, MoveParameters, ParseError, ScreenSelector};

fn params(
    screen: ScreenSelector,
    x: (i32, i32, i32),
    y: (i32, i32, i32),
) -> MoveParameters {
    MoveParameters {
        screen,
        x_ratio: x.0,
        x_start: x.1,
        x_end: x.2,
        y_ratio: y.0,
        y_start: y.1,
        y_end: y.2,
    }
}

#[test]
fn selector_alone_means_the_whole_screen() {
    assert_eq!(
        MoveParameters::from_command("0"),
        Ok(params(ScreenSelector::Index(0), (1, 0, 0), (1, 0, 0)))
    );
    assert_eq!(
        MoveParameters::from_command("r"),
        Ok(params(ScreenSelector::Char('r'), (1, 0, 0), (1, 0, 0)))
    );
}

#[test]
fn spaces_are_not_part_of_a_command() {
    assert_eq!(MoveParameters::from_command("2 2 0"), Err(ParseError::NotAnInteger));
}

#[test]
fn digits_are_read_by_position() {
    assert_eq!(
        MoveParameters::from_command("220"),
        Ok(params(ScreenSelector::Index(2), (2, 0, 0), (1, 0, 0)))
    );
}

#[test]
fn right_half_of_the_leftmost_screen() {
    assert_eq!(
        MoveParameters::from_command("l21"),
        Ok(params(ScreenSelector::Char('l'), (2, 1, 1), (1, 0, 0)))
    );
}

#[test]
fn a_dash_must_follow_a_start() {
    // After `m33` the next field is the number of rows, here 0, and the
    // dash then stands where the first row is expected.
    assert_eq!(MoveParameters::from_command("m330-1"), Err(ParseError::NotAnInteger));
}

#[test]
fn a_range_of_columns() {
    assert_eq!(
        MoveParameters::from_command("m30-1"),
        Ok(params(ScreenSelector::Char('m'), (3, 0, 1), (1, 0, 0)))
    );
}

#[test]
fn a_full_command() {
    assert_eq!(
        MoveParameters::from_command("1312"),
        Ok(params(ScreenSelector::Index(1), (3, 1, 1), (2, 0, 0)))
    );
    assert_eq!(
        MoveParameters::from_command("13121"),
        Ok(params(ScreenSelector::Index(1), (3, 1, 1), (2, 1, 1)))
    );
    assert_eq!(
        MoveParameters::from_command("t40-241-3"),
        Ok(params(ScreenSelector::Char('t'), (4, 0, 2), (4, 1, 3)))
    );
    assert_eq!(
        MoveParameters::from_command("t4041-3"),
        Ok(params(ScreenSelector::Char('t'), (4, 0, 0), (4, 1, 3)))
    );
    assert_eq!(
        MoveParameters::from_command("t40-241"),
        Ok(params(ScreenSelector::Char('t'), (4, 0, 2), (4, 1, 1)))
    );
}

#[test]
fn a_command_may_stop_after_any_field() {
    assert_eq!(
        MoveParameters::from_command("b3"),
        Ok(params(ScreenSelector::Char('b'), (3, 0, 0), (1, 0, 0)))
    );
    assert_eq!(
        MoveParameters::from_command("b32-2"),
        Ok(params(ScreenSelector::Char('b'), (3, 2, 2), (1, 0, 0)))
    );
    assert_eq!(
        MoveParameters::from_command("b32-25"),
        Ok(params(ScreenSelector::Char('b'), (3, 2, 2), (5, 0, 0)))
    );
}

#[test]
fn an_empty_command_has_no_selector() {
    assert_eq!(MoveParameters::from_command(""), Err(ParseError::NoMoreItems));
}

#[test]
fn a_dash_needs_its_digit() {
    assert_eq!(MoveParameters::from_command("020-"), Err(ParseError::NoMoreItems));
    assert_eq!(MoveParameters::from_command("020-120-"), Err(ParseError::NoMoreItems));
    assert_eq!(MoveParameters::from_command("020-x"), Err(ParseError::NotAnInteger));
    assert_eq!(MoveParameters::from_command("020-120--"), Err(ParseError::NotAnInteger));
}

#[test]
fn letters_are_no_numbers() {
    assert_eq!(MoveParameters::from_command("0x"), Err(ParseError::NotAnInteger));
    assert_eq!(MoveParameters::from_command("02x"), Err(ParseError::NotAnInteger));
    assert_eq!(MoveParameters::from_command("020x"), Err(ParseError::NotAnInteger));
    assert_eq!(MoveParameters::from_command("0202x"), Err(ParseError::NotAnInteger));
    assert_eq!(MoveParameters::from_command("0-"), Err(ParseError::NotAnInteger));
}

#[test]
fn nothing_may_follow_a_complete_command() {
    assert_eq!(MoveParameters::from_command("020201"), Err(ParseError::NoMoreInputExpected));
    assert_eq!(MoveParameters::from_command("02020x"), Err(ParseError::NoMoreInputExpected));
    assert_eq!(MoveParameters::from_command("02020-11"), Err(ParseError::NoMoreInputExpected));
    assert_eq!(MoveParameters::from_command("020-120-1 "), Err(ParseError::NoMoreInputExpected));
}

#[test]
fn only_ascii_digits_count() {
    // An Arabic-Indic digit is a letter to the command language.
    assert_eq!(
        MoveParameters::from_command("\u{0663}"),
        Ok(params(ScreenSelector::Char('\u{0663}'), (1, 0, 0), (1, 0, 0)))
    );
    assert_eq!(MoveParameters::from_command("0\u{0663}"), Err(ParseError::NotAnInteger));
}

#[test]
fn positions_count_characters_not_bytes() {
    assert_eq!(
        MoveParameters::from_command("\u{00e9}21"),
        Ok(params(ScreenSelector::Char('\u{00e9}'), (2, 1, 1), (1, 0, 0)))
    );
}

#[test]
fn next_integer_reads_one_digit() {
    assert_eq!(next_integer("a7", 1), Ok(7));
    assert_eq!(next_integer("a7", 0), Err(ParseError::NotAnInteger));
    assert_eq!(next_integer("a7", 2), Err(ParseError::NoMoreItems));
    assert_eq!(next_integer("09", 0), Ok(0));
    assert_eq!(next_integer("09", 1), Ok(9));
}

#[test]
fn every_expressible_command_parses_back() {
    // Spell every combination of a few selectors and digits out in full and
    // read it again.
    let selectors = [ScreenSelector::Index(0), ScreenSelector::Index(9), ScreenSelector::Char('l')];
    for screen in selectors {
        for a in [0, 3, 9] {
            for b in [0, 4, 9] {
                for c in [0, 5, 9] {
                    let p = params(screen, (a, b, c), (c, a, b));
                    let head = match screen {
                        ScreenSelector::Index(n) => format!("{}", n),
                        ScreenSelector::Char(ch) => format!("{}", ch),
                    };
                    let text = format!("{}{}{}-{}{}{}-{}", head, a, b, c, c, a, b);
                    assert_eq!(MoveParameters::from_command(&text), Ok(p));
                }
            }
        }
    }
}

#[test]
fn every_short_string_is_judged() {
    // Whatever the string, parsing ends with parameters made of single
    // digits or with an error.
    let alphabet = ['0', '5', '9', '-', 'l', ' '];
    let mut texts = vec![String::new()];
    for _ in 0..5 {
        let mut longer = Vec::new();
        for t in &texts {
            for c in alphabet {
                let mut n = t.clone();
                n.push(c);
                longer.push(n);
            }
        }
        for text in &longer {
            match MoveParameters::from_command(text) {
                Ok(p) => {
                    for v in [p.x_ratio, p.x_start, p.x_end, p.y_ratio, p.y_start, p.y_end] {
                        assert!((0..=9).contains(&v));
                    }
                }
                Err(e) => assert!(matches!(
                    e,
                    ParseError::NoMoreItems
                        | ParseError::NotAnInteger
                        | ParseError::NoMoreInputExpected
                )),
            }
        }
        texts = longer;
    }
}

fn digit(c: Option<&char>) -> bool {
    matches!(c, Some(d) if d.is_ascii_digit())
}

/// The grammar, written down once more.
fn is_command(s: &[char]) -> bool {
    let rows = if s.len() > 3 && s[3] == '-' { 5 } else { 3 };
    !s.is_empty()
        && (s.len() <= 1 || digit(s.get(1)))
        && (s.len() <= 2 || digit(s.get(2)))
        && (rows != 5 || digit(s.get(4)))
        && (s.len() <= rows || digit(s.get(rows)))
        && (s.len() <= rows + 1 || digit(s.get(rows + 1)))
        && (s.len() <= rows + 2
            || (s[rows + 2] == '-' && s.len() == rows + 4 && digit(s.get(rows + 3))))
}

#[test]
fn exactly_the_commands_of_the_grammar_parse() {
    let alphabet = ['0', '7', '-', 'l'];
    let mut texts: Vec<Vec<char>> = vec![Vec::new()];
    let mut accepted = 0;
    for _ in 0..10 {
        let mut longer = Vec::new();
        for t in &texts {
            // Strings that can no longer become a command are not grown.
            if t.len() >= 2 && !is_command(t) && !is_command(&t[..t.len() - 1]) {
                continue;
            }
            for c in alphabet {
                let mut n = t.clone();
                n.push(c);
                longer.push(n);
            }
        }
        for text in &longer {
            let string: String = text.iter().collect();
            let parsed = MoveParameters::from_command(&string);
            assert_eq!(parsed.is_ok(), is_command(text), "{:?}", string);
            if parsed.is_ok() {
                accepted += 1;
            }
        }
        texts = longer;
    }
    // Four selectors, two digits to choose from: 4, 8, 16 and 32 commands
    // that end with the columns, and behind each of the last 16 and 32 of
    // them 2, 4 and 8 ways to go on with the rows.
    assert_eq!(accepted, 4 + 8 + 16 + 32 + (16 + 32) * (2 + 4 + 8));
}

#[test]
fn parse_errors_in_words() {
    assert_eq!(ParseError::NoMoreItems.message(), "No more items");
    assert_eq!(ParseError::NotAnInteger.message(), "Next not an integer.");
    assert_eq!(ParseError::NoMoreInputExpected.message(), "No more input expected.");
}
