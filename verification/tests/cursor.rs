use webparse::parser::{ParseError, Parser};

#[test]
fn next_char() {
    let pars = Parser { input: String::from("Hello, World"), pos: 3 };

    assert_eq!(pars.next_char().unwrap(), 'l');
}

#[test]
fn consume_while() {
    let mut pars = Parser { input: String::from("Hello, World"), pos: 7 };

    pars.consume_while(|c| match c {
        'A'..='Z' | 'a'..='z' | ',' | ' ' => true,
        _ => {
            assert!(false);
            false
        }
    });
}

#[test]
fn consume_char() {
    let mut pars = Parser { input: String::from("Hello, World"), pos: 7 };

    assert_eq!(pars.consume_char().unwrap(), 'W');
    assert_eq!(pars.consume_char().unwrap(), 'o');
}

#[test]
fn new_cursor_starts_at_zero() {
    let pars = Parser::new(String::from("abc"));
    assert_eq!(pars.pos, 0);
    assert_eq!(pars.input, "abc");
    assert_eq!(pars.next_char(), Ok('a'));
}

#[test]
fn next_char_does_not_move() {
    let pars = Parser { input: String::from("xy"), pos: 1 };
    assert_eq!(pars.next_char(), Ok('y'));
    assert_eq!(pars.next_char(), Ok('y'));
    assert_eq!(pars.pos, 1);
}

#[test]
fn next_char_at_end_is_end_of_input() {
    let pars = Parser { input: String::from("xy"), pos: 2 };
    assert_eq!(pars.next_char(), Err(ParseError::EndOfInput));
    let empty = Parser::new(String::new());
    assert_eq!(empty.next_char(), Err(ParseError::EndOfInput));
}

#[test]
fn consume_char_at_end_is_end_of_input_and_stays() {
    let mut pars = Parser { input: String::from("a"), pos: 0 };
    assert_eq!(pars.consume_char(), Ok('a'));
    assert_eq!(pars.pos, 1);
    assert_eq!(pars.consume_char(), Err(ParseError::EndOfInput));
    assert_eq!(pars.pos, 1);
}

#[test]
fn consume_char_steps_over_whole_characters() {
    // 'é' takes two bytes, '€' three, '😀' four.
    let mut pars = Parser::new(String::from("aé€😀z"));
    assert_eq!(pars.consume_char(), Ok('a'));
    assert_eq!(pars.pos, 1);
    assert_eq!(pars.consume_char(), Ok('é'));
    assert_eq!(pars.pos, 3);
    assert_eq!(pars.consume_char(), Ok('€'));
    assert_eq!(pars.pos, 6);
    assert_eq!(pars.consume_char(), Ok('😀'));
    assert_eq!(pars.pos, 10);
    assert_eq!(pars.consume_char(), Ok('z'));
    assert_eq!(pars.pos, 11);
    assert!(pars.eof());
}

#[test]
fn consume_char_steps_over_a_last_wide_character() {
    let mut pars = Parser::new(String::from("é"));
    assert_eq!(pars.consume_char(), Ok('é'));
    assert_eq!(pars.pos, 2);
    assert!(pars.eof());
    assert_eq!(pars.consume_char(), Err(ParseError::EndOfInput));
}

#[test]
fn consume_while_returns_the_run() {
    let mut pars = Parser { input: String::from("Hello, World"), pos: 0 };
    let run = pars.consume_while(|c| c.is_ascii_alphabetic());
    assert_eq!(run, "Hello");
    assert_eq!(pars.pos, 5);
    assert_eq!(pars.next_char(), Ok(','));
}

#[test]
fn consume_while_may_return_nothing() {
    let mut pars = Parser { input: String::from("Hello"), pos: 2 };
    let run = pars.consume_while(|c| c == 'x');
    assert_eq!(run, "");
    assert_eq!(pars.pos, 2);
}

#[test]
fn consume_while_stops_at_the_end() {
    let mut pars = Parser { input: String::from("aaaa"), pos: 1 };
    let run = pars.consume_while(|c| c == 'a');
    assert_eq!(run, "aaa");
    assert!(pars.eof());
    let again = pars.consume_while(|c| c == 'a');
    assert_eq!(again, "");
}

#[test]
fn consume_while_keeps_wide_characters_whole() {
    let mut pars = Parser::new(String::from("żółw<"));
    let run = pars.consume_while(|c| c != '<');
    assert_eq!(run, "żółw");
    assert_eq!(pars.pos, "żółw".len());
    assert_eq!(pars.next_char(), Ok('<'));
}

#[test]
fn consume_whitespace_skips_spaces_and_newlines_only() {
    let mut pars = Parser::new(String::from(" \n \n\tx"));
    pars.consume_whitespace();
    assert_eq!(pars.pos, 4);
    assert_eq!(pars.next_char(), Ok('\t'));
    pars.consume_whitespace();
    assert_eq!(pars.pos, 4);
}

#[test]
fn consume_whitespace_on_none_stays() {
    let mut pars = Parser::new(String::from("x "));
    pars.consume_whitespace();
    assert_eq!(pars.pos, 0);
}

#[test]
fn consume_sequence_reads_the_literal() {
    let mut pars = Parser::new(String::from("<!--x"));
    assert_eq!(pars.consume_sequence("<!--"), Ok(()));
    assert_eq!(pars.pos, 4);
    assert_eq!(pars.next_char(), Ok('x'));
}

#[test]
fn consume_sequence_of_nothing_reads_nothing() {
    let mut pars = Parser::new(String::from("abc"));
    assert_eq!(pars.consume_sequence(""), Ok(()));
    assert_eq!(pars.pos, 0);
}

#[test]
fn consume_sequence_stops_behind_the_first_mismatch() {
    let mut pars = Parser::new(String::from("-->"));
    assert_eq!(pars.consume_sequence("-x>"), Err(ParseError::UnexpectedToken));
    // '-' matched, '-' against 'x' did not, and both were consumed.
    assert_eq!(pars.pos, 2);
}

#[test]
fn consume_sequence_at_first_character_mismatch() {
    let mut pars = Parser::new(String::from("abc"));
    assert_eq!(pars.consume_sequence("xbc"), Err(ParseError::UnexpectedToken));
    assert_eq!(pars.pos, 1);
}

#[test]
fn consume_sequence_past_the_end_is_end_of_input() {
    let mut pars = Parser::new(String::from("--"));
    assert_eq!(pars.consume_sequence("-->"), Err(ParseError::EndOfInput));
    assert_eq!(pars.pos, 2);
}

#[test]
fn consume_sequence_with_wide_characters() {
    let mut pars = Parser::new(String::from("→→x"));
    assert_eq!(pars.consume_sequence("→→"), Ok(()));
    assert_eq!(pars.pos, 6);
}

#[test]
fn starts_with_tests_the_rest_only() {
    let pars = Parser { input: String::from("ab</c"), pos: 2 };
    assert!(pars.starts_with("</"));
    assert!(pars.starts_with("</c"));
    assert!(pars.starts_with(""));
    assert!(!pars.starts_with("ab"));
    assert!(!pars.starts_with("</cd"));
    assert!(!pars.starts_with("<c"));
    assert_eq!(pars.pos, 2);
}

#[test]
fn starts_with_at_the_end() {
    let pars = Parser { input: String::from("ab"), pos: 2 };
    assert!(pars.starts_with(""));
    assert!(!pars.starts_with("a"));
}

#[test]
fn eof_is_offset_at_or_past_length() {
    assert!(Parser::new(String::new()).eof());
    assert!(!Parser { input: String::from("ab"), pos: 1 }.eof());
    assert!(Parser { input: String::from("ab"), pos: 2 }.eof());
    assert!(Parser { input: String::from("ab"), pos: 5 }.eof());
}

#[test]
fn offset_only_grows() {
    let mut pars = Parser::new(String::from("a b<c"));
    let mut last = pars.pos;
    let _ = pars.consume_char();
    assert!(pars.pos >= last);
    last = pars.pos;
    pars.consume_whitespace();
    assert!(pars.pos >= last);
    last = pars.pos;
    let _ = pars.consume_while(|c| c != '<');
    assert!(pars.pos >= last);
    last = pars.pos;
    let _ = pars.consume_sequence("<x");
    assert!(pars.pos >= last);
    assert!(pars.pos <= pars.input.len());
}
