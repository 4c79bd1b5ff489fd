//! The filter language: its tokens, its grammar and what it matches.

use sparse::event::{Event, EventContent, MessageKind, Relation, RoomMessage};
use sparse::search::{
    parse_and, parse_filter_item, parse_from_tokens, skip_whitespace, tok_string, tok_text,
    tok_whitespace, tokenize, Filter, FilterExpression, Token, TokenizeError,
};

#[test]
fn test_tokenize() {
    assert_eq!(tokenize(""), Ok(vec![]));
    assert_eq!(
        tokenize("()~b"),
        Ok(vec![Token::LParen, Token::RParen, Token::Type('b')])
    );
    assert_eq!(
        tokenize("~b asdf"),
        Ok(vec![
            Token::Type('b'),
            Token::Whitespace(" ".to_owned()),
            Token::Text("asdf".to_owned())
        ])
    );
    assert_eq!(
        tokenize("|asdf\"~\"\t "),
        Ok(vec![
            Token::Bar,
            Token::Text("asdf".to_owned()),
            Token::Text("~".to_owned()),
            Token::Whitespace("\t ".to_owned()),
        ])
    );
    assert_eq!(
        tokenize("\"\\\"\"\t "),
        Ok(vec![
            Token::Text("\"".to_owned()),
            Token::Whitespace("\t ".to_owned()),
        ])
    );
}

#[test]
fn test_parse_default() {
    assert_eq!(
        FilterExpression::parse("foo"),
        Ok(FilterExpression::Body("foo".to_owned()))
    );
    assert_eq!(
        FilterExpression::parse("  foo "),
        Ok(FilterExpression::Body("foo".to_owned()))
    );
    assert_eq!(
        FilterExpression::parse(" \"  foo \""),
        Ok(FilterExpression::Body("  foo ".to_owned()))
    );
}

#[test]
fn test_parse_quote() {
    assert_eq!(
        FilterExpression::parse("\"foo\""),
        Ok(FilterExpression::Body("foo".to_owned()))
    );
    assert_eq!(
        FilterExpression::parse("\"~foo\""),
        Ok(FilterExpression::Body("~foo".to_owned()))
    );
    assert_eq!(
        FilterExpression::parse("~b \"~foo\""),
        Ok(FilterExpression::Body("~foo".to_owned()))
    );
    assert_eq!(
        FilterExpression::parse("~b \"fo!o\""),
        Ok(FilterExpression::Body("fo!o".to_owned()))
    );
    assert_eq!(
        FilterExpression::parse(r#"~b "\"" "#),
        Ok(FilterExpression::Body("\"".to_owned()))
    );
}

#[test]
fn test_parse_body() {
    assert_eq!(
        FilterExpression::parse("~b foo"),
        Ok(FilterExpression::Body("foo".to_owned()))
    );
    assert_eq!(
        FilterExpression::parse("  ~bfoo "),
        Ok(FilterExpression::Body("foo".to_owned()))
    );
    assert_eq!(
        FilterExpression::parse(" ~b\"  foo \""),
        Ok(FilterExpression::Body("  foo ".to_owned()))
    );
}

#[test]
fn test_parse_sender() {
    assert_eq!(
        FilterExpression::parse("~f foo"),
        Ok(FilterExpression::Sender("foo".to_owned()))
    );
    assert_eq!(
        FilterExpression::parse("  ~ffoo "),
        Ok(FilterExpression::Sender("foo".to_owned()))
    );
    assert_eq!(
        FilterExpression::parse(" ~f\"  foo \""),
        Ok(FilterExpression::Sender("  foo ".to_owned()))
    );
}

#[test]
fn test_parse_and() {
    assert_eq!(
        FilterExpression::parse("bla ~f foo"),
        Ok(FilterExpression::And(vec![
            FilterExpression::Body("bla".to_owned()),
            FilterExpression::Sender("foo".to_owned())
        ]))
    );
    assert_eq!(
        FilterExpression::parse("~f bla ~f foo"),
        Ok(FilterExpression::And(vec![
            FilterExpression::Sender("bla".to_owned()),
            FilterExpression::Sender("foo".to_owned())
        ]))
    );
    assert_eq!(
        FilterExpression::parse("~f bla ~f \"foo\" ~bbar oi"),
        Ok(FilterExpression::And(vec![
            FilterExpression::Sender("bla".to_owned()),
            FilterExpression::Sender("foo".to_owned()),
            FilterExpression::Body("bar oi".to_owned())
        ]))
    );
}

#[test]
fn test_parse_or() {
    assert_eq!(
        FilterExpression::parse("bla | ~f foo"),
        Ok(FilterExpression::Or(vec![
            FilterExpression::Body("bla".to_owned()),
            FilterExpression::Sender("foo".to_owned())
        ]))
    );
    assert_eq!(
        FilterExpression::parse("~f bla | ~f foo"),
        Ok(FilterExpression::Or(vec![
            FilterExpression::Sender("bla".to_owned()),
            FilterExpression::Sender("foo".to_owned())
        ]))
    );
    assert_eq!(
        FilterExpression::parse("~f bla bli | ~f \"foo\" | ~bbar oi"),
        Ok(FilterExpression::Or(vec![
            FilterExpression::Sender("bla bli".to_owned()),
            FilterExpression::Sender("foo".to_owned()),
            FilterExpression::Body("bar oi".to_owned())
        ]))
    );
}

#[test]
fn test_parse_not() {
    assert_eq!(
        FilterExpression::parse("!foo"),
        Ok(FilterExpression::Not(Box::new(FilterExpression::Body(
            "foo".to_owned()
        ))))
    );
    assert_eq!(
        FilterExpression::parse("bla !foo"),
        Ok(FilterExpression::And(vec![
            FilterExpression::Body("bla".to_owned()),
            FilterExpression::Not(Box::new(FilterExpression::Body("foo".to_owned())))
        ]))
    );
    assert_eq!(
        FilterExpression::parse("~bbla !~ffoo"),
        Ok(FilterExpression::And(vec![
            FilterExpression::Body("bla".to_owned()),
            FilterExpression::Not(Box::new(FilterExpression::Sender("foo".to_owned())))
        ]))
    );
    assert_eq!(
        FilterExpression::parse("~bbla !(~ffoo | ~bbli)"),
        Ok(FilterExpression::And(vec![
            FilterExpression::Body("bla".to_owned()),
            FilterExpression::Not(Box::new(FilterExpression::Or(vec![
                FilterExpression::Sender("foo".to_owned()),
                FilterExpression::Body("bli".to_owned()),
            ])))
        ]))
    );
}

#[test]
fn test_parse_complex() {
    assert_eq!(
        FilterExpression::parse("~f \"bla ~!()\"bli"),
        Ok(FilterExpression::Sender("bla ~!()bli".to_owned()))
    );
    assert_eq!(
        FilterExpression::parse("~f bla | (asdf ~b foo)"),
        Ok(FilterExpression::Or(vec![
            FilterExpression::Sender("bla".to_owned()),
            FilterExpression::And(vec![
                FilterExpression::Body("asdf".to_owned()),
                FilterExpression::Body("foo".to_owned()),
            ])
        ]))
    );
}

fn message(sender: &str, body: &str) -> Event {
    Event {
        event_id: "$e".to_owned(),
        sender: sender.to_owned(),
        timestamp: 0,
        content: EventContent::Message(RoomMessage {
            body: body.to_owned(),
            kind: MessageKind::Text,
            relates_to: Relation::Unrelated,
            debug: String::new(),
        }),
    }
}

#[test]
fn errors_of_the_tokenizer() {
    assert_eq!(tokenize("a ~"), Err(TokenizeError::UnfinishedType(2)));
    assert_eq!(tokenize("a \"b"), Err(TokenizeError::UnfinishedString(2)));
    assert_eq!(tokenize("\"b\\"), Err(TokenizeError::UnfinishedString(0)));
    assert_eq!(tokenize("\"\\xyz\""), Err(TokenizeError::InvalidEscape(1, Some(3))));
    assert_eq!(tokenize("\"\\x"), Err(TokenizeError::InvalidEscape(1, None)));
}

#[test]
fn errors_of_the_tokenizer_count_bytes() {
    assert_eq!(tokenize("é~"), Err(TokenizeError::UnfinishedType(2)));
    assert_eq!(tokenize("€ \"b"), Err(TokenizeError::UnfinishedString(4)));
    assert_eq!(tokenize("😀\"é\\"), Err(TokenizeError::UnfinishedString(4)));
    assert_eq!(tokenize("\"é\\q"), Err(TokenizeError::InvalidEscape(3, None)));
    assert_eq!(tokenize("\"é\\€x"), Err(TokenizeError::InvalidEscape(3, Some(7))));
    let error = |s: &str| FilterExpression::parse(s).unwrap_err();
    assert_eq!(error("é~"), "Unfinished filter type: ~");
    assert_eq!(error("€ \"bé"), "Unfinished string: \"bé");
    assert_eq!(error("\"é\\q"), "Invalid escape expression: \\q");
    assert_eq!(error("😀\"é\\€x"), "Invalid escape expression: \\€");
}

#[test]
fn a_string_with_an_error_is_read_up_to_the_error() {
    let until = |s: &str| {
        let chars: Vec<char> = s.chars().collect();
        let mut at: usize = 0;
        assert!(tok_string(&chars, &mut at).is_err());
        at
    };
    assert_eq!(until("\"é\\€xyz\""), 5);
    assert_eq!(until("\"é\\€"), 4);
    assert_eq!(until("\"abc"), 4);
    assert_eq!(until("\"abc\\"), 5);
}

#[test]
fn parsers_stop_where_they_fail() {
    let tokens = tokenize(" \t ) a").unwrap();
    let mut at: usize = 0;
    assert_eq!(parse_and(&tokens, &mut at), Err("Need at least one filter".to_owned()));
    assert_eq!(at, 1);
    let tokens = tokenize("~x a b | c").unwrap();
    let mut at: usize = 0;
    assert!(parse_filter_item(&tokens, &mut at).is_err());
    assert_eq!(tokens[at], Token::Bar);
    let mut at: usize = 0;
    assert!(parse_and(&tokens, &mut at).is_err());
    assert_eq!(tokens[at], Token::Bar);
    let tokens = tokenize("~b (a)").unwrap();
    let mut at: usize = 0;
    assert!(parse_filter_item(&tokens, &mut at).is_err());
    assert_eq!(at, 2);
    let tokens = tokenize("a | (b |  ) c").unwrap();
    let mut at: usize = 0;
    assert!(parse_from_tokens(&tokens, &mut at).is_err());
    assert_eq!(tokens[at], Token::RParen);
}

#[test]
fn unquoted_tokens_join_to_the_text() {
    let text = " ~f äb|c \t(!d)| !~ e";
    let mut joined = String::new();
    let tokens = tokenize(text).unwrap();
    for token in &tokens {
        match token {
            Token::LParen => joined.push('('),
            Token::RParen => joined.push(')'),
            Token::Bar => joined.push('|'),
            Token::Exclamation => joined.push('!'),
            Token::Type(c) => {
                joined.push('~');
                joined.push(*c);
            }
            Token::Text(s) | Token::Whitespace(s) => {
                assert!(!s.is_empty());
                joined.push_str(s);
            }
        }
    }
    assert_eq!(joined, text);
    for pair in tokens.windows(2) {
        assert!(!matches!(pair, [Token::Text(_), Token::Text(_)]));
        assert!(!matches!(pair, [Token::Whitespace(_), Token::Whitespace(_)]));
    }
}

#[test]
fn an_exclamation_mark_negates_a_filter() {
    let matches = |s: &str, event: &Event| Filter::parse(s).unwrap().matches(event);
    let events = [message("@anna:b", "one two"), message("@otto:b", "three")];
    for filter in ["one", "one | ~f otto", "(two ~f otto)", "!three ", "\"o n\" | ~f anna"] {
        for event in &events {
            let once = format!("!{}", filter);
            let twice = format!("!!{}", filter);
            assert_eq!(matches(&once, event), !matches(filter, event));
            assert_eq!(matches(&twice, event), matches(filter, event));
        }
    }
    // Behind a group, the words count only with the mark.
    assert!(matches("(one) three", &events[0]));
    assert!(!matches("!(one) three", &events[0]));
    assert!(matches("!(one) three", &events[1]));
}

#[test]
fn single_tokens_are_read_from_their_place() {
    let chars: Vec<char> = "\"a\\n\\t\" b|c ".chars().collect();
    let mut at: usize = 0;
    assert_eq!(tok_string(&chars, &mut at), Ok(Token::Text("a\n\t".to_owned())));
    assert_eq!(at, 7);
    assert_eq!(tok_whitespace(&chars, &mut at), Token::Whitespace(" ".to_owned()));
    assert_eq!(tok_text(&chars, &mut at), Token::Text("b|c".to_owned()));
    assert_eq!(at, 11);
}

#[test]
fn parsers_stop_where_their_part_ends() {
    let tokens = tokenize("  ~f foo | bar) rest").unwrap();
    let mut at: usize = 0;
    skip_whitespace(&tokens, &mut at);
    assert_eq!(at, 1);
    assert_eq!(
        parse_filter_item(&tokens, &mut at),
        Ok(FilterExpression::Sender("foo".to_owned()))
    );
    assert_eq!(tokens[at], Token::Bar);
    let mut at: usize = 0;
    assert_eq!(parse_and(&tokens, &mut at), Ok(FilterExpression::Sender("foo".to_owned())));
    assert_eq!(tokens[at], Token::Bar);
    let mut at: usize = 0;
    assert_eq!(
        parse_from_tokens(&tokens, &mut at),
        Ok(FilterExpression::Or(vec![
            FilterExpression::Sender("foo".to_owned()),
            FilterExpression::Body("bar".to_owned()),
        ]))
    );
    assert_eq!(tokens[at], Token::RParen);
}

#[test]
fn errors_of_the_parser() {
    let error = |s: &str| FilterExpression::parse(s).unwrap_err();
    assert_eq!(error(""), "Need at least one filter");
    assert_eq!(error("a |"), "Need at least one filter");
    assert_eq!(error("(a"), "Parenthesis not closed");
    assert_eq!(error("~x a"), "Invalid filter type 'x'");
    assert_eq!(error("~b"), "Missing filter []");
    assert_eq!(
        error("~b ~f\" \"\"a\\\"\""),
        "Missing filter [Type('f'), Text(\" \"), Text(\"a\\\"\")]"
    );
    assert_eq!(error("~b (|!)\t"), "Missing filter [LParen, Bar, Exclamation, RParen, Whitespace(\"\\t\")]");
    assert_eq!(error("a \"b\\xc"), "Invalid escape expression: \\x");
    assert_eq!(error("a \"b\\x"), "Invalid escape expression: \\x");
    assert_eq!(error("ä \"b"), "Unfinished string: \"b");
    assert_eq!(error("a ~"), "Unfinished filter type: ~");
}

#[test]
fn quoted_text_is_a_filter_on_the_body() {
    assert_eq!(
        FilterExpression::parse("\"(a\\\\|b) \\\"~f\\\"\""),
        Ok(FilterExpression::Body("(a\\|b) \"~f\"".to_owned()))
    );
}

#[test]
fn a_plain_word_is_a_filter_on_the_body() {
    assert_eq!(
        FilterExpression::parse("wörd|!x"),
        Ok(FilterExpression::Body("wörd|!x".to_owned()))
    );
}

#[test]
fn single_filters_are_not_wrapped() {
    assert_eq!(
        FilterExpression::parse("((a))"),
        Ok(FilterExpression::Body("a".to_owned()))
    );
}

#[test]
fn filters_match_by_regular_expressions() {
    let matches = |s: &str, event: &Event| Filter::parse(s).unwrap().matches(event);
    let event = message("@anna:example.org", "I know 42 things");
    assert!(matches("~f ^@an+a:", &event));
    assert!(!matches("~f ^an+a:", &event));
    assert!(matches("[0-9]+", &event));
    assert!(!matches("[a-c]+", &event));
    assert!(matches("!foo", &event));
    assert!(matches("know ~f anna", &event));
    assert!(!matches("know ~f otto", &event));
    assert!(matches("foo | things", &event));
    assert!(!matches("foo | bar", &event));
}

#[test]
fn the_quotation_of_a_reply_is_not_searched() {
    let event = message("@a:b", "> <@c:d> quoted\n\nanswer");
    assert!(Filter::parse("answer").unwrap().matches(&event));
    assert!(!Filter::parse("quoted").unwrap().matches(&event));
}

#[test]
fn only_messages_have_a_body() {
    let event = Event {
        event_id: "$e".to_owned(),
        sender: "@a:b".to_owned(),
        timestamp: 0,
        content: EventContent::Encrypted,
    };
    assert!(!Filter::parse("\"\"").unwrap().matches(&event));
    assert!(Filter::parse("!\"\"").unwrap().matches(&event));
    assert!(Filter::parse("~f \"\"").unwrap().matches(&event));
}

#[test]
fn the_first_invalid_pattern_is_reported() {
    let error = |s: &str| Filter::parse(s).err().unwrap();
    let expected = regex::Regex::new("a[").unwrap_err().to_string();
    assert_eq!(error("~b \"a[\" ~f \"*\""), expected);
    let expected = regex::Regex::new("*").unwrap_err().to_string();
    assert_eq!(error("x | !~f * | \"a[\""), expected);
    assert_eq!(error("~"), "Unfinished filter type: ~");
}
