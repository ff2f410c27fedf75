use calc::error::ParseError;
use calc::lex::{eat_spaces, get_op, lex, lex_num, Decimal, Lexer, Op, Token};

fn chars(s: &str) -> Vec<char> {
    s.chars().collect()
}

#[test]
fn test_lex_num() {
    let ch = chars("123");
    let res = match lex_num(&ch, 0) {
        (Token::Int(i), ..) => i,
        (Token::Invalid, ..) => panic!("should not get invalid token for \"123\""),
        _ => 0,
    };
    assert_eq!(res, 123);
}

#[test]
fn test_eat_spaces() {
    let ch = chars("    a");
    match eat_spaces(&ch, 0) {
        (Some(c), ..) => assert_eq!(c, 'a'),
        (None, ..) => panic!("expected 'a'"),
    }
    let ch = chars("a");
    assert_eq!('a', eat_spaces(&ch, 0).0.unwrap());
}

#[test]
fn lex_test_both_lexers() {
    let s = "1 + (3 / 2) * 4";
    let mut toks1 = vec![];
    let mut l = Lexer::new(s);
    while let Some(t) = l.next() {
        toks1.push(t);
    }
    let toks2 = lex(s);
    assert_eq!(toks1, toks2);
}

#[test]
fn test_look_ahead() {
    let s = "1+2";
    let mut l = Lexer::new(s);
    assert_eq!(Token::End, l.look_ahead(5));
    assert_eq!(Token::End, l.look_ahead(10));
}

#[test]
fn lex_test_lex() {
    let s = "5 + 335 * (1.5+1)";
    let expected = vec![
        Token::Int(5),
        Token::Op('+'),
        Token::Int(335),
        Token::Op('*'),
        Token::OpenParen,
        Token::Float(Decimal { mantissa: 15, scale: 1 }),
        Token::Op('+'),
        Token::Int(1),
        Token::CloseParen,
    ];
    let res = lex(s);
    assert!(res.len() > 1);
    assert_eq!(res.len(), expected.len());

    for i in 0..expected.len() - 1 {
        assert_eq!(expected[i], res[i]);
    }

    let mut l = Lexer::new(s);
    loop {
        let p = l.peek().clone();
        let n = l.next().unwrap_or(Token::End);

        match (p, n) {
            (Token::Int(a), Token::Int(b)) => assert_eq!(a, b),
            (Token::Float(a), Token::Float(b)) => assert_eq!(a, b),
            (Token::Op(a), Token::Op(b)) => assert_eq!(a, b),
            (Token::OpenParen, Token::OpenParen) => (),
            (Token::CloseParen, Token::CloseParen) => (),
            (Token::End, Token::End) => break,
            (Token::Invalid, Token::Invalid) => break,
            _ => panic!("tokens should be the same"),
        }
    }
}

#[test]
fn test_lex_iter() {
    let mut l = Lexer::new("1+1");
    let p = l.peek().clone();
    assert_eq!(p, Token::Int(1));
    assert_eq!(l.look_ahead(0), p);
    assert_eq!(l.look_ahead(1), Token::Op('+'));
    assert_eq!(l.look_ahead(2), Token::Int(1));
    match l.peek().clone() {
        Token::Int(n) => assert_eq!(n, 1),
        _ => panic!("expected the number one"),
    }
    l.next();
    match l.peek().clone() {
        Token::Op(c) => assert_eq!(c, '+'),
        _ => panic!("expected '+'"),
    }
    l.next();
    match l.peek().clone() {
        Token::Int(n) => assert_eq!(n, 1),
        _ => panic!("expected number one"),
    }
    let mut l = Lexer::new("1 + 1 + 1");
    while let Some(t) = l.next() {
        match t {
            Token::Int(1) | Token::Op('+') | Token::End => {}
            Token::Invalid => {
                println!("invalid");
                break;
            }
            _ => panic!("got wrong token, {:?}", t),
        }
    }
}

#[test]
fn test_lexical() {
    let s = "1+2";
    let mut l = Lexer::new(s);
    assert_eq!(Token::End, l.look_ahead(5));
    assert_eq!(Token::End, l.look_ahead(10));
}

#[test]
fn lex_test_test_lex() {
    let s = "5 + 335 * (1.5+1)";
    let expected = vec![
        Token::Int(5),
        Token::Op('+'),
        Token::Int(335),
        Token::Op('*'),
        Token::OpenParen,
        Token::Float(Decimal { mantissa: 15, scale: 1 }),
        Token::Op('+'),
        Token::Int(1),
        Token::CloseParen,
    ];
    let res = lex(s);
    assert!(res.len() > 1);
    assert_eq!(res.len(), expected.len());

    for i in 0..expected.len() - 1 {
        assert_eq!(expected[i], res[i]);
    }

    let mut l = Lexer::new(s);
    loop {
        let p = l.peek().clone();
        let n = l.next().unwrap_or(Token::End);

        match (p, n) {
            (Token::Int(a), Token::Int(b)) => assert_eq!(a, b),
            (Token::Float(a), Token::Float(b)) => assert_eq!(a, b),
            (Token::Op(a), Token::Op(b)) => assert_eq!(a, b),
            (Token::OpenParen, Token::OpenParen) => (),
            (Token::CloseParen, Token::CloseParen) => (),
            (Token::End, Token::End) => break,
            _ => panic!("tokens should be the same"),
        }
    }
}

#[test]
fn test_iter() {
    let mut l = Lexer::new("1+1");
    let p = l.peek().clone();
    assert_eq!(p, Token::Int(1));
    assert_eq!(l.look_ahead(0), p);
    assert_eq!(l.look_ahead(1), Token::Op('+'));
    assert_eq!(l.look_ahead(2), Token::Int(1));

    match l.peek().clone() {
        Token::Int(n) => assert_eq!(n, 1),
        _ => panic!("expected the number one"),
    }
    l.next();
    match l.peek().clone() {
        Token::Op(c) => assert_eq!(c, '+'),
        _ => panic!("expected '+'"),
    }
    l.next();
    match l.peek().clone() {
        Token::Int(n) => assert_eq!(n, 1),
        _ => panic!("expected number one"),
    }
}

#[test]
fn lex_test_test_both_lexers() {
    let s = "1 + (3 / 2) * 4";
    let mut toks1 = vec![];
    let mut l = Lexer::new(s);
    while let Some(t) = l.next() {
        toks1.push(t);
    }
    let toks2 = lex(s);
    assert_eq!(toks1, toks2);
}

#[test]
fn lex_keywords_and_separators() {
    assert_eq!(lex("4 mod 5"), vec![Token::Int(4), Token::Modulus, Token::Int(5)]);
    assert_eq!(lex("12% of 55"), vec![Token::Int(12), Token::Op('%'), Token::Of, Token::Int(55)]);
    assert_eq!(lex("4 modx 5"), vec![Token::Int(4), Token::Invalid]);
    assert_eq!(lex("4 mod5"), vec![Token::Int(4), Token::Invalid]);
    assert_eq!(lex("4 MOD 5"), vec![Token::Int(4), Token::Invalid]);
    assert_eq!(lex("1 $ 2"), vec![Token::Int(1), Token::Invalid]);
    assert_eq!(lex("2 ! 3"), vec![Token::Int(2), Token::Invalid]);
}

#[test]
fn lex_whitespace_and_empty() {
    assert_eq!(lex(""), vec![]);
    assert_eq!(lex(" \t\n"), vec![]);
    assert_eq!(lex("\t7\n"), vec![Token::Int(7)]);
    assert!(Lexer::new("   ").is_empty());
    assert!(!Lexer::new(" 1 ").is_empty());
}

#[test]
fn lex_numbers() {
    assert_eq!(lex(".5"), vec![Token::Float(Decimal { mantissa: 5, scale: 1 })]);
    assert_eq!(lex("2."), vec![Token::Float(Decimal { mantissa: 2, scale: 0 })]);
    assert_eq!(lex("0.0025"), vec![Token::Float(Decimal { mantissa: 25, scale: 4 })]);
    assert_eq!(lex("1.2.3"), vec![Token::Invalid]);
    assert_eq!(lex("."), vec![Token::Invalid]);
    assert_eq!(lex("9223372036854775807"), vec![Token::Int(i64::MAX)]);
    assert_eq!(lex("9223372036854775808"), vec![Token::Invalid]);
    assert_eq!(
        lex("18446744073709551.615"),
        vec![Token::Float(Decimal { mantissa: u64::MAX, scale: 3 })]
    );
    assert_eq!(lex("18446744073709551.616"), vec![Token::Invalid]);
    let ch = chars("x 42+");
    assert_eq!(lex_num(&ch, 2), (Token::Int(42), 4));
}

#[test]
fn lexer_discard_and_as_vec() {
    let mut l = Lexer::new("1 + 2 * 3");
    l.discard(2);
    assert_eq!(l.as_vec(), vec![Token::Int(2), Token::Op('*'), Token::Int(3)]);
    assert_eq!(l.look_ahead(1), Token::Op('*'));
    l.discard(10);
    assert!(l.is_empty());
    assert_eq!(l.next(), None);
    assert_eq!(l.peek(), Token::End);
}

#[test]
fn lexer_from_stops_at_end() {
    let l = Lexer::from(vec![Token::Int(1), Token::End, Token::Int(2)]);
    assert_eq!(l.as_vec(), vec![Token::Int(1)]);
}

#[test]
fn lexer_capture_group() {
    let mut l = Lexer::new("(1 + (2)) * 3");
    let mut g = l.capture_group().unwrap();
    assert_eq!(
        g.as_vec(),
        vec![Token::Int(1), Token::Op('+'), Token::OpenParen, Token::Int(2), Token::CloseParen]
    );
    assert_eq!(g.next(), Some(Token::Int(1)));
    assert_eq!(l.as_vec(), vec![Token::Op('*'), Token::Int(3)]);

    let mut empty = Lexer::new("()");
    assert_eq!(empty.capture_group().err(), Some(ParseError::EmptyGroup));
    let mut open = Lexer::new("(1 + (2)");
    assert_eq!(
        open.capture_group().err(),
        Some(ParseError::UnbalancedParenthesis)
    );
}

#[test]
fn lexer_error_context() {
    let mut l = Lexer::new("12 + 345");
    l.look_ahead(1);
    assert_eq!(l.error_at_current(), vec!["2 + 34".to_string(), "   ^".to_string()]);
    let l = Lexer::new("7");
    assert_eq!(l.error_at_current(), vec!["7".to_string(), "^".to_string()]);
    assert_eq!(Lexer::new("1+2").get_index(), 0);
}

#[test]
fn op_names() {
    assert_eq!(get_op('+'), Op::Add);
    assert_eq!(get_op('m'), Op::Mod);
    assert_eq!(get_op('%'), Op::Invalid);
    assert_eq!(Op::Mod.as_str(), "mod");
    assert_eq!(Op::Percent.as_char(), '%');
    assert_eq!(Op::Invalid.as_str(), "<invalid>");
    assert_eq!(Op::presidence(), 0);
}
