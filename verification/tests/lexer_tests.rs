use pcron::lexer::Token;
use pcron::lexer::tokenize;

fn ident_is(t: &Token, s: &[u8]) -> bool {
    match t {
        Token::Ident(v) => v.as_slice() == s,
        _ => false,
    }
}

fn script_is(t: &Token, s: &[u8]) -> bool {
    match t {
        Token::Script(v) => v.as_slice() == s,
        _ => false,
    }
}

#[test]
fn single_line_entry() {
    let toks = tokenize(b"exp(2.0) $ echo hi").unwrap();
    assert_eq!(toks.len(), 5);
    assert!(ident_is(&toks[0], b"exp"));
    assert!(matches!(toks[1], Token::ParenOpen));
    match &toks[2] {
        Token::Num(l) => {
            assert!(!l.is_neg());
            assert_eq!(l.int_part().as_slice(), &[2]);
            assert_eq!(l.frac_part().as_slice(), &[0]);
            assert!(l.exp_part().is_empty());
        },
        _ => panic!("expected a number token"),
    }
    assert!(matches!(toks[3], Token::ParenClose));
    assert!(script_is(&toks[4], b"echo hi"));
}

#[test]
fn comments_and_whitespace_are_skipped() {
    let toks = tokenize(b"# a comment\n  beta( 1 , 2 ) $ x\n# trailing\n").unwrap();
    assert_eq!(toks.len(), 7);
    assert!(ident_is(&toks[0], b"beta"));
    assert!(matches!(toks[2], Token::Num(_)));
    assert!(matches!(toks[3], Token::Comma));
    assert!(script_is(&toks[6], b"x"));
}

#[test]
fn block_script_is_trimmed() {
    let toks = tokenize(b"$$  echo hi\nsleep 1  $$").unwrap();
    assert_eq!(toks.len(), 1);
    assert!(script_is(&toks[0], b"echo hi\nsleep 1"));
}

#[test]
fn empty_input_is_no_tokens() {
    let toks = tokenize(b"").unwrap();
    assert!(toks.is_empty());
}

#[test]
fn unterminated_block_is_an_error() {
    let err = tokenize(b"$$ echo hi").unwrap_err();
    assert_eq!(err.pos, 0);
}

#[test]
fn unrecognized_byte_is_an_error() {
    assert_eq!(tokenize(b"%").unwrap_err().pos, 0);
    assert_eq!(tokenize(b"exp %").unwrap_err().pos, 4);
}

#[test]
fn lone_minus_is_an_error() {
    assert_eq!(tokenize(b"( - )").unwrap_err().pos, 2);
}

#[test]
fn number_with_sign_fraction_and_exponent() {
    let toks = tokenize(b"-1.5e-3").unwrap();
    assert_eq!(toks.len(), 1);
    match &toks[0] {
        Token::Num(l) => {
            assert!(l.is_neg());
            assert_eq!(l.int_part().as_slice(), &[1]);
            assert_eq!(l.frac_part().as_slice(), &[5]);
            assert!(l.is_exp_neg());
            assert_eq!(l.exp_part().as_slice(), &[3]);
        },
        _ => panic!("expected a number token"),
    }
}

#[test]
fn leading_dot_and_trailing_dot_numbers() {
    let toks = tokenize(b".5 5. +7").unwrap();
    assert_eq!(toks.len(), 3);
    match &toks[0] {
        Token::Num(l) => {
            assert!(l.int_part().is_empty());
            assert_eq!(l.frac_part().as_slice(), &[5]);
        },
        _ => panic!("expected a number token"),
    }
    match &toks[1] {
        Token::Num(l) => {
            assert_eq!(l.int_part().as_slice(), &[5]);
            assert!(l.frac_part().is_empty());
        },
        _ => panic!("expected a number token"),
    }
    match &toks[2] {
        Token::Num(l) => {
            assert!(!l.is_neg());
            assert_eq!(l.int_part().as_slice(), &[7]);
        },
        _ => panic!("expected a number token"),
    }
}

#[test]
fn incomplete_exponent_ends_the_number() {
    let toks = tokenize(b"5e").unwrap();
    assert_eq!(toks.len(), 2);
    match &toks[0] {
        Token::Num(l) => {
            assert_eq!(l.int_part().as_slice(), &[5]);
            assert!(l.exp_part().is_empty());
        },
        _ => panic!("expected a number token"),
    }
    assert!(ident_is(&toks[1], b"e"));
}

#[test]
fn dollar_takes_the_rest_of_the_line() {
    let toks = tokenize(b"$5x\nexp1") .unwrap();
    assert_eq!(toks.len(), 2);
    assert!(script_is(&toks[0], b"5x"));
    assert!(ident_is(&toks[1], b"exp1"));
}

#[test]
fn three_dollars_is_an_unterminated_block() {
    assert_eq!(tokenize(b"$$$").unwrap_err().pos, 0);
}

#[test]
fn empty_block_script() {
    let toks = tokenize(b"$$$$").unwrap();
    assert_eq!(toks.len(), 1);
    assert!(script_is(&toks[0], b""));
}

#[test]
fn dollar_signs_inside_script_bodies_survive() {
    let toks = tokenize(b"$ echo $HOME").unwrap();
    assert_eq!(toks.len(), 1);
    assert!(script_is(&toks[0], b"echo $HOME"));
}

#[test]
fn empty_single_line_script() {
    let toks = tokenize(b"$").unwrap();
    assert_eq!(toks.len(), 1);
    assert!(script_is(&toks[0], b""));
}
