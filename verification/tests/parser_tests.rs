use pcron::lexer::tokenize;
use pcron::parser::parse;

#[test]
fn zero_commands_is_a_valid_file() {
    let toks = tokenize(b"# only a comment\n").unwrap();
    let file = parse(&toks).unwrap();
    assert!(file.cmds.is_empty());
}

#[test]
fn command_without_parameters() {
    let toks = tokenize(b"exp1() $ touch /tmp/x").unwrap();
    let file = parse(&toks).unwrap();
    assert_eq!(file.cmds.len(), 1);
    assert_eq!(file.cmds[0].expr.name.as_slice(), b"exp1");
    assert!(file.cmds[0].expr.args.is_empty());
    assert_eq!(file.cmds[0].script.as_slice(), b"touch /tmp/x");
}

#[test]
fn command_with_two_parameters() {
    let toks = tokenize(b"normal(1, 2.5) $ run").unwrap();
    let file = parse(&toks).unwrap();
    assert_eq!(file.cmds.len(), 1);
    let args = &file.cmds[0].expr.args;
    assert_eq!(args.len(), 2);
    assert_eq!(args[0].int_part().as_slice(), &[1]);
    assert_eq!(args[1].int_part().as_slice(), &[2]);
    assert_eq!(args[1].frac_part().as_slice(), &[5]);
}

#[test]
fn two_commands_in_source_order() {
    let toks = tokenize(b"exp(1) $ first\npoisson(2) $$ second $$").unwrap();
    let file = parse(&toks).unwrap();
    assert_eq!(file.cmds.len(), 2);
    assert_eq!(file.cmds[0].script.as_slice(), b"first");
    assert_eq!(file.cmds[1].script.as_slice(), b"second");
}

#[test]
fn missing_script_is_rejected() {
    let toks = tokenize(b"exp(2.0)").unwrap();
    let err = parse(&toks).unwrap_err();
    assert_eq!(err.pos, 0);
}

#[test]
fn leftover_tokens_are_rejected() {
    let toks = tokenize(b"exp(1) $ x\n)").unwrap();
    let err = parse(&toks).unwrap_err();
    assert_eq!(err.pos, 5);
}

#[test]
fn missing_comma_is_rejected() {
    let toks = tokenize(b"normal(1 2) $ x").unwrap();
    let err = parse(&toks).unwrap_err();
    assert_eq!(err.pos, 0);
}
