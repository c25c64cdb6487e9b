use pcron::dist::Distribution;
use pcron::dist::DistributionError;
use pcron::tab::LoadError;
use pcron::tab::exit_value;
use pcron::tab::pid_value;
use pcron::tab::read;

#[test]
fn block_script_entry_loads() {
    let tab = read(b"exp(2.0) $$ echo hi $$").unwrap();
    assert_eq!(tab.cmds.len(), 1);
    assert_eq!(tab.cmds[0].script.as_slice(), b"echo hi");
    assert_eq!(tab.cmds[0].dist.family(), Distribution::Exp);
    assert_eq!(tab.cmds[0].dist.arg_count(), 1);
}

#[test]
fn line_script_entry_loads() {
    let tab = read(b"poisson(3.5) $ echo hi").unwrap();
    assert_eq!(tab.cmds.len(), 1);
    assert_eq!(tab.cmds[0].script.as_slice(), b"echo hi");
    assert_eq!(tab.cmds[0].dist.family(), Distribution::Poisson);
}

#[test]
fn unknown_distribution_fails_the_load() {
    match read(b"frobnicate(1,2) $ x").unwrap_err() {
        LoadError::Dist(DistributionError::UnknownName(n)) => {
            assert_eq!(n.as_slice(), b"frobnicate")
        },
        other => panic!("expected an unknown-name error, got {:?}", other),
    }
}

#[test]
fn wrong_arity_fails_the_load() {
    match read(b"beta(1) $ x").unwrap_err() {
        LoadError::Dist(DistributionError::WrongArgCount) => {},
        other => panic!("expected a wrong-arity error, got {:?}", other),
    }
}

#[test]
fn command_count_matches_entry_count() {
    let text = b"exp(1) $ a\npoisson(2) $ b\nuniform(1, 2) $$ c $$\n";
    let tab = read(text).unwrap();
    assert_eq!(tab.cmds.len(), 3);
    assert_eq!(tab.cmds[0].script.as_slice(), b"a");
    assert_eq!(tab.cmds[1].script.as_slice(), b"b");
    assert_eq!(tab.cmds[2].script.as_slice(), b"c");
}

#[test]
fn loading_is_all_or_nothing() {
    match read(b"exp(1) $ fine\nbeta(0, 1) $ broken").unwrap_err() {
        LoadError::Dist(DistributionError::BadParam) => {},
        other => panic!("expected a domain error, got {:?}", other),
    }
}

#[test]
fn lex_errors_abort_the_load() {
    match read(b"exp(1) $ x\n@").unwrap_err() {
        LoadError::Lex(e) => assert_eq!(e.pos, 11),
        other => panic!("expected a lex error, got {:?}", other),
    }
}

#[test]
fn parse_errors_abort_the_load() {
    match read(b"exp(").unwrap_err() {
        LoadError::Parse(e) => assert_eq!(e.pos, 0),
        other => panic!("expected a parse error, got {:?}", other),
    }
}

#[test]
fn empty_configuration_loads_to_no_commands() {
    let tab = read(b"# nothing here\n").unwrap();
    assert!(tab.cmds.is_empty());
}

#[test]
fn event_values_default_to_minus_one() {
    assert_eq!(pid_value(Some(4242)), 4242);
    assert_eq!(pid_value(None), -1);
    assert_eq!(exit_value(Some(7)), 7);
    assert_eq!(exit_value(None), -1);
}
