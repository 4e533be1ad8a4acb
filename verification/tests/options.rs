use cute::opt::option;
use cute::opt::switch;
use cute::opt::Match;
use cute::opt::Opt;
use cute::opt::StateOpt;

const ON: u64 = 1;

#[test]
fn test_opt_new() {
    let opt = Opt::new("test", ON, true);
    assert_eq!(opt.name(), "test");
    assert!(opt.consume());
}

#[test]
fn test_stateopt_implementation() {
    let opt = Opt::new("test", ON, false);
    assert_eq!(opt.name(), "test");
    assert!(!opt.consume());
}

#[test]
fn test_match_method() {
    let opt = Opt::new("test", ON, true);

    assert_eq!(opt.match_token("test"), Match::Okay(None));
    assert_eq!(opt.match_token("test=value"), Match::Okay(Some("value")));
    assert_eq!(opt.match_token("testing"), Match::Miss);
    assert_eq!(opt.match_token("other"), Match::Miss);
}

#[test]
fn test_switch_function() {
    let opt = switch("test", ON);
    assert_eq!(opt.name(), "test");
    assert!(!opt.consume());
}

#[test]
fn test_option_function() {
    let opt = option("test", ON);
    assert_eq!(opt.name(), "test");
    assert!(opt.consume());
}

#[test]
fn test_state_accessor() {
    let opt = option("test", ON);
    assert_eq!(opt.state(), ON);
}

#[test]
fn test_match_splits_at_first_eq() {
    let opt = option("a", ON);
    assert_eq!(opt.match_token("a=b=c"), Match::Okay(Some("b=c")));
    assert_eq!(opt.match_token("a="), Match::Okay(Some("")));
    assert_eq!(opt.match_token("b=a"), Match::Miss);
}
