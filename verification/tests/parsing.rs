use cute::opt::option;
use cute::opt::switch;
use cute::opt::StateOpt;
use cute::val::ValueParser;
use cute::Cute;
use cute::Error;

const CMD: u64 = 1;
const BOOL: u64 = 2;
const OPTION: u64 = 3;
const HELP: u64 = 4;

fn strings(items: &[&str]) -> Vec<String> {
    items.iter().map(|data| String::from(*data)).collect()
}

#[test]
fn opt_test() {
    assert!(opt_test_impl().is_ok());
}

fn opt_test_impl() -> Result<(), Error> {
    let mut cute = Cute::new();

    cute.add(switch("-bool", BOOL));
    cute.add(option("-opt", OPTION));
    cute.add(switch("/?", HELP));
    cute.add(switch("cmd", CMD));

    let args = strings(&["cmd", "-bool", "-opt", "value", "/?"]);

    let left = cute.parse(args)?;
    assert!(left.is_empty());
    assert!(cute.value::<bool>(BOOL)?);
    assert!(cute.value::<bool>(HELP)?);
    assert!(cute.value::<bool>(CMD)?);
    assert_eq!(cute.value::<String>(OPTION)?, String::from("value"));
    Ok(())
}

#[test]
fn no_registered_options_returns_input() {
    let mut cute = Cute::new();
    let left = cute.parse(strings(&["a", "b=c", "", "-x"])).unwrap();
    assert_eq!(left, strings(&["a", "b=c", "", "-x"]));
    assert!(cute.raw_values(7).is_err());
    assert!(!cute.value::<bool>(7).unwrap());
}

#[test]
fn switch_records_presence() {
    let mut cute = Cute::new();
    cute.add(switch("-s", BOOL));
    let left = cute.parse(strings(&["-s"])).unwrap();
    assert!(left.is_empty());
    assert!(cute.value::<bool>(BOOL).unwrap());
    assert_eq!(cute.value::<String>(BOOL).unwrap(), String::new());
    assert!(!cute.value::<bool>(HELP).unwrap());
}

#[test]
fn consuming_option_inline_value() {
    let mut cute = Cute::new();
    cute.add(option("-o", OPTION));
    let left = cute.parse(strings(&["-o=val", "tail"])).unwrap();
    assert_eq!(left, strings(&["tail"]));
    assert_eq!(cute.value::<String>(OPTION).unwrap(), String::from("val"));
}

#[test]
fn consuming_option_takes_next_token() {
    let mut cute = Cute::new();
    cute.add(option("-o", OPTION));
    cute.add(switch("x", BOOL));
    let left = cute.parse(strings(&["-o", "x", "tail"])).unwrap();
    assert_eq!(left, strings(&["tail"]));
    assert_eq!(cute.value::<String>(OPTION).unwrap(), String::from("x"));
    // the consumed value token is never tested against the definitions
    assert!(!cute.value::<bool>(BOOL).unwrap());
}

#[test]
fn consuming_option_at_end_fails() {
    let mut cute = Cute::new();
    cute.add(option("-o", OPTION));
    let e = cute.parse(strings(&["before", "other", "-o"])).unwrap_err();
    assert!(matches!(e, Error::Argument(n) if n == "-o"));
}

#[test]
fn leftovers_keep_their_order() {
    let mut cute = Cute::new();
    cute.add(switch("-s", BOOL));
    cute.add(option("-o", OPTION));
    let left = cute
        .parse(strings(&["a", "-s", "b", "-o", "v", "c"]))
        .unwrap();
    assert_eq!(left, strings(&["a", "b", "c"]));
}

#[test]
fn repeated_matches_accumulate() {
    let mut cute = Cute::new();
    cute.add(option("-o", OPTION));
    let left = cute.parse(strings(&["-o=a", "-o", "b"])).unwrap();
    assert!(left.is_empty());
    assert_eq!(cute.raw_values(OPTION).unwrap(), &strings(&["a", "b"]));
    // the typed retrieval reads the first stored value only
    assert_eq!(cute.value::<String>(OPTION).unwrap(), String::from("a"));
}

#[test]
fn shared_name_matches_every_definition() {
    let mut cute = Cute::new();
    cute.add(switch("-x", BOOL));
    cute.add(switch("-x", HELP));
    let left = cute.parse(strings(&["-x"])).unwrap();
    assert!(left.is_empty());
    assert!(cute.value::<bool>(BOOL).unwrap());
    assert!(cute.value::<bool>(HELP).unwrap());
}

#[test]
fn pop_raw_value_takes_most_recent() {
    let mut cute = Cute::new();
    cute.add(option("-o", OPTION));
    cute.parse(strings(&["-o=a", "-o=b"])).unwrap();
    assert_eq!(cute.pop_raw_value(OPTION).unwrap(), String::from("b"));
    assert_eq!(cute.pop_raw_value(OPTION).unwrap(), String::from("a"));
    let e = cute.pop_raw_value(OPTION).unwrap_err();
    assert!(matches!(e, Error::Value(_)));
    // the emptied entry still answers raw_values
    assert_eq!(cute.raw_values(OPTION).unwrap(), &Vec::<String>::new());
}

#[test]
fn retrieval_without_entry_fails_with_value_error() {
    let mut cute = Cute::new();
    let e = cute.raw_values(9).unwrap_err();
    assert!(matches!(e, Error::Value(m) if m == "9"));
    let e = cute.pop_raw_value(12345).unwrap_err();
    assert!(matches!(e, Error::Value(m) if m == "12345"));
    assert!(!cute.value::<bool>(9).unwrap());
}

#[test]
fn registry_lookup() {
    let mut cute = Cute::new();
    assert!(!cute.has(BOOL));
    assert!(cute.get(BOOL).is_none());
    cute.add(switch("-a", BOOL));
    cute.add(option("-b", BOOL));
    assert!(cute.has(BOOL));
    assert!(!cute.has(HELP));
    let found = cute.get(BOOL).unwrap();
    assert_eq!(found.name(), "-a");
    assert!(!found.consume());
}

#[test]
fn failed_parse_keeps_earlier_values() {
    let mut cute = Cute::new();
    cute.add(switch("-s", BOOL));
    cute.add(option("-o", OPTION));
    let e = cute.parse(strings(&["-s", "-o"])).unwrap_err();
    assert!(matches!(e, Error::Argument(n) if n == "-o"));
    // the switch matched before the failure and stays recorded
    assert!(cute.value::<bool>(BOOL).unwrap());
    assert!(cute.raw_values(OPTION).is_err());
}

#[test]
fn typed_value_decodes_numbers() {
    let mut cute = Cute::new();
    cute.add(option("-n", OPTION));
    cute.parse(strings(&["-n", "42"])).unwrap();
    assert_eq!(cute.value::<i32>(OPTION).unwrap(), 42);
    assert_eq!(cute.value::<u32>(OPTION).unwrap(), 42);
    assert_eq!(cute.value::<u8>(OPTION).unwrap(), 42);
    let mut other = Cute::new();
    other.add(option("-n", OPTION));
    other.parse(strings(&["-n", "abc"])).unwrap();
    assert!(other.value::<i32>(OPTION).is_err());
}
