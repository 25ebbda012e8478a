use cmdparse::Command;

#[test]
fn all_optional_accepts_empty_input() {
    let cmd = Command::new("/x").arg("a", false).arg("b", false);
    let empty: Vec<String> = Vec::new();
    let r = cmd.parse_from(&empty);
    assert!(r.is_ok());
    assert!(r.unwrap().args().is_empty());
}

#[test]
fn required_after_flag_prefix() {
    let r = Command::new("/x").flag("-a").arg("one", true).parse("/x -a");
    assert!(r.is_err());
    assert_eq!(r.unwrap_err().message(), "Missing required arg \"one\"");
}

#[test]
fn flag_declarations_match() {
    let one_by_one = Command::new("/x")
        .flag("-a")
        .flag("-b")
        .arg("one", true)
        .parse("/x -b -a v")
        .unwrap();
    let in_bulk = Command::new("/x")
        .flags(&["-a", "-b"])
        .arg("one", true)
        .parse("/x -b -a v")
        .unwrap();
    assert_eq!(one_by_one.has_flag("-a"), in_bulk.has_flag("-a"));
    assert_eq!(one_by_one.has_flag("-b"), in_bulk.has_flag("-b"));
    assert_eq!(one_by_one.args(), in_bulk.args());
    assert!(one_by_one.has_flag("-a") && one_by_one.has_flag("-b"));
    assert_eq!(one_by_one.args(), &["v"]);
}

#[test]
fn flag_redeclaration_is_no_op() {
    let m = Command::new("/x")
        .flag("-a")
        .flag("-a")
        .arg("one", false)
        .parse("/x -a v")
        .unwrap();
    assert!(m.has_flag("-a"));
    assert_eq!(m.args(), &["v"]);
}

#[test]
fn root_name_prefix_is_optional() {
    let cmd = Command::new("/hello").subcommand(Command::new("sub").arg("one", true));
    let with = cmd.parse("/hello sub v").unwrap();
    let without = cmd.parse("sub v").unwrap();
    assert_eq!(with.subcommand().unwrap().0, "sub");
    assert_eq!(without.subcommand().unwrap().0, "sub");
    assert_eq!(
        with.subcommand().unwrap().1.args(),
        without.subcommand().unwrap().1.args()
    );
}

#[test]
fn accessors_are_idempotent() {
    let m = Command::new("/x")
        .flag("-a")
        .arg("one", true)
        .parse("/x -a v")
        .unwrap();
    assert_eq!(m.args(), m.args());
    assert_eq!(m.has_flag("-a"), m.has_flag("-a"));
    assert_eq!(m.arg("one"), m.arg("one"));
    assert_eq!(m.command(), m.command());
    assert!(m.subcommand().is_none());
    assert!(m.subcommand().is_none());
}

#[test]
fn arg_lookup_by_name() {
    let m = Command::new("/x")
        .arg("one", true)
        .arg("two", false)
        .parse("/x v")
        .unwrap();
    assert_eq!(m.arg("one"), Some("v"));
    assert_eq!(m.arg("two"), None);
    assert_eq!(m.arg("zzz"), None);
    assert_eq!(m.command(), "/x");
}

#[test]
fn consecutive_spaces_bind_empty_tokens() {
    let m = Command::new("/x")
        .arg("a", true)
        .arg("b", true)
        .arg("c", true)
        .parse("/x a  b")
        .unwrap();
    assert_eq!(m.args(), &["a", "", "b"]);
}

#[test]
fn extra_tokens_are_dropped() {
    let m = Command::new("/x").arg("a", true).parse("/x v w z").unwrap();
    assert_eq!(m.args(), &["v"]);
}

#[test]
fn subcommand_name_beats_flag() {
    let m = Command::new("/x")
        .flag("-s")
        .subcommand(Command::new("-s").arg("one", false))
        .parse("/x -s")
        .unwrap();
    assert_eq!(m.subcommand().unwrap().0, "-s");
    assert!(m.has_flag("-s"));
}

#[test]
fn first_matching_subcommand_wins() {
    let r = Command::new("/x")
        .subcommand(Command::new("dup").arg("one", true))
        .subcommand(Command::new("dup"))
        .parse("/x dup");
    assert!(r.is_err());
    assert_eq!(r.unwrap_err().message(), "Missing required arg \"one\"");
}

#[test]
fn subcommand_failure_aborts_parse() {
    let r = Command::new("/root")
        .subcommand(Command::new("sub").arg("x", true))
        .parse("/root sub");
    assert!(r.is_err());
    assert_eq!(r.unwrap_err().message(), "Missing required arg \"x\"");
}

#[test]
fn parse_from_plain_tokens() {
    let v: Vec<String> = vec!["-a".to_string(), "v".to_string()];
    let m = Command::new("/x")
        .flag("-a")
        .arg("one", true)
        .parse_from(&v)
        .unwrap();
    assert!(m.has_flag("-a"));
    assert_eq!(m.args(), &["v"]);
}

#[test]
fn empty_input_is_one_empty_token() {
    let m = Command::new("/x").arg("a", false).parse("").unwrap();
    assert_eq!(m.args(), &[""]);
}

#[test]
fn cloned_schema_matches_alike() {
    let cmd = Command::new("/x").flag("-a").arg("one", true);
    let copy = cmd.clone();
    let a = cmd.parse("/x -a v").unwrap();
    let b = copy.parse("/x -a v").unwrap();
    assert_eq!(a.args(), b.args());
    assert_eq!(a.has_flag("-a"), b.has_flag("-a"));
}

#[test]
fn cloned_result_matches_original() {
    let m = Command::new("/x")
        .flag("-a")
        .arg("one", true)
        .parse("/x -a v")
        .unwrap();
    let c = m.clone();
    assert_eq!(m.args(), c.args());
    assert_eq!(m.command(), c.command());
    assert_eq!(m.has_flag("-a"), c.has_flag("-a"));
}
