use cmdparse::Command;

#[test]
fn smoke_test() {
    let matches = Command::new("/hello")
        .flag("-foo")
        .arg("one", true)
        .arg("two", true)
        .arg("three", true)
        .arg("four", true)
        .parse("/hello -foo -spam bar -foo baz")
        .unwrap();
    assert!(matches.has_flag("-foo"));
    assert!(!matches.has_flag("-spam"));

    assert_eq!(matches.args(), &["-spam", "bar", "-foo", "baz"]);
}

#[test]
fn required_arg() {
    let matches = Command::new("/hello")
        .arg("one", true)
        .arg("two", true)
        .parse("/hello foo");
    assert!(matches.is_err());
    assert_eq!(
        matches.unwrap_err().message(),
        "Missing required arg \"two\""
    )
}

#[test]
fn optional_arg() {
    let matches = Command::new("/hello")
        .arg("one", false)
        .arg("two", false)
        .parse("/hello foo");
    assert!(matches.is_ok());
    assert_eq!(matches.unwrap().args(), &["foo"])
}

#[test]
fn multiple_flags() {
    let matches = Command::new("/hello")
        .flags(&["-foo", "-spam"])
        .arg("one", true)
        .arg("two", true)
        .arg("three", true)
        .parse("/hello -foo -spam bar -foo baz")
        .unwrap();
    assert!(matches.has_flag("-foo"));
    assert!(matches.has_flag("-spam"));

    assert_eq!(matches.args(), &["bar", "-foo", "baz"]);
}

#[test]
fn args() {
    let matches = Command::new("/hello")
        .flags(&["-foo", "-spam"])
        .arg("one", true)
        .arg("two", true)
        .arg("three", true)
        .parse("/hello -foo -spam bar -foo baz")
        .unwrap();
    assert!(matches.has_flag("-foo"));
    assert!(matches.has_flag("-spam"));

    assert_eq!(matches.args(), &["bar", "-foo", "baz"]);
}

#[test]
fn subcommand() {
    let matches = Command::new("/hello")
        .subcommand(
            Command::new("subcommand")
                .flags(&["-foo", "-spam"])
                .arg("one", true)
                .arg("two", true)
                .arg("three", true),
        )
        .parse("/hello subcommand -foo -spam bar -foo baz")
        .unwrap();

    assert!(matches.subcommand().is_some());
    assert_eq!(matches.subcommand().unwrap().0, "subcommand");
    assert!(matches.subcommand().unwrap().1.has_flag("-foo"));
    assert!(matches.subcommand().unwrap().1.has_flag("-spam"));
    assert_eq!(
        matches.subcommand().unwrap().1.args(),
        &["bar", "-foo", "baz"]
    );
}

#[test]
fn subcommand2() {
    let matches = Command::new("/discord")
        .subcommand(
            Command::new("subcommand")
                .flags(&["-foo", "-spam"])
                .arg("one", true)
                .arg("two", true)
                .arg("three", true),
        )
        .parse("/discord subcommand -foo -spam bar -foo baz")
        .unwrap();

    assert!(matches.subcommand().is_some());
    assert_eq!(matches.subcommand().unwrap().0, "subcommand");
    assert!(matches.subcommand().unwrap().1.has_flag("-foo"));
    assert!(matches.subcommand().unwrap().1.has_flag("-spam"));
    assert_eq!(
        matches.subcommand().unwrap().1.args(),
        &["bar", "-foo", "baz"]
    );
}
