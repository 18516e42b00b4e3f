use ogma::error::{help_as_error, Category, HelpExample, HelpMessage, HelpParameter, Location};
use ogma::parse::{parse, starts_with, ParseSuccess};

#[test]
fn bare_help_message() {
    let mut m = HelpMessage::new("ls");
    m.desc = "list the directory".to_string();
    let e = help_as_error(&m);
    assert_eq!(e.cat, Category::Help);
    assert_eq!(e.desc, "`ls`");
    assert_eq!(e.help_msg, None);
    assert_eq!(e.traces.len(), 1);
    assert_eq!(e.traces[0].loc, Location::Shell);
    assert_eq!(e.traces[0].source, "list the directory\n\nUsage:\n => ls");
}

#[test]
fn full_help_message() {
    let mut m = HelpMessage::new("filter");
    m.desc = "keep rows".to_string();
    m.params = vec![
        HelpParameter::Required("col".to_string()),
        HelpParameter::Optional("expr".to_string()),
        HelpParameter::Break,
        HelpParameter::Custom("<pred>".to_string()),
    ];
    m.flags = vec![("cols".to_string(), "filter columns".to_string())];
    m.examples = vec![HelpExample { desc: "x above 5".to_string(), code: "filter x > 5".to_string() }];
    let e = help_as_error(&m);
    assert_eq!(
        e.traces[0].source,
        "keep rows\n\nUsage:\n => filter col [expr]\n => filter  <pred>\n\nFlags:\n --cols: filter columns\n\nExamples:\n x above 5\n => filter x > 5\n"
    );
}

#[test]
fn help_without_spaces() {
    let mut m = HelpMessage::new("+");
    m.no_space = true;
    m.params = vec![HelpParameter::Required("a".to_string()), HelpParameter::Optional("b".to_string())];
    assert_eq!(help_as_error(&m).traces[0].source, "\n\nUsage:\n => +a[b]");
}

#[test]
fn parameter_write() {
    let mut s = String::from("x ");
    HelpParameter::Optional("p".to_string()).write(&mut s);
    HelpParameter::Required("q".to_string()).write(&mut s);
    HelpParameter::Break.write(&mut s);
    assert_eq!(s, "x [p]q");
}

#[test]
fn parse_dispatches_on_keyword() {
    assert_eq!(parse("def add-one => + 1"), ParseSuccess::Impl("def add-one => + 1".to_string()));
    assert_eq!(parse("def-ty Point { x:Num }"), ParseSuccess::Ty("def-ty Point { x:Num }".to_string()));
    assert_eq!(parse("open a.csv | len"), ParseSuccess::Expr("open a.csv | len".to_string()));
    assert_eq!(parse("define"), ParseSuccess::Expr("define".to_string()));
    assert_eq!(parse(""), ParseSuccess::Expr(String::new()));
    assert!(starts_with("abc", "ab"));
    assert!(!starts_with("a", "ab"));
}
