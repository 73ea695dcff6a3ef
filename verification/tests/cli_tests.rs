use html_nomicon::cli::Cli;

fn cb(s: &str) -> Vec<u8> {
    s.as_bytes().to_vec()
}

fn cargs(tokens: &[&str]) -> Vec<Vec<u8>> {
    tokens.iter().map(|t| cb(t)).collect()
}

#[test]
fn path_alone() {
    let c = Cli::args(cargs(&["./project"])).unwrap();
    assert_eq!(c.path, cb("./project"));
    assert_eq!(c.json, None);
    assert_eq!(c.file, None);
}

#[test]
fn json_flag_short_and_long() {
    let c = Cli::args(cargs(&["-j", "{}", "root"])).unwrap();
    assert_eq!(c.path, cb("root"));
    assert_eq!(c.json, Some(cb("{}")));
    let c = Cli::args(cargs(&["root", "--json", "{}"])).unwrap();
    assert_eq!(c.json, Some(cb("{}")));
}

#[test]
fn file_flag_short_and_long() {
    let c = Cli::args(cargs(&["-f", "in.json", "root"])).unwrap();
    assert_eq!(c.file, Some(cb("in.json")));
    let c = Cli::args(cargs(&["root", "--file", "in.json"])).unwrap();
    assert_eq!(c.file, Some(cb("in.json")));
}

#[test]
fn invalid_command_lines_are_rejected() {
    // no path at all
    assert!(Cli::args(cargs(&[])).is_none());
    assert!(Cli::args(cargs(&["--json", "{}"])).is_none());
    // a flag with no value
    assert!(Cli::args(cargs(&["root", "-j"])).is_none());
    // an unknown flag
    assert!(Cli::args(cargs(&["root", "--verbose"])).is_none());
    // a repeated flag or path
    assert!(Cli::args(cargs(&["-j", "a", "-j", "b", "root"])).is_none());
    assert!(Cli::args(cargs(&["one", "two"])).is_none());
}
