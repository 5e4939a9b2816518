//! Command lines, environments and verdicts.

use kuula::sandbox::{
    command_line, env_names, environment_block, exit_byte, quote, terminated, verdict,
};

fn quoted(arg: &str) -> String {
    let mut out = Vec::new();
    quote(arg, &mut out);
    out.into_iter().collect()
}

#[test]
fn arguments_are_quoted_where_they_must_be() {
    assert_eq!(quoted("worker"), "worker");
    assert_eq!(quoted(r"C:\a\b.exe"), r"C:\a\b.exe");
    assert_eq!(quoted(""), "\"\"");
    assert_eq!(quoted("a b"), "\"a b\"");
    assert_eq!(quoted("a\tb"), "\"a\tb\"");
    assert_eq!(quoted(r#"a"b"#), r#""a\"b""#);
    assert_eq!(quoted(r#"a\"b"#), r#""a\\\"b""#);
    assert_eq!(quoted(r"a b\"), r#""a b\\""#);
    assert_eq!(quoted(r"a\b c"), r#""a\b c""#);
}

#[test]
fn a_command_line_holds_the_program_and_its_arguments() {
    let args = vec!["worker".to_string(), "x y".to_string()];
    let line: String = command_line(r"C:\Program Files\kuula.exe", &args)
        .into_iter()
        .collect();
    assert_eq!(line, r#""C:\Program Files\kuula.exe" worker "x y""#);
}

#[test]
fn an_environment_block_ends_each_variable_and_itself() {
    let env = vec![
        ("A".to_string(), "1".to_string()),
        ("B".to_string(), "\u{1f600}".to_string()),
    ];
    let want: Vec<u16> = "A=1\0B=\u{1f600}\0\0".encode_utf16().collect();
    assert_eq!(environment_block(&env), want);
    assert_eq!(environment_block(&vec![]), [0]);
    assert_eq!(env_names().len(), 5);
}

#[test]
fn a_probe_tells_denials_from_other_failures() {
    assert_eq!(verdict("read", None), "read ok");
    assert_eq!(verdict("write", Some((Some(5), "no"))), "write denied");
    assert_eq!(verdict("connect", Some((Some(10013), "no"))), "connect denied");
    assert_eq!(verdict("read", Some((Some(2), "gone"))), "read other: gone");
    assert_eq!(verdict("read", Some((None, "odd"))), "read other: odd");
    assert_eq!(exit_byte(0x1_0307), 7);
    assert_eq!(terminated(12, "no job"), "worker 12 terminated before it ran: no job");
}
