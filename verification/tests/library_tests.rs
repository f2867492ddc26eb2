use sshconf::config::{ConfigStatement, Entry};
use sshconf::format::{format_config, format_line};
use sshconf::model::ParseErrorKind;
use sshconf::mutate::{find_entry, indent_string, update_entry, update_host};
use sshconf::parser::parse_config;
use sshconf::parser::parse_line;

#[test]
fn test_error_line_number() {
    let res = parse_config("Host a\n    Port 22\nFoo bar baz\n");
    let err = res.unwrap_err();
    assert_eq!(err.line, 2);
    assert_eq!(err.kind, ParseErrorKind::MalformedHostLine);
}

#[test]
fn test_indented_header_rejected() {
    let res = parse_config("  Host github\n    HostName github.com\n");
    let err = res.unwrap_err();
    assert_eq!(err.line, 0);
    assert_eq!(err.kind, ParseErrorKind::UnexpectedIndent);
}

#[test]
fn test_sample_scenario_exact() {
    let text = "Host github\n    HostName github.com\n    IdentityFile ~/.ssh/id_rsa\n    Port 22\n";
    let parsed = parse_config(text).unwrap();
    assert_eq!(parsed.len(), 1);
    assert_eq!(parsed[0].hostname, "github");
    assert_eq!(
        parsed[0].statements,
        vec![
            ConfigStatement::HostName("github.com".to_string()),
            ConfigStatement::Unknown("IdentityFile ~/.ssh/id_rsa".to_string()),
            ConfigStatement::Port("22".to_string()),
        ]
    );
    let formatted = format_config(&parsed, "    ");
    assert_eq!(formatted, text);
}

#[test]
fn test_mutate_port_scenario() {
    let text = "Host github\n    HostName github.com\n    IdentityFile ~/.ssh/id_rsa\n    Port 22\n";
    let mut parsed = parse_config(text).unwrap();
    update_host(&mut parsed, "github", None, Some("2222")).unwrap();
    assert_eq!(
        parsed[0].statements,
        vec![
            ConfigStatement::HostName("github.com".to_string()),
            ConfigStatement::Unknown("IdentityFile ~/.ssh/id_rsa".to_string()),
            ConfigStatement::Port("2222".to_string()),
        ]
    );
}

#[test]
fn test_mutation_leaves_others_untouched() {
    let text = "Host a\n  HostName a.example\n  Port 1\n  User me\nHost b\n  HostName b.example\n  Port 2\n";
    let mut parsed = parse_config(text).unwrap();
    let before_b = parsed[1].clone();
    update_host(&mut parsed, "a", None, Some("2222")).unwrap();
    assert_eq!(parsed[1], before_b);
    assert_eq!(
        parsed[0].statements[0],
        ConfigStatement::HostName("a.example".to_string())
    );
    assert_eq!(
        parsed[0].statements[2],
        ConfigStatement::Unknown("User me".to_string())
    );
    assert_eq!(
        parsed[0].statements[1],
        ConfigStatement::Port("2222".to_string())
    );
}

#[test]
fn test_unknown_statement_fidelity() {
    let stmt = parse_line("   Compression yes  ");
    assert_eq!(stmt, ConfigStatement::Unknown("Compression yes".to_string()));
    assert_eq!(format_line(&stmt), "Compression yes");
}

#[test]
fn test_order_and_duplicates_preserved() {
    let text = "Host a\n  Port 1\nHost b\nHost a\n  Port 2\n";
    let parsed = parse_config(text).unwrap();
    assert_eq!(parsed.len(), 3);
    assert_eq!(parsed[0].hostname, "a");
    assert_eq!(parsed[1].hostname, "b");
    assert_eq!(parsed[2].hostname, "a");
    assert_eq!(parsed[0].statements, vec![ConfigStatement::Port("1".to_string())]);
    assert_eq!(parsed[2].statements, vec![ConfigStatement::Port("2".to_string())]);
    assert_eq!(find_entry(&parsed, "a").unwrap(), 0);
    let formatted = format_config(&parsed, "  ");
    assert_eq!(formatted, text);
}

#[test]
fn test_empty_input() {
    let parsed = parse_config("").unwrap();
    assert_eq!(parsed.len(), 0);
    assert_eq!(format_config(&parsed, "    "), "");
}

#[test]
fn test_blank_lines_between_blocks_skipped() {
    let parsed = parse_config("Host a\n\nHost b\n").unwrap();
    assert_eq!(parsed.len(), 2);
    assert_eq!(parsed[0].hostname, "a");
    assert_eq!(parsed[1].hostname, "b");
}

#[test]
fn test_indent_string() {
    assert!(indent_string(0).is_err());
    assert_eq!(indent_string(3).unwrap(), "   ");
}

#[test]
fn test_find_entry_missing() {
    let parsed = parse_config("Host a\n").unwrap();
    let err = find_entry(&parsed, "nope").unwrap_err();
    assert_eq!(err.requested_name, "nope");
}

#[test]
fn test_classify_variants() {
    assert_eq!(
        parse_line("HostName x"),
        ConfigStatement::HostName("x".to_string())
    );
    assert_eq!(parse_line("Port 22"), ConfigStatement::Port("22".to_string()));
    assert_eq!(
        parse_line("HostName a b"),
        ConfigStatement::Unknown("HostName a b".to_string())
    );
    assert_eq!(parse_line("Port"), ConfigStatement::Unknown("Port".to_string()));
    assert_eq!(parse_line(""), ConfigStatement::Unknown("".to_string()));
}

#[test]
fn test_format_line_exact() {
    assert_eq!(
        format_line(&ConfigStatement::HostName("h.example".to_string())),
        "HostName h.example"
    );
    assert_eq!(
        format_line(&ConfigStatement::Port("2200".to_string())),
        "Port 2200"
    );
}

#[test]
fn test_update_entry_direct() {
    let mut entry = Entry {
        hostname: "a".to_string(),
        statements: vec![
            ConfigStatement::HostName("old.example".to_string()),
            ConfigStatement::Unknown("User me".to_string()),
            ConfigStatement::Port("1".to_string()),
        ],
    };
    update_entry(&mut entry, Some("new.example"), Some("2"));
    assert_eq!(
        entry.statements,
        vec![
            ConfigStatement::HostName("new.example".to_string()),
            ConfigStatement::Unknown("User me".to_string()),
            ConfigStatement::Port("2".to_string()),
        ]
    );
    assert_eq!(entry.hostname, "a");
}

#[test]
fn test_update_host_missing() {
    let mut parsed = parse_config("Host a\n  Port 1\n").unwrap();
    let err = update_host(&mut parsed, "b", None, Some("2")).unwrap_err();
    assert_eq!(err.requested_name, "b");
    assert_eq!(parsed[0].statements, vec![ConfigStatement::Port("1".to_string())]);
}

#[test]
fn test_whitespace_only_line_skipped() {
    let parsed = parse_config("   \nHost a\n  Port 1\n").unwrap();
    assert_eq!(parsed.len(), 1);
    assert_eq!(parsed[0].hostname, "a");
    assert_eq!(parsed[0].statements, vec![ConfigStatement::Port("1".to_string())]);
}

#[test]
fn test_whitespace_only_line_after_block_is_body() {
    let parsed = parse_config("Host b\n \t \nHost c\n").unwrap();
    assert_eq!(parsed.len(), 2);
    assert_eq!(parsed[0].statements, vec![ConfigStatement::Unknown("".to_string())]);
    assert_eq!(parsed[1].hostname, "c");
}

#[test]
fn test_error_after_blank_line() {
    let err = parse_config("   \nFoo bar baz\n").unwrap_err();
    assert_eq!(err.line, 1);
    assert_eq!(err.kind, ParseErrorKind::MalformedHostLine);
}

#[test]
fn test_unicode_whitespace() {
    assert_eq!(
        parse_line("Port\u{00A0}22"),
        ConfigStatement::Port("22".to_string())
    );
    let parsed = parse_config("Host a\n\u{000C}Port 22\n").unwrap();
    assert_eq!(parsed[0].statements, vec![ConfigStatement::Port("22".to_string())]);
}

#[test]
fn test_mutation_changes_one_output_line() {
    let text = "Host a\n    HostName a.example\n    Port 1\nHost b\n    Port 2\n";
    let mut parsed = parse_config(text).unwrap();
    update_host(&mut parsed, "a", None, Some("9")).unwrap();
    let out = format_config(&parsed, "    ");
    assert_eq!(
        out,
        "Host a\n    HostName a.example\n    Port 9\nHost b\n    Port 2\n"
    );
}
