use sshconf::config::ConfigStatement;
use sshconf::format::format_config;
use sshconf::parser::parse_config;

const SAMPLE_CONFIG: &str = "
Host github
    HostName github.com
    IdentityFile ~/.ssh/id_rsa
    Port 22
";

#[test]
fn test_parse_config() {
    let result = parse_config(SAMPLE_CONFIG).unwrap();
    assert_eq!(result.len(), 1);
    let entry = &result[0];
    assert_eq!(entry.hostname, "github");
    assert_eq!(entry.statements.len(), 3);
    assert_eq!(
        entry.statements[0],
        ConfigStatement::HostName("github.com".to_string())
    );
    assert_eq!(
        entry.statements[1],
        ConfigStatement::Unknown("IdentityFile ~/.ssh/id_rsa".to_string())
    );
    assert_eq!(entry.statements[2], ConfigStatement::Port("22".to_string()));
}

#[test]
fn test_roundtrip_parse_format() {
    let parsed = parse_config(SAMPLE_CONFIG).unwrap();
    let formatted = format_config(&parsed, "    ");
    assert_eq!(formatted.trim(), SAMPLE_CONFIG.trim());
}

const MULTI_HOST_SAMPLE_CONFIG: &str = "
Host github
  HostName github.com
  IdentityFile ~/.ssh/id_rsa
  Port 22
Host google
  HostName google.com
";

#[test]
fn test_roundtrip_parse_format_multi_host() {
    let parsed = parse_config(MULTI_HOST_SAMPLE_CONFIG).unwrap();
    let formatted = format_config(&parsed, "  ");
    assert_eq!(formatted.trim(), MULTI_HOST_SAMPLE_CONFIG.trim());
}

const MALFORMED_SAMPLE_CONFIG: &str = "
  Host github
    HostName github.com
    IdentityFile ~/.ssh/id_rsa
    Port 22
";

#[test]
fn test_parse_malformed_config() {
    let res = parse_config(MALFORMED_SAMPLE_CONFIG);
    assert!(res.is_err());
}
