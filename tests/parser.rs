use log_analyzer::parser::{parse_level, parse_log_line, parse_method, HttpMethod, LogLevel, ParseError};

fn valid_line() -> &'static str {
    "2024-01-15T10:30:00Z [INFO] 192.168.1.1 GET /api/users 200"
}

#[test]
fn parses_valid_line() {
    let entry = parse_log_line(valid_line()).expect("should parse valid line");
    assert_eq!(entry.timestamp, "2024-01-15T10:30:00Z");
    assert_eq!(entry.level, LogLevel::Info);
    assert_eq!(entry.ip, "192.168.1.1");
    assert_eq!(entry.method, HttpMethod::Get);
    assert_eq!(entry.endpoint, "/api/users");
    assert_eq!(entry.status_code, 200);
}

#[test]
fn parses_warn_level() {
    let line = "2024-01-15T10:30:01Z [WARN] 10.0.0.2 POST /upload 429";
    let entry = parse_log_line(line).unwrap();
    assert_eq!(entry.level, LogLevel::Warn);
    assert_eq!(entry.method, HttpMethod::Post);
    assert_eq!(entry.status_code, 429);
}

#[test]
fn parses_error_level() {
    let line = "2024-01-15T10:30:02Z [ERROR] 172.16.0.1 DELETE /resource/42 500";
    let entry = parse_log_line(line).unwrap();
    assert_eq!(entry.level, LogLevel::Error);
    assert_eq!(entry.method, HttpMethod::Delete);
    assert_eq!(entry.status_code, 500);
}

#[test]
fn parses_all_http_methods() {
    let methods = vec![
        ("GET", HttpMethod::Get),
        ("POST", HttpMethod::Post),
        ("PUT", HttpMethod::Put),
        ("DELETE", HttpMethod::Delete),
        ("PATCH", HttpMethod::Patch),
        ("HEAD", HttpMethod::Head),
        ("OPTIONS", HttpMethod::Options),
    ];
    for (method_str, expected) in methods {
        let line = format!("2024-01-15T10:30:00Z [INFO] 1.2.3.4 {} /path 200", method_str);
        let entry = parse_log_line(&line).unwrap();
        assert_eq!(entry.method, expected, "failed for method {}", method_str);
    }
}

#[test]
fn rejects_missing_fields() {
    let incomplete = "2024-01-15T10:30:00Z [INFO] 192.168.1.1 GET";
    assert!(parse_log_line(incomplete).is_err());
}

#[test]
fn rejects_invalid_level() {
    let bad_level = "2024-01-15T10:30:00Z [DEBUG] 192.168.1.1 GET /path 200";
    assert!(parse_log_line(bad_level).is_err());
}

#[test]
fn rejects_malformed_ip() {
    let bad_ip = "2024-01-15T10:30:00Z [INFO] not_an_ip GET /path 200";
    assert!(parse_log_line(bad_ip).is_err());
}

#[test]
fn rejects_empty_line() {
    assert!(parse_log_line("").is_err());
    assert!(parse_log_line("   ").is_err());
}

#[test]
fn rejects_non_numeric_status() {
    let bad_status = "2024-01-15T10:30:00Z [INFO] 1.2.3.4 GET /path abc";
    assert!(parse_log_line(bad_status).is_err());
}

#[test]
fn handles_trailing_whitespace() {
    let line_with_spaces = "2024-01-15T10:30:00Z [INFO] 192.168.1.1 GET /api/users 200   ";
    let entry = parse_log_line(line_with_spaces).expect("should handle trailing whitespace");
    assert_eq!(entry.status_code, 200);
}

#[test]
fn log_level_display() {
    assert_eq!(LogLevel::Info.to_string(), "INFO");
    assert_eq!(LogLevel::Warn.to_string(), "WARN");
    assert_eq!(LogLevel::Error.to_string(), "ERROR");
}

#[test]
fn http_method_display() {
    assert_eq!(HttpMethod::Get.to_string(), "GET");
    assert_eq!(HttpMethod::Other("TRACE".into()).to_string(), "TRACE");
}

#[test]
fn debug_level_is_a_format_error() {
    let line = "2024-01-15T10:30:00Z [DEBUG] 192.168.1.1 GET /api/users 200";
    match parse_log_line(line) {
        Err(ParseError::InvalidFormat(m)) => assert_eq!(m, line),
        other => panic!("unexpected result {:?}", other),
    }
}

#[test]
fn format_error_keeps_first_hundred_characters() {
    let line = "x".repeat(150);
    match parse_log_line(&line) {
        Err(ParseError::InvalidFormat(m)) => assert_eq!(m, "x".repeat(100)),
        other => panic!("unexpected result {:?}", other),
    }
    match parse_log_line("ab cd") {
        Err(ParseError::InvalidFormat(m)) => assert_eq!(m, "ab cd"),
        other => panic!("unexpected result {:?}", other),
    }
}

#[test]
fn unknown_method_is_kept_verbatim() {
    let entry = parse_log_line("t [WARN] 1.2.3.4 TRACE /x 404").unwrap();
    assert_eq!(entry.method, HttpMethod::Other("TRACE".to_string()));
    assert_eq!(entry.status_code, 404);
}

#[test]
fn lowercase_method_is_rejected() {
    assert!(parse_log_line("t [INFO] 1.2.3.4 get /x 200").is_err());
}

#[test]
fn ip_groups_are_not_range_checked() {
    let entry = parse_log_line("t [INFO] 999.999.999.999 GET /x 200").unwrap();
    assert_eq!(entry.ip, "999.999.999.999");
}

#[test]
fn ip_shape_is_checked() {
    assert!(parse_log_line("t [INFO] 1.2.3 GET /x 200").is_err());
    assert!(parse_log_line("t [INFO] 1.2.3.4.5 GET /x 200").is_err());
    assert!(parse_log_line("t [INFO] 1.2.3.4444 GET /x 200").is_err());
    assert!(parse_log_line("t [INFO] 1..3.4 GET /x 200").is_err());
}

#[test]
fn status_needs_exactly_three_digits() {
    assert!(parse_log_line("t [INFO] 1.2.3.4 GET /x 20").is_err());
    assert!(parse_log_line("t [INFO] 1.2.3.4 GET /x 2000").is_err());
    assert_eq!(parse_log_line("t [INFO] 1.2.3.4 GET /x 007").unwrap().status_code, 7);
}

#[test]
fn extra_field_is_rejected() {
    assert!(parse_log_line("t [INFO] 1.2.3.4 GET /x 200 extra").is_err());
}

#[test]
fn unbracketed_level_is_rejected() {
    assert!(parse_log_line("t INFO 1.2.3.4 GET /x 200").is_err());
    assert!(parse_log_line("t [ INFO] 1.2.3.4 GET /x 200").is_err());
}

#[test]
fn runs_of_any_whitespace_separate_fields() {
    let entry = parse_log_line("\t t1 \t [ERROR]\u{3000}1.2.3.4  PUT   /y\u{a0}503 \n").unwrap();
    assert_eq!(entry.timestamp, "t1");
    assert_eq!(entry.level, LogLevel::Error);
    assert_eq!(entry.method, HttpMethod::Put);
    assert_eq!(entry.endpoint, "/y");
    assert_eq!(entry.status_code, 503);
}

#[test]
fn parse_level_reports_invalid_field() {
    assert_eq!(parse_level("WARN").unwrap(), LogLevel::Warn);
    match parse_level("DEBUG") {
        Err(ParseError::InvalidField { field, value }) => {
            assert_eq!(field, "level");
            assert_eq!(value, "DEBUG");
        }
        other => panic!("unexpected result {:?}", other),
    }
}

#[test]
fn parse_method_maps_verbs() {
    assert_eq!(parse_method("OPTIONS"), HttpMethod::Options);
    assert_eq!(parse_method("PATCH"), HttpMethod::Patch);
    assert_eq!(parse_method("HEAD"), HttpMethod::Head);
    assert_eq!(parse_method("CONNECT"), HttpMethod::Other("CONNECT".to_string()));
}

#[test]
fn parse_error_messages() {
    let e = ParseError::InvalidFormat("abc".to_string());
    assert_eq!(e.to_string(), "invalid format: line does not match expected pattern: \"abc\"");
    let f = ParseError::InvalidField { field: "status_code", value: "x".to_string() };
    assert_eq!(f.to_string(), "invalid value for field 'status_code': 'x'");
}

#[test]
fn odd_input_gives_a_classified_error() {
    let wide = "é".repeat(120);
    match parse_log_line(&wide) {
        Err(ParseError::InvalidFormat(m)) => assert_eq!(m, "é".repeat(100)),
        other => panic!("unexpected result {:?}", other),
    }
    for line in ["[INFO]", "\u{0}", "t [INFO] 1.2.3.4 GET /x ２００", "t [INFO] １.2.3.4 GET /x 200"] {
        assert!(matches!(parse_log_line(line), Err(ParseError::InvalidFormat(_))));
    }
}
