use sudoku::cli::{App, Method, MethodData, Parameter, Token, gather_escapes, parse_param};

fn bare_app() -> App {
    App {
        quiet: false,
        verbose: 0,
        form: false,
        auth: None,
        token: None,
        session: None,
        session_dir: None,
        read_only: false,
        secure: false,
        cmd: None,
        url: None,
        parameters: Vec::new(),
    }
}

#[test]
fn validate_needs_a_target() {
    let mut app = bare_app();
    assert_eq!(app.validate(), Err(()));
    app.url = Some(String::from("example.com"));
    assert_eq!(app.validate(), Ok(()));
}

#[test]
fn validate_accepts_a_subcommand() {
    let mut app = bare_app();
    app.cmd = Some(Method::GET(MethodData {
        url: String::from("example.com"),
        parameters: Vec::new(),
    }));
    assert_eq!(app.validate(), Ok(()));
}

#[test]
fn data_reaches_any_variant() {
    let payload = MethodData {
        url: String::from("example.com"),
        parameters: Vec::new(),
    };
    let m = Method::DELETE(payload);
    assert_eq!(m.data().url, "example.com");
    assert!(m.data().parameters.is_empty());
}

#[test]
fn is_data_distinguishes_the_kinds() {
    let h = Parameter::Header {
        key: String::from("accept"),
        value: String::from("application/json"),
    };
    let d = Parameter::Data {
        key: String::from("name"),
        value: String::from("x"),
    };
    assert!(!h.is_data());
    assert!(d.is_data());
}

#[test]
fn parses_data_parameter() {
    match parse_param("name=value") {
        Ok(Parameter::Data { key, value }) => {
            assert_eq!(key, "name");
            assert_eq!(value, "value");
        }
        other => panic!("expected a data parameter, got {:?}", other),
    }
}

#[test]
fn parses_header_parameter() {
    match parse_param("accept:application/json") {
        Ok(Parameter::Header { key, value }) => {
            assert_eq!(key, "accept");
            assert_eq!(value, "application/json");
        }
        other => panic!("expected a header parameter, got {:?}", other),
    }
}

#[test]
fn splits_at_first_separator() {
    match parse_param("a=b=c") {
        Ok(Parameter::Data { key, value }) => {
            assert_eq!(key, "a");
            assert_eq!(value, "b=c");
        }
        other => panic!("expected a data parameter, got {:?}", other),
    }
}

#[test]
fn escaped_separator_is_skipped() {
    match parse_param("a\\=b=c") {
        Ok(Parameter::Data { key, value }) => {
            assert_eq!(key, "a\\=b");
            assert_eq!(value, "c");
        }
        other => panic!("expected a data parameter, got {:?}", other),
    }
}

#[test]
fn missing_separator_is_an_error() {
    assert!(matches!(parse_param("keyvalue"), Err("missing separator")));
    assert!(matches!(parse_param("a\\:b"), Err("missing separator")));
    assert!(matches!(parse_param(""), Err("missing separator")));
}

#[test]
fn gathers_escapes_and_text() {
    let tokens = gather_escapes("a\\=b");
    assert_eq!(tokens.len(), 3);
    match &tokens[0] {
        Token::Text(t) => assert_eq!(t, "a"),
        other => panic!("expected text, got {:?}", other),
    }
    match &tokens[1] {
        Token::Escape(c) => assert_eq!(*c, '='),
        other => panic!("expected an escape, got {:?}", other),
    }
    match &tokens[2] {
        Token::Text(t) => assert_eq!(t, "b"),
        other => panic!("expected text, got {:?}", other),
    }
}

#[test]
fn plain_text_is_one_token() {
    let tokens = gather_escapes("plain");
    assert_eq!(tokens.len(), 1);
    match &tokens[0] {
        Token::Text(t) => assert_eq!(t, "plain"),
        other => panic!("expected text, got {:?}", other),
    }
}

#[test]
fn trailing_backslash_stays_text() {
    let tokens = gather_escapes("ab\\");
    assert_eq!(tokens.len(), 1);
    match &tokens[0] {
        Token::Text(t) => assert_eq!(t, "ab\\"),
        other => panic!("expected text, got {:?}", other),
    }
}

#[test]
fn non_separator_escape_stays_text() {
    let tokens = gather_escapes("a\\nb");
    assert_eq!(tokens.len(), 1);
    match &tokens[0] {
        Token::Text(t) => assert_eq!(t, "a\\nb"),
        other => panic!("expected text, got {:?}", other),
    }
}
