use rift::rules::{expect_str, lex, parse, Action, Tok};

fn hdr(pairs: &[(&str, &str)]) -> Vec<(String, String)> {
    pairs.iter().map(|(k, v)| (k.to_ascii_lowercase(), v.to_string())).collect()
}

#[test]
fn prefix_and_upstream() {
    let r = parse(r#"route path "/api/" -> upstream "http://127.0.0.1:9001""#).unwrap();
    match r.route(None, "/api/users", &[]) {
        Some(Action::Upstream(u)) => assert_eq!(u, "http://127.0.0.1:9001"),
        other => panic!("{other:?}"),
    }
    assert!(r.route(None, "/other", &[]).is_none());
}

#[test]
fn host_and_regex() {
    let r = parse(r#"route host "api.example.com" path ~ "^/v[0-9]+/" -> respond 200 "ok""#).unwrap();
    assert!(r.route(Some("api.example.com"), "/v2/x", &[]).is_some());
    assert!(r.route(Some("API.EXAMPLE.COM"), "/v2/x", &[]).is_some()); // case-insensitive host
    assert!(r.route(Some("other.com"), "/v2/x", &[]).is_none());
    assert!(r.route(Some("api.example.com"), "/nope", &[]).is_none());
}

#[test]
fn header_match() {
    let r = parse(r#"route path "/" header "X-Env" "prod" -> respond 204 """#).unwrap();
    assert!(r.route(None, "/", &hdr(&[("x-env", "prod")])).is_some());
    assert!(r.route(None, "/", &hdr(&[("x-env", "dev")])).is_none());
    assert!(r.route(None, "/", &[]).is_none());
}

#[test]
fn first_match_wins() {
    let src = "route path \"/a\" -> respond 201 \"first\"\nroute path \"/a\" -> respond 202 \"second\"";
    let r = parse(src).unwrap();
    match r.route(None, "/a", &[]) {
        Some(Action::Respond(c, _)) => assert_eq!(*c, 201),
        other => panic!("{other:?}"),
    }
}

#[test]
fn comments_and_blanks_ignored() {
    let src = "# a comment\n\nroute path \"/\" -> respond 200 \"hi\"  # trailing\n";
    let r = parse(src).unwrap();
    assert_eq!(r.rules.len(), 1);
}

#[test]
fn parse_errors_name_the_line() {
    assert!(parse("route path -> respond 200").unwrap_err().contains("line 1"));
    assert!(parse("nonsense").unwrap_err().contains("line 1"));
    assert!(parse("route path ~ \"(\" -> respond 200 \"x\"").unwrap_err().contains("bad regex"));
}

// ---- lexer ----

fn ident(s: &str) -> Tok {
    Tok::Ident(s.to_string())
}

fn string(s: &str) -> Tok {
    Tok::Str(s.to_string())
}

#[test]
fn lex_splits_words_strings_and_symbols() {
    let toks = lex(r#"route path ~ "^/v1/" -> upstream "u""#).unwrap();
    assert_eq!(
        toks,
        vec![
            ident("route"),
            ident("path"),
            Tok::Tilde,
            string("^/v1/"),
            Tok::Arrow,
            ident("upstream"),
            string("u"),
        ]
    );
}

#[test]
fn lex_escapes_inside_strings() {
    let toks = lex(r#""a\"b\\c\nd\qe""#).unwrap();
    assert_eq!(toks, vec![string("a\"b\\c\ndqe")]);
}

#[test]
fn lex_comment_and_whitespace() {
    assert_eq!(lex("   # only a comment").unwrap(), vec![]);
    assert_eq!(lex("").unwrap(), vec![]);
    assert_eq!(lex("\t\u{3000}a\u{a0}b").unwrap(), vec![ident("a"), ident("b")]);
    assert_eq!(lex("a#b c").unwrap(), vec![ident("a#b"), ident("c")]);
    assert_eq!(lex("x\"y\"z").unwrap(), vec![ident("x"), string("y"), ident("z")]);
}

#[test]
fn lex_arrow_and_dash_words() {
    assert_eq!(lex("->").unwrap(), vec![Tok::Arrow]);
    assert_eq!(lex("-x ~~").unwrap(), vec![ident("-x"), Tok::Tilde, Tok::Tilde]);
    assert_eq!(lex("a->b").unwrap(), vec![ident("a->b")]);
    assert_eq!(lex("-").unwrap(), vec![ident("-")]);
}

#[test]
fn lex_errors() {
    assert_eq!(lex("\"abc").unwrap_err(), "unterminated string");
    assert_eq!(lex("\"abc\\").unwrap_err(), "dangling escape");
}

#[test]
fn expect_str_picks_quoted_strings_only() {
    let toks = vec![ident("a"), string("b")];
    assert_eq!(expect_str(&toks, 1).unwrap(), "b");
    assert_eq!(expect_str(&toks, 0).unwrap_err(), "expected a quoted string");
    assert_eq!(expect_str(&toks, 2).unwrap_err(), "expected a quoted string");
}

#[test]
fn lexing_space_joined_text_concatenates_tokens() {
    let a = "route host \"h\" ->";
    let b = "respond 200 \"x y\"";
    let mut want = lex(a).unwrap();
    want.extend(lex(b).unwrap());
    assert_eq!(lex(&format!("{a} {b}")).unwrap(), want);
    // a comment in the first part swallows the second
    assert_eq!(lex(&format!("route # c {b}")).unwrap(), lex("route").unwrap());
    // '#' inside a word or a string opens no comment
    assert_eq!(lex(&format!("a#b {b}")).unwrap().len(), 1 + lex(b).unwrap().len());
}

#[test]
fn comment_after_a_token_boundary_is_ignored() {
    assert_eq!(lex("route -> respond 200 #\"unclosed").unwrap(), lex("route -> respond 200").unwrap());
    assert_eq!(lex("#anything \" \\").unwrap(), vec![]);
}

#[test]
fn trailing_whitespace_changes_nothing() {
    assert_eq!(lex("route ->\r").unwrap(), lex("route ->").unwrap());
    assert!(lex("\"abc\\").is_err());
    assert!(lex("\"abc\\\r").is_err());
}
