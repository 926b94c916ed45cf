use pop3_server::protocol::{Command, Response, StatusIndicator};
use pop3_server::text::{message_lines, parse_message_id, words};

fn negative_text(r: Result<Command, StatusIndicator>) -> String {
    match r {
        Err(StatusIndicator::Negative(t)) => t,
        _ => panic!("expected a negative status"),
    }
}

#[test]
fn parse_user_takes_one_word() {
    match Command::parse("USER alice") {
        Ok(Command::User(u)) => assert_eq!(u, "alice"),
        _ => panic!("expected USER"),
    }
}

#[test]
fn parse_verb_is_case_insensitive() {
    match Command::parse("  uSeR bob\r\n") {
        Ok(Command::User(u)) => assert_eq!(u, "bob"),
        _ => panic!("expected USER"),
    }
    assert!(matches!(Command::parse("quit"), Ok(Command::Quit)));
    assert!(matches!(Command::parse("Rset"), Ok(Command::Rset)));
}

#[test]
fn parse_arguments_keep_their_case() {
    match Command::parse("user Alice") {
        Ok(Command::User(u)) => assert_eq!(u, "Alice"),
        _ => panic!("expected USER"),
    }
}

#[test]
fn parse_pass_joins_the_tail() {
    match Command::parse("PASS  correct horse   battery\r\n") {
        Ok(Command::Pass(p)) => assert_eq!(p, "correct horse battery"),
        _ => panic!("expected PASS"),
    }
}

#[test]
fn parse_missing_arguments() {
    assert_eq!(negative_text(Command::parse("USER")), "USER requires username");
    assert_eq!(negative_text(Command::parse("PASS \r\n")), "PASS requires password");
    assert_eq!(negative_text(Command::parse("RETR")), "RETR requires message number");
    assert_eq!(negative_text(Command::parse("DELE")), "DELE requires message number");
}

#[test]
fn parse_list_with_and_without_argument() {
    assert!(matches!(Command::parse("LIST"), Ok(Command::List(None))));
    assert!(matches!(Command::parse("LIST 2"), Ok(Command::List(Some(2)))));
    assert!(matches!(Command::parse("RETR 17"), Ok(Command::Retr(17))));
    assert!(matches!(Command::parse("DELE +3"), Ok(Command::Dele(3))));
}

#[test]
fn parse_bad_ordinals() {
    assert_eq!(
        negative_text(Command::parse("LIST x")),
        "error parsing ID: invalid digit found in string"
    );
    assert_eq!(
        negative_text(Command::parse("RETR -1")),
        "error parsing ID: invalid digit found in string"
    );
    assert_eq!(
        negative_text(Command::parse("DELE 18446744073709551616")),
        "error parsing ID: number too large to fit in target type"
    );
    assert!(matches!(
        Command::parse("DELE 18446744073709551615"),
        Ok(Command::Dele(18446744073709551615))
    ));
}

#[test]
fn parse_unknown_and_empty() {
    assert_eq!(negative_text(Command::parse("STAT")), "Unknown command");
    assert_eq!(negative_text(Command::parse("")), "Unknown command");
    assert_eq!(negative_text(Command::parse(" \r\n")), "Unknown command");
}

#[test]
fn parse_apop_and_noop() {
    assert!(matches!(Command::parse("APOP alice digest"), Ok(Command::Apop)));
    assert!(matches!(Command::parse("NOOP"), Ok(Command::Noop)));
}

#[test]
fn command_lines() {
    assert_eq!(Command::User("alice".to_string()).to_line(), "USER alice\r\n");
    assert_eq!(Command::Pass("a b".to_string()).to_line(), "PASS a b\r\n");
    assert_eq!(Command::List(None).to_line(), "LIST\r\n");
    assert_eq!(Command::List(Some(12)).to_line(), "LIST 12\r\n");
    assert_eq!(Command::Dele(0).to_line(), "DELE 0\r\n");
    assert_eq!(Command::Quit.to_line(), "QUIT\r\n");
}

#[test]
fn format_then_parse_gives_the_command_back() {
    match Command::parse(&Command::Pass("s3cret word".to_string()).to_line()) {
        Ok(Command::Pass(p)) => assert_eq!(p, "s3cret word"),
        _ => panic!("expected PASS"),
    }
    match Command::parse(&Command::User("alice".to_string()).to_line()) {
        Ok(Command::User(u)) => assert_eq!(u, "alice"),
        _ => panic!("expected USER"),
    }
    assert!(matches!(
        Command::parse(&Command::Retr(4096).to_line()),
        Ok(Command::Retr(4096))
    ));
    assert!(matches!(
        Command::parse(&Command::List(Some(u64::MAX)).to_line()),
        Ok(Command::List(Some(u64::MAX)))
    ));
    assert!(matches!(Command::parse(&Command::Rset.to_line()), Ok(Command::Rset)));
    assert!(matches!(Command::parse(&Command::Noop.to_line()), Ok(Command::Noop)));
    assert!(matches!(Command::parse(&Command::Apop.to_line()), Ok(Command::Apop)));
}

#[test]
fn status_lines() {
    assert_eq!(
        StatusIndicator::Positive("POP3 server ready".to_string()).render(),
        "+OK POP3 server ready\r\n"
    );
    assert_eq!(
        StatusIndicator::Negative("Unknown command".to_string()).render(),
        "-ERR Unknown command\r\n"
    );
}

#[test]
fn multi_line_reply_is_dot_stuffed() {
    let r = Response {
        status: StatusIndicator::Positive("3 octets".to_string()),
        body: Some(vec![".".to_string(), "..x".to_string(), "a".to_string(), String::new()]),
    };
    assert_eq!(r.to_wire(), "+OK 3 octets\r\n..\r\n...x\r\na\r\n\r\n.\r\n");
}

fn unstuff(wire: &str) -> Vec<String> {
    let mut out = Vec::new();
    for line in wire.split("\r\n").skip(1) {
        if line == "." {
            return out;
        }
        out.push(line.strip_prefix('.').unwrap_or(line).to_string());
    }
    panic!("no terminator");
}

#[test]
fn dot_stuffed_body_reads_back_verbatim() {
    let body: Vec<String> = vec![".", "..", ".hidden", "plain", "", "..."]
        .into_iter()
        .map(|s| s.to_string())
        .collect();
    let r = Response {
        status: StatusIndicator::Positive("body".to_string()),
        body: Some(body.clone()),
    };
    assert_eq!(unstuff(&r.to_wire()), body);
}

#[test]
fn single_line_reply_has_no_terminator() {
    let r = Response { status: StatusIndicator::Positive(String::new()), body: None };
    assert_eq!(r.to_wire(), "+OK \r\n");
}

#[test]
fn message_text_splits_into_lines() {
    assert_eq!(message_lines("a\r\nb\n.c"), vec!["a", "b", ".c"]);
    assert_eq!(message_lines("one\r\n\r\ntwo\r\n"), vec!["one", "", "two"]);
    assert!(message_lines("").is_empty());
}

#[test]
fn words_split_on_whitespace() {
    assert_eq!(words("  a\tb  c\r\n"), vec!["a", "b", "c"]);
    assert!(words(" \t ").is_empty());
}

#[test]
fn message_ids() {
    assert_eq!(parse_message_id("0"), Ok(0));
    assert_eq!(parse_message_id("+42"), Ok(42));
    assert_eq!(parse_message_id("+"), Err("invalid digit found in string".to_string()));
    assert_eq!(parse_message_id("4a"), Err("invalid digit found in string".to_string()));
}
