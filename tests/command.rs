use reply_bot::command::{parse_args, parse_command, Command};
use reply_bot::select::pick_reply;
use reply_bot::store::ReplyStore;

fn strings(v: &[&str]) -> Vec<String> {
    v.iter().map(|s| s.to_string()).collect()
}

fn set_parts(c: Command) -> (String, Vec<String>) {
    match c {
        Command::SetReplies { username, replies } => (username, replies),
        _ => panic!("not a set command"),
    }
}

#[test]
fn set_with_whitespace_keeps_rest_as_one_reply() {
    let (u, r) = set_parts(parse_command("!set bob hello there"));
    assert_eq!(u, "bob");
    assert_eq!(r, strings(&["hello there"]));
}

#[test]
fn set_with_bars_splits_fields() {
    let (u, r) = set_parts(parse_command("!set bob|hi|yo"));
    assert_eq!(u, "bob");
    assert_eq!(r, strings(&["hi", "yo"]));
}

#[test]
fn add_parses_like_set() {
    match parse_command("!add bob|x") {
        Command::AddReplies { username, replies } => {
            assert_eq!(username, "bob");
            assert_eq!(replies, strings(&["x"]));
        }
        _ => panic!("not an add command"),
    }
}

#[test]
fn set_without_separator_or_space_is_dropped() {
    assert!(matches!(parse_command("!set bob"), Command::Dropped));
    assert!(matches!(parse_command("!add bob"), Command::Dropped));
    assert_eq!(parse_args("bob"), None);
}

#[test]
fn args_split_on_first_whitespace() {
    assert_eq!(
        parse_args("bob\tsay hi"),
        Some(("bob".to_string(), strings(&["say hi"])))
    );
}

#[test]
fn unset_takes_trimmed_name() {
    match parse_command("!unset   carol  ") {
        Command::Unset { username } => assert_eq!(username, "carol"),
        _ => panic!("not an unset command"),
    }
    assert!(matches!(parse_command("!unset   "), Command::Dropped));
}

#[test]
fn other_text_is_a_message() {
    assert!(matches!(parse_command("hello"), Command::Message));
    assert!(matches!(parse_command("!setbob x"), Command::Message));
    assert!(matches!(parse_command(""), Command::Message));
}

#[test]
fn pick_reply_by_index() {
    let r = strings(&["a", "b"]);
    assert_eq!(pick_reply(&r, 1), Some("b".to_string()));
    assert_eq!(pick_reply(&r, 2), None);
}

#[test]
fn carol_scenario() {
    let mut store = ReplyStore::load("");
    assert_eq!(store.process("admin", "!set carol|hey|hi"), None);
    assert_eq!(store.save(), "carol|hey|hi\n");
    let reply = store.process("carol", "anything").unwrap();
    assert!(reply == "hey" || reply == "hi");
    assert_eq!(store.process("admin", "!unset carol"), None);
    assert_eq!(store.save(), "");
    assert_eq!(store.process("carol", "anything"), None);
}

#[test]
fn add_command_appends() {
    let mut store = ReplyStore::load("bob|a\n");
    store.process("x", "!add Bob b");
    assert_eq!(store.save(), "bob|a|b\n");
}

#[test]
fn command_with_newline_is_ignored() {
    let mut store = ReplyStore::load("bob|a\n");
    assert_eq!(store.process("x", "!set bob a\nb"), None);
    assert_eq!(store.process("x", "!add bob|c\nd"), None);
    assert_eq!(store.save(), "bob|a\n");
}
