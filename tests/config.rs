use reply_bot::yaml::YamlValue;
use reply_bot::config::{build_actions, parse_actions, read_users, users_of, Actions, ConfigError, React, Reply, UserConfig};

fn actions(reply: Option<(&str, i64)>, emoji: Option<&str>) -> Actions {
    Actions {
        reaction: emoji.map(|e| React { emoji: e.to_string() }),
        reply: reply.map(|(m, p)| Reply { message: m.to_string(), percent: p }),
    }
}

#[test]
fn zero_percent_never_replies() {
    let a = actions(Some(("hi", 0)), None);
    for _ in 0..1000 {
        assert_eq!(a.get_message(), None);
    }
}

#[test]
fn full_percent_always_replies() {
    let a = actions(Some(("hi", 100)), None);
    for _ in 0..1000 {
        assert_eq!(a.get_message(), Some("hi".to_string()));
    }
}

#[test]
fn draw_below_percent_replies() {
    let a = actions(Some(("hi", 30)), None);
    assert_eq!(a.message_for_draw(29), Some("hi".to_string()));
    assert_eq!(a.message_for_draw(30), None);
    assert_eq!(actions(None, None).message_for_draw(0), None);
}

#[test]
fn reaction_is_independent_of_reply() {
    let a = actions(Some(("hi", 0)), Some("🔥"));
    assert_eq!(a.get_reaction(), Some("🔥".to_string()));
    assert_eq!(actions(None, None).get_reaction(), None);
}

#[test]
fn parses_yaml_users() {
    let text = "users:\n  - name: Alice\n    reply: hello\n    reply_percent: 40\n  - name: bob\n    reaction: \"👍\"\n";
    let map = parse_actions(text).unwrap();
    let alice = map.get("ALICE").unwrap();
    assert_eq!(alice.message_for_draw(39), Some("hello".to_string()));
    assert_eq!(alice.message_for_draw(40), None);
    assert_eq!(alice.get_reaction(), None);
    let bob = map.get("Bob").unwrap();
    assert_eq!(bob.get_reaction(), Some("👍".to_string()));
    assert_eq!(bob.get_message(), None);
    assert!(map.get("carol").is_none());
}

#[test]
fn reply_percent_defaults_to_full() {
    let map = parse_actions("users:\n  - name: dan\n    reply: yo\n").unwrap();
    assert_eq!(map.get("dan").unwrap().message_for_draw(99), Some("yo".to_string()));
}

#[test]
fn user_without_name_is_kept_under_empty_key() {
    let map = parse_actions("users:\n  - reply: yo\n  - name: Ann\n    reply: hi\n").unwrap();
    assert_eq!(map.entries.len(), 2);
    assert_eq!(map.get("").unwrap().message_for_draw(0), Some("yo".to_string()));
    assert_eq!(map.get("ann").unwrap().message_for_draw(0), Some("hi".to_string()));
    let users = vec![UserConfig { name: None, reaction: None, reply: None, reply_percent: None }];
    assert_eq!(build_actions(&users).entries.len(), 1);
}

#[test]
fn long_reply_line_is_accepted() {
    let reply = "b".repeat(2500);
    let text = format!("users:\n  - name: {}\n    reply: {}\n", "a".repeat(300), reply);
    let map = parse_actions(&text).unwrap();
    let a = map.get(&"A".repeat(300)).unwrap();
    assert_eq!(a.message_for_draw(0), Some(reply));
}

#[test]
fn deep_block_nesting_is_refused() {
    let text = format!("{}x\n", "- ".repeat(200));
    assert_eq!(parse_actions(&text).err(), Some(ConfigError::TooDeep));
    let deep_indent = format!("users:\n{}- name: x\n", " ".repeat(300));
    assert_eq!(parse_actions(&deep_indent).err(), Some(ConfigError::TooDeep));
    let shallow = format!("{}x\n", "- ".repeat(100));
    assert_eq!(parse_actions(&shallow).err(), Some(ConfigError::MissingUsers));
}

#[test]
fn users_of_reads_parsed_documents() {
    let user = YamlValue::Hash(vec![
        (YamlValue::Text("name".to_string()), YamlValue::Text("Zed".to_string())),
        (YamlValue::Text("reply_percent".to_string()), YamlValue::Integer(5)),
        (YamlValue::Text("reply".to_string()), YamlValue::Integer(1)),
    ]);
    let doc = YamlValue::Hash(vec![(
        YamlValue::Text("users".to_string()),
        YamlValue::Array(vec![user, YamlValue::Null]),
    )]);
    let users = users_of(&vec![doc]).unwrap();
    assert_eq!(users.len(), 2);
    assert_eq!(users[0].name, Some("Zed".to_string()));
    assert_eq!(users[0].reply, None);
    assert_eq!(users[0].reply_percent, Some(5));
    assert_eq!(users[1].name, None);
    assert_eq!(users_of(&vec![]).err(), Some(ConfigError::MissingUsers));
    assert_eq!(users_of(&vec![YamlValue::Null]).err(), Some(ConfigError::MissingUsers));
}

#[test]
fn read_users_reads_fields() {
    let users = read_users("users:\n  - name: Bo\n    reply_percent: 7\n  - 3\n").unwrap();
    assert_eq!(users.len(), 2);
    assert_eq!(users[0].name, Some("Bo".to_string()));
    assert_eq!(users[0].reply_percent, Some(7));
    assert_eq!(users[1].name, None);
}

#[test]
fn missing_users_is_refused() {
    assert_eq!(parse_actions("other: 1\n").err(), Some(ConfigError::MissingUsers));
    assert_eq!(parse_actions("").err(), Some(ConfigError::MissingUsers));
}

#[test]
fn malformed_yaml_is_refused() {
    assert_eq!(parse_actions("users: [a, b").err(), Some(ConfigError::Malformed));
}

#[test]
fn later_user_replaces_earlier() {
    let users = vec![
        UserConfig { name: Some("Eve".to_string()), reaction: None, reply: Some("a".to_string()), reply_percent: None },
        UserConfig { name: Some("eve".to_string()), reaction: None, reply: Some("b".to_string()), reply_percent: None },
    ];
    let map = build_actions(&users);
    assert_eq!(map.entries.len(), 1);
    assert_eq!(map.get("eve").unwrap().message_for_draw(0), Some("b".to_string()));
}
