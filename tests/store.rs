use reply_bot::store::ReplyStore;
use reply_bot::text::{chars_of, split_on, string_of};

fn strings(v: &[&str]) -> Vec<String> {
    v.iter().map(|s| s.to_string()).collect()
}

#[test]
fn lookup_ignores_case() {
    let mut store = ReplyStore::new();
    store.upsert_set("Alice", strings(&["hello"]));
    assert_eq!(store.get("ALICE"), Some(strings(&["hello"])));
    assert_eq!(store.get("alice"), Some(strings(&["hello"])));
    assert_eq!(store.save(), "alice|hello\n");
}

#[test]
fn load_reads_records_and_tolerates_blank_lines() {
    let store = ReplyStore::load("bob|hi|yo\n\ncarol|hey\n");
    assert_eq!(store.get("bob"), Some(strings(&["hi", "yo"])));
    assert_eq!(store.get("carol"), Some(strings(&["hey"])));
    assert_eq!(store.get(""), Some(Vec::new()));
    assert_eq!(store.entries.len(), 3);
}

#[test]
fn load_of_empty_text_is_empty() {
    let store = ReplyStore::load("");
    assert_eq!(store.entries.len(), 0);
    assert_eq!(store.save(), "");
}

#[test]
fn later_record_replaces_earlier() {
    let store = ReplyStore::load("bob|a\nbob|b\n");
    assert_eq!(store.entries.len(), 1);
    assert_eq!(store.get("bob"), Some(strings(&["b"])));
}

#[test]
fn save_then_load_round_trips() {
    let text = "bob|hi|yo\ncarol|hey\ndave\n";
    let once = ReplyStore::load(text);
    let saved = once.save();
    assert_eq!(saved, text);
    let twice = ReplyStore::load(&saved);
    assert_eq!(twice.save(), saved);
}

#[test]
fn load_without_final_newline() {
    let store = ReplyStore::load("bob|hi");
    assert_eq!(store.save(), "bob|hi\n");
}

#[test]
fn add_accumulates_in_order() {
    let mut stepwise = ReplyStore::new();
    stepwise.upsert_add("eve", strings(&["x"]));
    stepwise.upsert_add("eve", strings(&["y"]));
    let mut at_once = ReplyStore::new();
    at_once.upsert_add("eve", strings(&["x", "y"]));
    assert_eq!(stepwise.get("eve"), Some(strings(&["x", "y"])));
    assert_eq!(stepwise.save(), at_once.save());
}

#[test]
fn set_discards_previous_replies() {
    let mut store = ReplyStore::load("bob|a|b\n");
    store.upsert_set("BOB", strings(&["c"]));
    assert_eq!(store.save(), "bob|c\n");
}

#[test]
fn remove_drops_user() {
    let mut store = ReplyStore::load("bob|a\ncarol|b\n");
    store.remove("Bob");
    assert_eq!(store.get("bob"), None);
    let reloaded = ReplyStore::load(&store.save());
    assert_eq!(reloaded.get("bob"), None);
    assert_eq!(reloaded.save(), "carol|b\n");
}

#[test]
fn remove_absent_user_changes_nothing() {
    let mut store = ReplyStore::load("bob|a\ncarol|b\n");
    store.remove("zed");
    assert_eq!(store.save(), "bob|a\ncarol|b\n");
}

#[test]
fn select_reply_picks_a_stored_reply() {
    let store = ReplyStore::load("carol|hey|hi\n");
    for _ in 0..100 {
        let r = store.select_reply("Carol").unwrap();
        assert!(r == "hey" || r == "hi");
    }
    assert_eq!(store.select_reply("nobody"), None);
}

#[test]
fn select_reply_without_replies_is_none() {
    let store = ReplyStore::load("dave\n");
    assert_eq!(store.select_reply("dave"), None);
}

#[test]
fn split_on_keeps_empty_pieces() {
    assert_eq!(split_on("a||b|", '|'), vec!["a", "", "b", ""]);
    assert_eq!(split_on("", '|'), vec![""]);
}

#[test]
fn chars_and_substrings() {
    let cs = chars_of("héllo");
    assert_eq!(cs.len(), 5);
    assert_eq!(string_of(&cs, 1, 4), "éll");
}
