use kimap_explorer::events::{EventKind, EventTable, LogError, LogRecord};
use kimap_explorer::store::{DataKey, State, StoreError, ROOT_HASH};
use kimap_explorer::sync::{step, Phase, SyncAction, SyncEvent, RETRY_DELAY_SECS};

fn table() -> EventTable {
    EventTable { mint: "0xmint".to_string(), note: "0xnote".to_string(), fact: "0xfact".to_string() }
}

fn record(topic: &str, parent: &str, child: &str, label: &[u8], data: &[u8]) -> LogRecord {
    LogRecord {
        topic: topic.to_string(),
        parent_hash: parent.to_string(),
        child_hash: child.to_string(),
        label: label.to_vec(),
        data: data.to_vec(),
    }
}

fn label_len(node: &kimap_explorer::store::Node, label: &str) -> Option<usize> {
    let k = node.data_labels.iter().position(|l| l == label)?;
    match &node.data_values[k] {
        DataKey::Fact(b) => Some(b.len()),
        DataKey::Note(h) => Some(h.last().unwrap().len()),
    }
}

#[test]
fn bootstrap_scenario_builds_nested_entries() {
    let mut s = State::new();
    let t = table();
    assert_eq!(s.handle_log(&t, record("0xmint", ROOT_HASH, "a", b"a", b"")), Ok(()));
    assert_eq!(s.handle_log(&t, record("0xmint", "a", "b", b"b", b"")), Ok(()));
    assert_eq!(s.handle_log(&t, record("0xfact", "b", "", b"k1", &[1, 2, 3])), Ok(()));
    let b = s.lookup_by_name("b.a").unwrap();
    assert_eq!(b.parent_path, ".a");
    assert_eq!(b.name, "b");
    assert_eq!(label_len(b, "k1"), Some(3));
    assert_eq!(s.resolve("b.a"), Some("b".to_string()));
    assert_eq!(
        s.tree(ROOT_HASH, 0),
        ".\r\n└─ a\r\n    └─ b.a\r\n        └─ k1: 3 bytes"
    );
}

#[test]
fn orphan_note_is_dropped_then_succeeds_after_create() {
    let mut s = State::new();
    let t = table();
    let before = s.len();
    assert_eq!(
        s.handle_log(&t, record("0xnote", "x", "", b"n", b"v")),
        Err(LogError::Store(StoreError::OrphanParent))
    );
    assert_eq!(s.len(), before);
    assert_eq!(s.handle_log(&t, record("0xmint", ROOT_HASH, "x", b"x", b"")), Ok(()));
    assert_eq!(s.handle_log(&t, record("0xnote", "x", "", b"n", b"v")), Ok(()));
    assert_eq!(label_len(s.get("x").unwrap(), "n"), Some(1));
}

#[test]
fn two_notes_keep_history_and_render_latest_length() {
    let mut s = State::new();
    s.add_mint(ROOT_HASH, "e".to_string(), "e".to_string()).unwrap();
    s.add_note("e", "k".to_string(), vec![1]).unwrap();
    s.add_note("e", "k".to_string(), vec![2, 3, 4, 5]).unwrap();
    let e = s.get("e").unwrap();
    match &e.data_values[0] {
        DataKey::Note(h) => assert_eq!(h, &vec![vec![1u8], vec![2, 3, 4, 5]]),
        DataKey::Fact(_) => panic!("expected a note"),
    }
    assert_eq!(s.tree("e", 0), "└─ e\r\n└─ k: 4 bytes");
}

#[test]
fn note_history_length_matches_call_count() {
    let mut s = State::new();
    for i in 0..7u8 {
        s.add_note(ROOT_HASH, "log".to_string(), vec![i; i as usize]).unwrap();
    }
    match &s.get(ROOT_HASH).unwrap().data_values[0] {
        DataKey::Note(h) => {
            assert_eq!(h.len(), 7);
            assert_eq!(h.last().unwrap(), &vec![6u8; 6]);
        }
        DataKey::Fact(_) => panic!("expected a note"),
    }
}

#[test]
fn duplicate_fact_is_refused_and_kept() {
    let mut s = State::new();
    assert_eq!(s.add_fact(ROOT_HASH, "f".to_string(), vec![9, 9]), Ok(()));
    assert_eq!(s.add_fact(ROOT_HASH, "f".to_string(), vec![1]), Err(StoreError::DuplicateImmutable));
    assert_eq!(s.add_note(ROOT_HASH, "f".to_string(), vec![1, 2, 3]), Ok(()));
    match &s.get(ROOT_HASH).unwrap().data_values[0] {
        DataKey::Fact(b) => assert_eq!(b, &vec![9, 9]),
        DataKey::Note(_) => panic!("fact was replaced"),
    }
}

#[test]
fn fact_on_missing_entry_is_orphan() {
    let mut s = State::new();
    assert_eq!(s.add_fact("nope", "f".to_string(), vec![]), Err(StoreError::OrphanParent));
    assert_eq!(s.add_mint("nope", "c".to_string(), "c".to_string()), Err(StoreError::OrphanParent));
}

#[test]
fn repeated_create_is_idempotent() {
    let mut s = State::new();
    assert_eq!(s.add_mint(ROOT_HASH, "a".to_string(), "a".to_string()), Ok(()));
    let once = s.tree(ROOT_HASH, 0);
    let n = s.len();
    assert_eq!(s.add_mint(ROOT_HASH, "a".to_string(), "a".to_string()), Ok(()));
    assert_eq!(s.len(), n);
    assert_eq!(s.tree(ROOT_HASH, 0), once);
    assert_eq!(s.get(ROOT_HASH).unwrap().child_names, vec!["a".to_string()]);
}

#[test]
fn mismatching_create_is_invariant_violation() {
    let mut s = State::new();
    s.add_mint(ROOT_HASH, "a".to_string(), "a".to_string()).unwrap();
    assert_eq!(s.add_mint(ROOT_HASH, "a".to_string(), "z".to_string()), Err(StoreError::InvariantViolation));
    assert_eq!(s.add_mint(ROOT_HASH, "a2".to_string(), "a".to_string()), Err(StoreError::InvariantViolation));
    assert_eq!(s.len(), 2);
}

#[test]
fn full_names_chain_through_deep_paths() {
    let mut s = State::new();
    s.add_mint(ROOT_HASH, "h1".to_string(), "os".to_string()).unwrap();
    s.add_mint("h1", "h2".to_string(), "kino".to_string()).unwrap();
    s.add_mint("h2", "h3".to_string(), "doria".to_string()).unwrap();
    s.add_mint("h3", "h4".to_string(), "app".to_string()).unwrap();
    let d = s.get("h4").unwrap();
    assert_eq!(d.parent_path, ".doria.kino.os");
    assert_eq!(s.resolve("app.doria.kino.os"), Some("h4".to_string()));
    assert_eq!(s.resolve("doria.kino.os"), Some("h3".to_string()));
    assert_eq!(s.resolve("kino.os"), Some("h2".to_string()));
    assert_eq!(s.resolve("os"), Some("h1".to_string()));
    assert_eq!(s.get("h3").unwrap().child_names, vec!["app.doria.kino.os".to_string()]);
}

#[test]
fn children_render_in_lexicographic_order_deterministically() {
    let mut s = State::new();
    for (h, n) in [("h3", "zeta"), ("h1", "alpha"), ("h2", "mid")] {
        s.add_mint(ROOT_HASH, h.to_string(), n.to_string()).unwrap();
    }
    let first = s.tree(ROOT_HASH, 0);
    assert_eq!(first, ".\r\n└─ alpha\r\n└─ mid\r\n└─ zeta");
    assert_eq!(s.tree(ROOT_HASH, 0), first);
    assert_eq!(s.get(ROOT_HASH).unwrap().child_names, vec!["alpha", "mid", "zeta"]);
}

#[test]
fn unknown_root_renders_empty() {
    let s = State::new();
    assert_eq!(s.tree("missing", 0), "");
    assert!(s.lookup_by_name("missing").is_none());
    assert!(s.get("missing").is_none());
}

#[test]
fn annotation_lengths_use_decimal_and_indent() {
    let mut s = State::new();
    s.add_mint(ROOT_HASH, "a".to_string(), "a".to_string()).unwrap();
    s.add_fact("a", "big".to_string(), vec![0; 1234]).unwrap();
    s.add_note("a", "alpha".to_string(), vec![]).unwrap();
    assert_eq!(s.tree("a", 3), "└─ a\r\n            └─ alpha: 0 bytes\r\n            └─ big: 1234 bytes");
}

#[test]
fn invalid_utf8_label_is_decode_error() {
    let mut s = State::new();
    let t = table();
    assert_eq!(
        s.handle_log(&t, record("0xmint", ROOT_HASH, "c", &[0xff, 0xfe], b"")),
        Err(LogError::Decode)
    );
    assert_eq!(s.len(), 1);
}

#[test]
fn unrecognized_topic_is_ignored() {
    let mut s = State::new();
    let t = table();
    assert_eq!(s.handle_log(&t, record("0xother", ROOT_HASH, "c", b"c", b"")), Ok(()));
    assert_eq!(s.len(), 1);
    assert_eq!(t.classify("0xfact"), Some(EventKind::Fact));
    assert_eq!(t.classify("0xmint"), Some(EventKind::Mint));
    assert_eq!(t.classify("0xnote"), Some(EventKind::Note));
    assert_eq!(t.classify("0x"), None);
}

#[test]
fn utf8_label_is_decoded() {
    let mut s = State::new();
    let t = table();
    assert_eq!(s.handle_log(&t, record("0xmint", ROOT_HASH, "c", "café".as_bytes(), b"")), Ok(()));
    assert_eq!(s.get("c").unwrap().name, "café");
}

#[test]
fn sync_controller_transitions() {
    assert_eq!(step(Phase::Bootstrapping, SyncEvent::Started), (Phase::Bootstrapping, SyncAction::SubscribeAndFetch));
    assert_eq!(
        step(Phase::Bootstrapping, SyncEvent::FetchFailed),
        (Phase::Bootstrapping, SyncAction::RetryFetchAfter(RETRY_DELAY_SECS))
    );
    assert_eq!(RETRY_DELAY_SECS, 5);
    assert_eq!(step(Phase::Bootstrapping, SyncEvent::HistoryApplied), (Phase::Live, SyncAction::AwaitDelivery));
    assert_eq!(step(Phase::Live, SyncEvent::RecordApplied), (Phase::Live, SyncAction::AwaitDelivery));
    assert_eq!(step(Phase::Live, SyncEvent::StreamFailed), (Phase::Live, SyncAction::Resubscribe));
    assert_eq!(step(Phase::Live, SyncEvent::FetchFailed).0, Phase::Live);
}

#[test]
fn deep_chain_renders_every_level() {
    let mut s = State::new();
    s.add_mint(ROOT_HASH, "h1".to_string(), "a".to_string()).unwrap();
    s.add_mint("h1", "h2".to_string(), "b".to_string()).unwrap();
    s.add_mint("h2", "h3".to_string(), "c".to_string()).unwrap();
    s.add_mint("h3", "h4".to_string(), "d".to_string()).unwrap();
    s.add_note("h4", "n".to_string(), vec![7, 7]).unwrap();
    assert_eq!(
        s.tree(ROOT_HASH, 0),
        ".\r\n└─ a\r\n    └─ b.a\r\n        └─ c.b.a\r\n            └─ d.c.b.a\r\n                └─ n: 2 bytes"
    );
    assert_eq!(s.get("h4").unwrap().depth, 4);
    assert_eq!(s.tree("h3", 1), "└─ c.b.a\r\n    └─ d.c.b.a\r\n        └─ n: 2 bytes");
}
