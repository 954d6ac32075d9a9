use mnemosyne_core::analysis::{AiChatTurn, LeakInsight};
use mnemosyne_core::errors::CoreError;
use mnemosyne_core::mcp::session::{
    backup_path, new_session_id, replace_session_file_with_ops, session_file_name, timestamp_now, top_leak_ids,
    trim_history, validate_session_id, SessionFileOps,
};
use std::cell::RefCell;
use std::collections::HashMap;
use std::io;

struct MockFileOps {
    entries: RefCell<HashMap<String, &'static str>>,
    fail_rename: Option<(String, String)>,
}

impl MockFileOps {
    fn new(entries: impl IntoIterator<Item = (String, &'static str)>) -> Self {
        Self {
            entries: RefCell::new(entries.into_iter().collect()),
            fail_rename: None,
        }
    }

    fn with_failed_rename(mut self, from: String, to: String) -> Self {
        self.fail_rename = Some((from, to));
        self
    }

    fn entry(&self, path: &str) -> Option<&'static str> {
        self.entries.borrow().get(path).copied()
    }
}

impl SessionFileOps for MockFileOps {
    fn path_exists(&self, path: &str) -> bool {
        self.entries.borrow().contains_key(path)
    }

    fn rename(&self, from: &str, to: &str) -> io::Result<()> {
        if self
            .fail_rename
            .as_ref()
            .is_some_and(|(fail_from, fail_to)| fail_from == from && fail_to == to)
        {
            return Err(io::Error::other("simulated rename failure"));
        }

        let mut entries = self.entries.borrow_mut();
        let value = entries
            .remove(from)
            .ok_or_else(|| io::Error::new(io::ErrorKind::NotFound, "missing source"))?;
        entries.insert(to.to_string(), value);
        Ok(())
    }

    fn remove_file(&self, path: &str) -> io::Result<()> {
        self.entries
            .borrow_mut()
            .remove(path)
            .ok_or_else(|| io::Error::new(io::ErrorKind::NotFound, "missing path"))?;
        Ok(())
    }
}

fn turn(q: &str, a: &str) -> AiChatTurn {
    AiChatTurn {
        question: q.into(),
        answer_summary: a.into(),
    }
}

#[test]
fn append_turn_trims_history_to_three_entries() {
    let mut history = vec![turn("q1", "a1"), turn("q2", "a2"), turn("q3", "a3")];

    trim_history(&mut history, turn("q4", "a4"));

    assert_eq!(history.len(), 3);
    assert_eq!(history[0].question, "q2");
    assert_eq!(history[2].question, "q4");
}

#[test]
fn short_history_keeps_every_turn() {
    let mut history = vec![turn("q1", "a1")];
    trim_history(&mut history, turn("q2", "a2"));
    assert_eq!(history.len(), 2);
    assert_eq!(history[0].question, "q1");
}

#[test]
fn replace_session_file_restores_original_when_install_fails() {
    let temp = String::from("session.tmp");
    let target = String::from("session.json");
    let backup = backup_path(&target);
    let ops = MockFileOps::new([(temp.clone(), "new-session"), (target.clone(), "old-session")])
        .with_failed_rename(temp.clone(), target.clone());

    let err = replace_session_file_with_ops(&temp, &target, &ops).unwrap_err();

    assert_eq!(err.kind(), io::ErrorKind::Other);
    assert_eq!(ops.entry(&target), Some("old-session"));
    assert_eq!(ops.entry(&temp), Some("new-session"));
    assert_eq!(ops.entry(&backup), None);
}

#[test]
fn replace_session_file_installs_and_drops_backup() {
    let ops = MockFileOps::new([
        ("s.tmp".to_string(), "new"),
        ("s.json".to_string(), "old"),
        ("s.json.bak".to_string(), "stale"),
    ]);
    replace_session_file_with_ops("s.tmp", "s.json", &ops).expect("install succeeds");
    assert_eq!(ops.entry("s.json"), Some("new"));
    assert_eq!(ops.entry("s.tmp"), None);
    assert_eq!(ops.entry("s.json.bak"), None);
}

#[test]
fn session_ids_are_validated() {
    assert!(validate_session_id("session-123").is_ok());
    assert!(matches!(
        validate_session_id("../escaped"),
        Err(CoreError::InvalidInput(m)) if m == "invalid session_id: ../escaped"
    ));
    assert!(validate_session_id("").is_err());
    assert_eq!(session_file_name("abc"), "abc.json");
    assert_eq!(backup_path("a/b.json"), "a/b.json.bak");
}

#[test]
fn fresh_ids_and_timestamps_are_decimal() {
    let id = new_session_id();
    assert!(id.starts_with("mcp-"));
    assert!(id[4..].chars().all(|c| c.is_ascii_digit()));
    let ts = timestamp_now();
    assert!(!ts.is_empty() && ts.chars().all(|c| c.is_ascii_digit()));
}

#[test]
fn new_session_ids_pass_validation() {
    let id = mnemosyne_core::mcp::session::new_session_id();
    assert!(id.starts_with("mcp-"));
    assert!(mnemosyne_core::mcp::session::validate_session_id(&id).is_ok());
}

#[test]
fn loaded_sessions_are_checked() {
    let r = mnemosyne_core::mcp::session::check_loaded_session("s-1", "s-2", 1);
    assert_eq!(
        r,
        Err(mnemosyne_core::errors::CoreError::InvalidInput(
            "session load failed: s-1: embedded session_id s-2 does not match requested session_id s-1".into()
        ))
    );
    let r = mnemosyne_core::mcp::session::check_loaded_session("s-1", "s-1", 99);
    assert_eq!(
        r,
        Err(mnemosyne_core::errors::CoreError::Unsupported("session_version 99 is unsupported".into()))
    );
    assert_eq!(mnemosyne_core::mcp::session::check_loaded_session("s-1", "s-1", 1), Ok(()));
    assert_eq!(
        mnemosyne_core::mcp::session::session_load_error("s-9", true, "gone".into()),
        mnemosyne_core::errors::CoreError::InvalidInput("session not found: s-9".into())
    );
    assert_eq!(
        mnemosyne_core::mcp::session::session_load_error("s-9", false, "denied".into()),
        mnemosyne_core::errors::CoreError::Io("denied".into())
    );
}

#[test]
fn replace_session_file_without_a_target_just_installs() {
    let ops = MockFileOps::new([("s.tmp".to_string(), "new")]);
    replace_session_file_with_ops("s.tmp", "s.json", &ops).expect("install succeeds");
    assert_eq!(ops.entry("s.json"), Some("new"));
    assert_eq!(ops.entry("s.json.bak"), None);
}

#[test]
fn replace_session_file_stops_when_the_target_cannot_move_aside() {
    let ops = MockFileOps::new([("s.tmp".to_string(), "new"), ("s.json".to_string(), "old")])
        .with_failed_rename("s.json".to_string(), "s.json.bak".to_string());
    let err = replace_session_file_with_ops("s.tmp", "s.json", &ops).unwrap_err();
    assert_eq!(err.kind(), io::ErrorKind::Other);
    assert_eq!(ops.entry("s.json"), Some("old"));
    assert_eq!(ops.entry("s.tmp"), Some("new"));
}

#[test]
fn replace_session_file_reports_a_missing_temp_file() {
    let ops = MockFileOps::new([("s.json".to_string(), "old")]);
    let err = replace_session_file_with_ops("s.tmp", "s.json", &ops).unwrap_err();
    assert_eq!(err.kind(), io::ErrorKind::NotFound);
    assert_eq!(ops.entry("s.json"), Some("old"));
    assert_eq!(ops.entry("s.json.bak"), None);
}

fn leak(id: &str) -> LeakInsight {
    LeakInsight {
        id: id.to_string(),
        class_name: "com.example.Cache".to_string(),
        retained_size_bytes: 42,
        shallow_size_bytes: None,
        instances: 1,
        description: "cache leak".to_string(),
        provenance: Vec::new(),
    }
}

#[test]
fn top_leak_ids_keeps_the_first_three_in_order() {
    let leaks = vec![leak("L1"), leak("L2"), leak("L3"), leak("L4")];
    assert_eq!(top_leak_ids(&leaks), vec!["L1", "L2", "L3"]);
    assert_eq!(top_leak_ids(&leaks[..1]), vec!["L1"]);
    assert!(top_leak_ids(&[]).is_empty());
}
