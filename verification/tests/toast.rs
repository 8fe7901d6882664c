use dedup::toast::{
    classify_cache_error, format_issues_clipboard, panic_message, toast_command, CacheError,
    CacheErrorClass, FileIssue, FileIssueKind, PanicPayload, ToastAction, ToastCommand, ToastKind,
    ToastStack, ACTION_CACHE_DELETE_AND_RESCAN, ACTION_SHOW_ISSUES, INFO_TTL, WARNING_TTL,
};

fn issue(path: &str, kind: FileIssueKind, msg: &str) -> FileIssue {
    FileIssue { path: path.to_string(), kind, message: msg.to_string() }
}

fn secs(n: u64) -> u64 {
    n * 1000
}

#[test]
fn push_info_auto_dismisses_after_3s() {
    let mut stack = ToastStack::new();
    let t0: u64 = 1_000;
    let _id = stack.push(ToastKind::Info, "hi".to_string(), t0);
    assert_eq!(stack.len(), 1);
    stack.tick(t0 + secs(2));
    assert_eq!(stack.len(), 1);
    stack.tick(t0 + secs(4));
    assert_eq!(stack.len(), 0);
}

#[test]
fn push_warning_auto_dismisses_after_5s() {
    let mut stack = ToastStack::new();
    let t0: u64 = 1_000;
    stack.push(ToastKind::Warning, "warn".to_string(), t0);
    stack.tick(t0 + secs(4));
    assert_eq!(stack.len(), 1);
    stack.tick(t0 + secs(6));
    assert_eq!(stack.len(), 0);
}

#[test]
fn error_is_persistent_until_dismissed() {
    let t0: u64 = 1_000;
    let mut stack = ToastStack::new();
    let id = stack.push(ToastKind::Error, "boom".to_string(), t0);
    stack.tick(t0 + secs(3600));
    assert_eq!(stack.len(), 1);
    assert!(stack.dismiss(id));
    assert_eq!(stack.len(), 0);
}

#[test]
fn dismiss_unknown_id_is_noop() {
    let t0: u64 = 1_000;
    let mut stack = ToastStack::new();
    stack.push(ToastKind::Error, "a".to_string(), t0);
    assert!(!stack.dismiss(9999));
    assert_eq!(stack.len(), 1);
}

#[test]
fn dismiss_removes_only_matching_toast() {
    let t0: u64 = 1_000;
    let mut stack = ToastStack::new();
    let a = stack.push(ToastKind::Error, "a".to_string(), t0);
    let b = stack.push(ToastKind::Error, "b".to_string(), t0);
    let c = stack.push(ToastKind::Error, "c".to_string(), t0);
    assert!(stack.dismiss(b));
    let remaining: Vec<u64> = stack.toasts.iter().map(|t| t.id).collect();
    assert_eq!(remaining, vec![a, c]);
}

#[test]
fn auto_dismiss_ttls_match_prd() {
    assert_eq!(ToastKind::Warning.auto_dismiss(), Some(WARNING_TTL));
    assert_eq!(ToastKind::Info.auto_dismiss(), Some(INFO_TTL));
    assert_eq!(ToastKind::Error.auto_dismiss(), None);
    assert_eq!(WARNING_TTL, secs(5));
    assert_eq!(INFO_TTL, secs(3));
}

#[test]
fn push_returns_unique_incrementing_ids() {
    let t0: u64 = 1_000;
    let mut stack = ToastStack::new();
    let a = stack.push(ToastKind::Info, "a".to_string(), t0);
    let b = stack.push(ToastKind::Info, "b".to_string(), t0);
    let c = stack.push(ToastKind::Error, "c".to_string(), t0);
    assert_ne!(a, b);
    assert_ne!(b, c);
    assert!(a < b && b < c);
}

#[test]
fn push_full_attaches_body_and_action() {
    let mut stack = ToastStack::new();
    let id = stack.push_full(
        ToastKind::Error,
        "Cache is corrupted".to_string(),
        Some("SQLite reports corruption.".to_string()),
        Some(ToastAction {
            label: "Delete .dedup/ and rescan".to_string(),
            action_name: ACTION_CACHE_DELETE_AND_RESCAN,
        }),
        7,
    );
    let t = stack.toasts.iter().find(|t| t.id == id).unwrap();
    assert_eq!(t.kind, ToastKind::Error);
    assert_eq!(t.body.as_deref(), Some("SQLite reports corruption."));
    assert_eq!(
        t.action.as_ref().map(|a| a.action_name),
        Some(ACTION_CACHE_DELETE_AND_RESCAN)
    );
}

#[test]
fn tick_drops_expired_but_keeps_persistent() {
    let mut stack = ToastStack::new();
    let t0: u64 = 1_000;
    stack.push(ToastKind::Info, "info".to_string(), t0);
    let err_id = stack.push(ToastKind::Error, "err".to_string(), t0);
    stack.push(ToastKind::Warning, "warn".to_string(), t0);
    stack.tick(t0 + secs(10));
    assert_eq!(stack.len(), 1);
    assert_eq!(stack.toasts[0].id, err_id);
}

#[test]
fn real_time_auto_dismiss_is_consistent_with_tick() {
    let t0: u64 = 1_000;
    let mut stack = ToastStack::new();
    stack.push_full(ToastKind::Info, "quick".to_string(), None, None, t0);
    stack.tick(t0);
    assert_eq!(stack.len(), 1);
    stack.tick(t0 + secs(5));
    assert_eq!(stack.len(), 0);
}

#[test]
fn classify_newer_schema_is_newer_schema() {
    let err = CacheError::NewerSchema {
        found: 99,
        supported: 3,
    };
    assert_eq!(classify_cache_error(&err), CacheErrorClass::NewerSchema);
}

#[test]
fn classify_io_error_with_corrupt_message_is_corrupted() {
    let err = CacheError::Other {
        chain: vec![
            "io error on /tmp/x".to_string(),
            "database disk image is malformed".to_string(),
        ],
    };
    assert_eq!(classify_cache_error(&err), CacheErrorClass::Corrupted);
}

#[test]
fn classify_plain_io_error_is_other() {
    let err = CacheError::Other {
        chain: vec!["io error on /tmp/x".to_string(), "denied".to_string()],
    };
    assert_eq!(classify_cache_error(&err), CacheErrorClass::Other);
}

#[test]
fn classify_corrupt_keyword_case_insensitive() {
    let err = CacheError::Other {
        chain: vec![
            "io error on /tmp/x".to_string(),
            "SQLITE_CORRUPT: index rewind".to_string(),
        ],
    };
    assert_eq!(classify_cache_error(&err), CacheErrorClass::Corrupted);
}

#[test]
fn panic_message_extracts_literal() {
    let payload = PanicPayload::Literal("literal boom");
    assert_eq!(panic_message(&payload), "literal boom");
}

#[test]
fn panic_message_extracts_owned_string() {
    let payload = PanicPayload::Owned(String::from("formatted boom"));
    assert_eq!(panic_message(&payload), "formatted boom");
}

#[test]
fn panic_message_falls_back_for_typed_payload() {
    let payload = PanicPayload::Other;
    assert!(!panic_message(&payload).is_empty());
}

#[test]
fn clipboard_block_has_heading_and_rows() {
    let issues = vec![
        issue("src/a.rs", FileIssueKind::ReadError, "permission denied"),
        issue("src/b.ts", FileIssueKind::TierBParse, "unexpected token"),
    ];
    let got = format_issues_clipboard(&issues);
    let expected = "\
### dedup scan issues
- `src/a.rs`: ReadError \u{2014} permission denied
- `src/b.ts`: TierBParse \u{2014} unexpected token
";
    assert_eq!(got, expected);
}

#[test]
fn clipboard_block_handles_empty_message() {
    let issues = vec![issue("src/c.rs", FileIssueKind::Utf8, "")];
    let got = format_issues_clipboard(&issues);
    let expected = "\
### dedup scan issues
- `src/c.rs`: Utf8
";
    assert_eq!(got, expected);
}

#[test]
fn clipboard_block_with_zero_issues_is_heading_only() {
    let got = format_issues_clipboard(&Vec::new());
    assert_eq!(got, "### dedup scan issues\n");
}

#[test]
fn clipboard_renders_each_kind_camelcase() {
    let issues = vec![
        issue("a", FileIssueKind::ReadError, "x"),
        issue("b", FileIssueKind::Utf8, "x"),
        issue("c", FileIssueKind::TierBParse, "x"),
        issue("d", FileIssueKind::TierBPanic, "x"),
    ];
    let got = format_issues_clipboard(&issues);
    assert!(got.contains("ReadError"));
    assert!(got.contains("Utf8"));
    assert!(got.contains("TierBParse"));
    assert!(got.contains("TierBPanic"));
}

#[test]
fn toasts_expire_at_their_deadline() {
    let mut stack = ToastStack::new();
    stack.push(ToastKind::Info, "i".to_string(), 100);
    assert_eq!(stack.toasts[0].created_at, 100);
    assert_eq!(stack.toasts[0].auto_dismiss_at, Some(3100));
    stack.tick(3099);
    assert_eq!(stack.len(), 1);
    stack.tick(3100);
    assert!(stack.is_empty());
}

#[test]
fn action_names_stand_for_commands() {
    assert_eq!(toast_command(ACTION_CACHE_DELETE_AND_RESCAN), ToastCommand::DeleteCacheAndRescan);
    assert_eq!(toast_command(ACTION_SHOW_ISSUES), ToastCommand::ShowIssues);
    assert_eq!(toast_command("no.such.action"), ToastCommand::Unknown);
}

#[test]
fn ids_count_the_toasts_that_were_shown() {
    let mut stack = ToastStack::new();
    let mut shown = 0;
    for round in 0..20u64 {
        assert_eq!(stack.push(ToastKind::Info, "a".to_string(), secs(round)), shown);
        assert_eq!(
            stack.push_full(ToastKind::Error, "b".to_string(), None, None, secs(round)),
            shown + 1
        );
        shown += 2;
        stack.dismiss(shown - 1);
        stack.tick(secs(round * 3));
    }
}
