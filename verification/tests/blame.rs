use std::cell::RefCell;
use std::collections::HashMap;

use dedup::blame::{
    fetch_with_cache, parse_porcelain, system_time_from_secs, BlameCache, BlameCacheKey,
    BlameInfo, BlameProvider, BlameResult, BLAME_TIMEOUT,
};
use dedup::dates::{civil_from_days, format_unix_date};

const SAMPLE: &str = "\
a1b2c3d4e5f6789012345678901234567890abcd 12 12 1
author Jane Doe
author-mail <jane@example.com>
author-time 1700000000
author-tz +0000
committer Jane Doe
committer-mail <jane@example.com>
committer-time 1700000000
committer-tz +0000
summary fix: correct the widget alignment
previous deadbeef…
filename src/widget.rs
\tcode line goes here\n";

#[derive(Default)]
struct MockBlameProvider {
    answers: HashMap<(String, u32), Option<BlameInfo>>,
    calls: RefCell<Vec<(String, u32)>>,
}

impl BlameProvider for MockBlameProvider {
    fn blame(&self, _folder: &str, rel_path: &str, start_line: u32) -> BlameResult {
        self.calls.borrow_mut().push((rel_path.to_string(), start_line));
        Ok(self
            .answers
            .get(&(rel_path.to_string(), start_line))
            .cloned()
            .unwrap_or(None))
    }
}

struct FailingProvider;

impl BlameProvider for FailingProvider {
    fn blame(&self, _folder: &str, _rel_path: &str, _start_line: u32) -> BlameResult {
        Err(())
    }
}

#[test]
fn parse_extracts_author_sha_date_summary() {
    let got = parse_porcelain(SAMPLE).expect("parses");
    assert_eq!(got.author, "Jane Doe");
    assert_eq!(got.short_sha, "a1b2c3d4");
    assert_eq!(got.date, "2023-11-14");
    assert_eq!(got.summary, "fix: correct the widget alignment");
    assert_eq!(got.overlay_text(), "Jane Doe · a1b2c3d4 · 2023-11-14");
}

#[test]
fn parse_empty_input_returns_none() {
    assert_eq!(parse_porcelain(""), None);
    assert_eq!(parse_porcelain("\n\n"), None);
}

#[test]
fn parse_rejects_non_sha_header() {
    assert_eq!(parse_porcelain("nope just text\n"), None);
    assert_eq!(parse_porcelain("abc 1 1 1\n"), None);
}

#[test]
fn parse_missing_author_uses_question_mark() {
    let raw = "deadbeef1234567890 1 1 1\nauthor-time 0\n\tx\n";
    let got = parse_porcelain(raw).expect("parses");
    assert_eq!(got.author, "?");
    assert_eq!(got.short_sha, "deadbeef");
    assert_eq!(got.date, "1970-01-01");
    assert_eq!(got.summary, "");
}

#[test]
fn format_unix_date_matches_known_epochs() {
    assert_eq!(format_unix_date(0), "1970-01-01");
    assert_eq!(format_unix_date(86_399), "1970-01-01");
    assert_eq!(format_unix_date(86_400), "1970-01-02");
    assert_eq!(format_unix_date(946_684_800), "2000-01-01");
    assert_eq!(format_unix_date(1_700_000_000), "2023-11-14");
}

#[test]
fn fetch_with_cache_stores_miss_as_none() {
    let provider = MockBlameProvider::default();
    let mut cache = BlameCache::new();
    let folder = "/some/folder";
    let rel = "a.rs";
    let abs = "/some/folder/a.rs";
    let got = fetch_with_cache(&provider, &mut cache, folder, rel, 10, abs, None);
    assert_eq!(got, None);
    let _ = fetch_with_cache(&provider, &mut cache, folder, rel, 10, abs, None);
    assert_eq!(provider.calls.borrow().len(), 1);
}

#[test]
fn fetch_with_cache_returns_stored_hit() {
    let mut provider = MockBlameProvider::default();
    let info = BlameInfo {
        author: "Alice".into(),
        short_sha: "12345678".into(),
        date: "2024-01-02".into(),
        summary: "fix thing".into(),
    };
    provider.answers.insert(("a.rs".to_string(), 5), Some(info.clone()));
    let mut cache = BlameCache::new();
    let folder = "/repo";
    let rel = "a.rs";
    let abs = "/repo/a.rs";

    let got1 = fetch_with_cache(&provider, &mut cache, folder, rel, 5, abs, None);
    assert_eq!(got1, Some(info.clone()));
    let got2 = fetch_with_cache(&provider, &mut cache, folder, rel, 5, abs, None);
    assert_eq!(got2, Some(info));
    assert_eq!(provider.calls.borrow().len(), 1);
}

#[test]
fn cache_key_different_line_is_different_entry() {
    let k1 = BlameCacheKey { path: "/a".to_string(), start_line: 1, mtime: None };
    let k2 = BlameCacheKey { path: "/a".to_string(), start_line: 2, mtime: None };
    assert_ne!(k1, k2);
    assert!(!k1.same(&k2));
}

#[test]
fn a_changed_file_is_asked_for_again() {
    let provider = MockBlameProvider::default();
    let mut cache = BlameCache::new();
    let _ = fetch_with_cache(&provider, &mut cache, "/r", "a.rs", 1, "/r/a.rs", Some(10));
    let _ = fetch_with_cache(&provider, &mut cache, "/r", "a.rs", 1, "/r/a.rs", Some(10));
    let _ = fetch_with_cache(&provider, &mut cache, "/r", "a.rs", 1, "/r/a.rs", Some(11));
    assert_eq!(provider.calls.borrow().len(), 2);
}

#[test]
fn a_failed_lookup_is_remembered_as_unknown() {
    let mut cache = BlameCache::new();
    let got = fetch_with_cache(&FailingProvider, &mut cache, "/r", "a.rs", 1, "/r/a.rs", None);
    assert_eq!(got, None);
    let key = BlameCacheKey::new("/r/a.rs".to_string(), 1, None);
    assert_eq!(cache.lookup(&key), Some(None));
    assert_eq!(cache.lookup(&BlameCacheKey::new("/r/a.rs".to_string(), 2, None)), None);
}

#[test]
fn system_times_are_counted_in_nanoseconds() {
    assert_eq!(system_time_from_secs(3), 3_000_000_000);
    assert_eq!(BLAME_TIMEOUT, 500);
}

#[test]
fn dates_before_the_epoch_and_leap_days() {
    assert_eq!(format_unix_date(-1), "1969-12-31");
    assert_eq!(civil_from_days(0), (1970, 1, 1));
    assert_eq!(civil_from_days(11_016), (2000, 2, 29));
    assert_eq!(civil_from_days(-719_468), (0, 3, 1));
}

#[test]
fn every_day_count_has_a_date() {
    assert_eq!(civil_from_days(i64::MAX), (25252734927768524, 7, 27));
    assert_eq!(civil_from_days(i64::MIN), (-25252734927764585, 6, 7));
}

#[test]
fn later_dates_come_later() {
    assert_eq!(format_unix_date(86_399), "1970-01-01");
    assert_eq!(format_unix_date(86_400), "1970-01-02");
    assert_eq!(format_unix_date(253_402_300_799), "9999-12-31");
    let mut last = format_unix_date(-62_167_219_200);
    assert_eq!(last, "0000-01-01");
    let mut secs: i64 = -62_167_219_200;
    while secs < 253_402_300_799 - 86_400 * 1_000 {
        secs += 86_400 * 997;
        let next = format_unix_date(secs);
        assert_eq!(next.len(), 10);
        assert!(last < next);
        last = next;
    }
}
