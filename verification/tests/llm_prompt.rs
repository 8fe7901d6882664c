use dedup::app_state::{GroupView, OccurrenceView, Tier};
use dedup::llm_prompt::{all_sources_available, llm_prompt};

fn occ(path: &str, start: i64, end: i64) -> OccurrenceView {
    OccurrenceView {
        path: path.to_string(),
        start_line: start,
        end_line: end,
        alpha_rename_spans: Vec::new(),
    }
}

fn group(language: &str, occurrences: Vec<OccurrenceView>) -> GroupView {
    GroupView {
        id: 1,
        tier: Tier::A,
        label: "test".to_string(),
        occurrences,
        language: Some(language.to_string()),
        group_hash: Some(0xdead_beef),
    }
}

#[test]
fn snapshot_rust_two_occurrences() {
    let occs = vec![
        occ("src/auth/login.rs", 10, 12),
        occ("src/auth/signup.rs", 20, 22),
    ];
    let g = group("Rust", occs.clone());

    let got = llm_prompt(&g, &occs);
    let expected = "The following 2 Rust code locations were flagged as duplicates by Dedup. \
                    Read each location, then propose a refactor that eliminates the \
                    duplication — e.g. extract a shared helper / method / constant — and \
                    explain trade-offs.\n\
                    \n\
                    - src/auth/login.rs:10-12\n\
                    - src/auth/signup.rs:20-22\n";
    assert_eq!(got, expected);
}

#[test]
fn snapshot_python_three_occurrences() {
    let occs = vec![
        occ("pkg/a.py", 1, 3),
        occ("pkg/b.py", 5, 7),
        occ("pkg/c.py", 2, 4),
    ];
    let g = group("Python", occs.clone());

    let got = llm_prompt(&g, &occs);
    let expected = "The following 3 Python code locations were flagged as duplicates by Dedup. \
                    Read each location, then propose a refactor that eliminates the \
                    duplication — e.g. extract a shared helper / method / constant — and \
                    explain trade-offs.\n\
                    \n\
                    - pkg/a.py:1-3\n\
                    - pkg/b.py:5-7\n\
                    - pkg/c.py:2-4\n";
    assert_eq!(got, expected);
}

#[test]
fn empty_occurrences_returns_empty_string() {
    let g = group("Rust", Vec::new());
    let got = llm_prompt(&g, &Vec::new());
    assert!(got.is_empty());
}

#[test]
fn drops_language_label_when_missing() {
    let occs = vec![occ("a.txt", 1, 2)];
    let mut g = group("Rust", occs.clone());
    g.language = None;
    let got = llm_prompt(&g, &occs);
    assert!(got.starts_with("The following 1 code locations"));
    assert!(got.contains("- a.txt:1-2"));
}

#[test]
fn prompts_need_every_source() {
    assert!(all_sources_available(&vec![Some("a".to_string()), Some(String::new())]));
    assert!(!all_sources_available(&vec![Some("a".to_string()), None]));
}
