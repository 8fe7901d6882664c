use dedup::highlight::{
    capture_str_to_highlight, classify_scope_stack, highlight, lang_hint_for_path, push_run,
    runs_from_scopes, runs_from_steps, spans_of_line, theme_color, Highlight, HighlightedRun,
    ScopeSpan, Step,
};
use syntect::parsing::{ClearAmount, Scope, ScopeStack, ScopeStackOp};

fn kinds(runs: &[HighlightedRun], source: &str) -> Vec<(String, Highlight)> {
    runs.iter().map(|r| (source[r.start..r.end].to_string(), r.kind)).collect()
}

#[test]
fn lang_hint_resolves_known_extensions() {
    assert_eq!(
        lang_hint_for_path("src/foo.rs").as_deref(),
        Some("rust")
    );
    assert_eq!(
        lang_hint_for_path("lib.py").as_deref(),
        Some("python")
    );
    assert_eq!(
        lang_hint_for_path("m.pyi").as_deref(),
        Some("python")
    );
    assert_eq!(
        lang_hint_for_path("app.ts").as_deref(),
        Some("typescript")
    );
    assert_eq!(
        lang_hint_for_path("ui.tsx").as_deref(),
        Some("tsx")
    );
    assert_eq!(
        lang_hint_for_path("Cargo.TOML").as_deref(),
        Some("toml")
    );
    assert!(lang_hint_for_path("Makefile").is_none());
}

#[test]
fn capture_prefix_matching_is_longest_first() {
    assert_eq!(capture_str_to_highlight("function"), Highlight::Function);
    assert_eq!(
        capture_str_to_highlight("function.method"),
        Highlight::Function
    );
    assert_eq!(
        capture_str_to_highlight("keyword.control"),
        Highlight::Keyword
    );
    assert_eq!(
        capture_str_to_highlight("unknown.thing"),
        Highlight::Default
    );
}

#[test]
fn rust_highlights_mark_fn_and_function_name() {
    let src = "fn main() { let x = 1; }";
    let runs = highlight(src, Some("rust"));
    assert!(!runs.is_empty());
    let pairs = kinds(&runs, src);
    assert!(
        pairs
            .iter()
            .any(|(t, h)| t == "fn" && *h == Highlight::Keyword),
        "fn keyword not highlighted: {pairs:?}"
    );
    assert!(
        pairs
            .iter()
            .any(|(t, h)| t == "main" && *h == Highlight::Function),
        "function name not highlighted: {pairs:?}"
    );
}

#[test]
fn python_highlights_mark_def_and_function_name() {
    let src = "def foo():\n    pass\n";
    let runs = highlight(src, Some("python"));
    assert!(!runs.is_empty());
    let pairs = kinds(&runs, src);
    assert!(
        pairs
            .iter()
            .any(|(t, h)| t == "def" && *h == Highlight::Keyword),
        "def keyword not highlighted: {pairs:?}"
    );
    assert!(
        pairs
            .iter()
            .any(|(t, h)| t == "foo" && *h == Highlight::Function),
        "function name not highlighted: {pairs:?}"
    );
    assert!(
        pairs
            .iter()
            .any(|(t, h)| t == "pass" && *h == Highlight::Keyword),
        "pass keyword not highlighted: {pairs:?}"
    );
}

#[test]
fn typescript_highlights_keywords_and_parameters() {
    let src = "interface Foo { x: number; }\nfunction bar(x: number) { return x; }\n";
    let runs = highlight(src, Some("typescript"));
    assert!(!runs.is_empty());
    let pairs = kinds(&runs, src);
    assert!(
        pairs
            .iter()
            .any(|(t, h)| t == "interface" && *h == Highlight::Keyword),
        "interface keyword not highlighted: {pairs:?}"
    );
    assert!(
        pairs
            .iter()
            .any(|(t, h)| t == "number" && *h == Highlight::Type),
        "predefined type not highlighted: {pairs:?}"
    );
}

#[test]
fn unknown_language_returns_single_default_run() {
    let src = "$$$ not a language $$$";
    let runs = highlight(src, Some("flimflam"));
    assert_eq!(runs.len(), 1);
    assert_eq!(runs[0].start, 0);
    assert_eq!(runs[0].end, src.len());
    assert_eq!(runs[0].kind, Highlight::Default);
}

#[test]
fn malformed_rust_does_not_panic_and_returns_runs() {
    let src = "fn main( { broken syntax";
    let runs = highlight(src, Some("rust"));
    assert!(!runs.is_empty(), "expected runs for malformed input");
    let total: usize = runs.iter().map(|r| r.end - r.start).sum();
    assert_eq!(total, src.len());
}

#[test]
fn syntect_fallback_highlights_markdown() {
    let src = "# Heading\n\n`inline code` and **bold**.\n";
    let runs = highlight(src, Some("markdown"));
    assert!(!runs.is_empty());
    let pairs = kinds(&runs, src);
    assert!(
        runs.iter().any(|r| r.kind != Highlight::Default),
        "expected at least one non-default run from syntect\n{pairs:?}"
    );
}

#[test]
fn runs_are_monotonic_and_cover_input() {
    let src = "fn main() {\n    let x = 42;\n}\n";
    let runs = highlight(src, Some("rust"));
    let mut prev_end = 0usize;
    for r in &runs {
        assert!(
            r.start == prev_end,
            "gap / overlap at {r:?} prev_end={prev_end}"
        );
        assert!(r.end > r.start);
        prev_end = r.end;
    }
    assert_eq!(prev_end, src.len());
}

#[test]
fn empty_source_yields_no_runs() {
    assert!(highlight("", Some("rust")).is_empty());
    assert!(highlight("", None).is_empty());
}

#[test]
fn theme_colors_are_nonzero_for_every_variant() {
    let all = [
        Highlight::Keyword,
        Highlight::Function,
        Highlight::Type,
        Highlight::String,
        Highlight::Comment,
        Highlight::Number,
        Highlight::Punctuation,
        Highlight::Variable,
        Highlight::Constant,
        Highlight::Attribute,
        Highlight::Default,
    ];
    for h in all {
        assert!(h.color() != 0);
    }
}

#[test]
fn steps_paint_the_innermost_capture_and_fill_gaps() {
    let names = vec!["keyword", "string"];
    let steps = vec![
        Some(Step::Start(0)),
        Some(Step::Source { start: 2, end: 4 }),
        Some(Step::Start(1)),
        Some(Step::Source { start: 4, end: 6 }),
        Some(Step::End),
        Some(Step::End),
    ];
    let runs = runs_from_steps(&names, &steps, 9).expect("runs");
    assert_eq!(
        runs,
        vec![
            HighlightedRun { start: 0, end: 2, kind: Highlight::Default },
            HighlightedRun { start: 2, end: 4, kind: Highlight::Keyword },
            HighlightedRun { start: 4, end: 6, kind: Highlight::String },
            HighlightedRun { start: 6, end: 9, kind: Highlight::Default },
        ]
    );
}

#[test]
fn a_failed_step_leaves_the_rest_plain() {
    let names = vec!["keyword"];
    let steps = vec![
        Some(Step::Start(0)),
        Some(Step::Source { start: 0, end: 2 }),
        None,
        Some(Step::Source { start: 2, end: 5 }),
    ];
    let runs = runs_from_steps(&names, &steps, 5).expect("runs");
    assert_eq!(runs.len(), 2);
    assert_eq!(runs[1], HighlightedRun { start: 2, end: 5, kind: Highlight::Default });
    assert!(runs_from_steps(&names, &Vec::new(), 0).is_none());
}

#[test]
fn neighbouring_runs_of_one_kind_are_coalesced() {
    let names = vec!["keyword"];
    let steps = vec![
        Some(Step::Start(0)),
        Some(Step::Source { start: 0, end: 2 }),
        Some(Step::Source { start: 2, end: 5 }),
    ];
    let runs = runs_from_steps(&names, &steps, 5).expect("runs");
    assert_eq!(runs, vec![HighlightedRun { start: 0, end: 5, kind: Highlight::Keyword }]);
}

#[test]
fn the_innermost_known_scope_decides() {
    let stack = |scopes: &[&str]| -> Vec<String> { scopes.iter().map(|s| s.to_string()).collect() };
    assert_eq!(
        classify_scope_stack(&stack(&["source.rust", "comment.line"])),
        Highlight::Comment
    );
    assert_eq!(
        classify_scope_stack(&stack(&["string.quoted", "meta.unknown"])),
        Highlight::String
    );
    assert_eq!(classify_scope_stack(&stack(&["source.rust"])), Highlight::Default);
    assert_eq!(classify_scope_stack(&Vec::new()), Highlight::Default);
}

#[test]
fn scope_spans_are_shifted_to_their_lines() {
    let source = "ab\ncd";
    let lines = vec!["ab\n".to_string(), "cd".to_string()];
    let spans = vec![
        vec![ScopeSpan { start: 0, end: 3, scopes: vec!["comment.line".to_string()] }],
        vec![
            ScopeSpan { start: 0, end: 1, scopes: vec!["keyword.control".to_string()] },
            ScopeSpan { start: 1, end: 2, scopes: Vec::new() },
        ],
    ];
    let runs = runs_from_scopes(source, &lines, &spans).expect("runs");
    assert_eq!(
        kinds(&runs, source),
        vec![
            ("ab\n".to_string(), Highlight::Comment),
            ("c".to_string(), Highlight::Keyword),
            ("d".to_string(), Highlight::Default),
        ]
    );
}

#[test]
fn a_change_of_scopes_shows_after_its_stretch() {
    let scope = |name: &str| Scope::new(name).expect("a scope");
    let spans_of = |spans: &[ScopeSpan]| -> Vec<(usize, usize, String)> {
        spans.iter().map(|s| (s.start, s.end, s.scopes.join(" "))).collect()
    };
    let mut stack = ScopeStack::new();
    let ops = vec![
        (0, ScopeStackOp::Push(scope("source.c"))),
        (2, ScopeStackOp::Push(scope("comment"))),
        (4, ScopeStackOp::Clear(ClearAmount::TopN(1))),
        (5, ScopeStackOp::Restore),
        (6, ScopeStackOp::Pop(2)),
    ];
    let spans = spans_of_line(&mut stack, &ops, "abcdefg\n");
    assert_eq!(
        spans_of(&spans),
        vec![
            (0, 0, "".to_string()),
            (0, 2, "".to_string()),
            (2, 4, "source.c".to_string()),
            (4, 5, "source.c comment".to_string()),
            (5, 6, "source.c".to_string()),
            (6, 8, "source.c comment".to_string()),
        ]
    );
    let rest = spans_of_line(&mut stack, &vec![(0, ScopeStackOp::Restore)], "x");
    assert_eq!(spans_of(&rest), vec![(0, 0, "".to_string()), (0, 1, "".to_string())]);
    let clear = vec![
        (0, ScopeStackOp::Push(scope("string"))),
        (0, ScopeStackOp::Clear(ClearAmount::All)),
        (1, ScopeStackOp::Pop(3)),
        (1, ScopeStackOp::Restore),
        (2, ScopeStackOp::Noop),
    ];
    let spans = spans_of_line(&mut stack, &clear, "xyz");
    assert_eq!(
        spans_of(&spans),
        vec![
            (0, 0, "".to_string()),
            (0, 0, "".to_string()),
            (0, 1, "string".to_string()),
            (1, 1, "".to_string()),
            (1, 2, "".to_string()),
            (2, 3, "string".to_string()),
        ]
    );
}

#[test]
fn a_comment_goes_on_in_the_next_line() {
    let src = "/* a\n b */ int x;\n";
    let runs = highlight(src, Some("c"));
    assert_eq!(runs.iter().map(|r| r.end - r.start).sum::<usize>(), src.len());
    assert!(runs.iter().any(|r| r.kind == Highlight::Comment && r.start <= 5 && r.end > 6));
}

#[test]
fn colors_come_from_the_theme() {
    assert_eq!(theme_color(Highlight::Keyword), Highlight::Keyword.color());
    assert_ne!(theme_color(Highlight::Keyword), theme_color(Highlight::String));
}

#[test]
fn a_source_without_hint_is_detected_by_its_first_line() {
    let src = "#!/usr/bin/env python\nprint(1)\n";
    let runs = highlight(src, None);
    assert_eq!(runs.iter().map(|r| r.end - r.start).sum::<usize>(), src.len());
    assert!(runs.iter().any(|r| r.kind != Highlight::Default));
}

#[test]
fn spans_out_of_order_paint_no_byte_twice() {
    let source = "abcdefg";
    let span = |start: usize, end: usize, scope: &str| ScopeSpan {
        start,
        end,
        scopes: vec![scope.to_string()],
    };
    let spans = vec![vec![
        span(1, 4, "comment"),
        span(4, 2, "string"),
        span(2, 3, "string"),
        span(2, 6, "keyword"),
    ]];
    let runs = runs_from_scopes(source, &vec![source.to_string()], &spans).expect("runs");
    assert_eq!(
        kinds(&runs, source),
        vec![
            ("a".to_string(), Highlight::Default),
            ("bcd".to_string(), Highlight::Comment),
            ("ef".to_string(), Highlight::Keyword),
            ("g".to_string(), Highlight::Default),
        ]
    );
}

#[test]
fn every_source_is_covered_whatever_its_language() {
    let sources = [
        "x",
        "#!/bin/sh\necho \u{e9}\n",
        "int f(void) {\n  return 1; /* a\n b */ }\n",
        "{\"a\": [1, 2\n",
    ];
    for src in sources {
        for hint in [None, Some("rust"), Some("c"), Some("sh"), Some("json"), Some("flimflam")] {
            let mut end = 0;
            let mut last = None;
            for r in highlight(src, hint) {
                assert_eq!(r.start, end);
                assert!(r.start < r.end);
                assert_ne!(last, Some(r.kind));
                end = r.end;
                last = Some(r.kind);
            }
            assert_eq!(end, src.len());
        }
    }
}

#[test]
fn appended_stretches_extend_or_follow() {
    let mut runs = Vec::new();
    push_run(&mut runs, 0, 2, Highlight::Type);
    push_run(&mut runs, 2, 2, Highlight::Number);
    push_run(&mut runs, 2, 5, Highlight::Type);
    push_run(&mut runs, 5, 6, Highlight::Number);
    assert_eq!(
        runs,
        vec![
            HighlightedRun { start: 0, end: 5, kind: Highlight::Type },
            HighlightedRun { start: 5, end: 6, kind: Highlight::Number },
        ]
    );
}
