use std::collections::{HashMap, HashSet};

use dedup::normalize::{extract_units, NormalizedToken, SyntacticUnit};
use dedup::profile::{parse, LanguageProfile};
use dedup::typescript::{TSX_PROFILE, TYPESCRIPT_PROFILE};

const ALPHA: &str = r#"import { Row, Total } from "./types";
import * as util from "./util";

function type1Identical(rows: Row[]): Total {
    let sum = 0;
    let count = 0;
    for (const r of rows) {
        sum += r.value;
        count += 1;
    }
    return { sum, count };
}

function type2Original(items: Row[]): number {
    let tot = 0;
    for (const item of items) {
        tot += item.weight;
    }
    return tot;
}

const double = (x: number) => x * 2;

class Box {
    size(): number {
        return util.size(this);
    }
}
"#;

const BETA: &str = r#"import { Row, Total } from "./types";

function type1Identical(rows: Row[]): Total {
    let sum = 0;
    let count = 0;
    for (const r of rows) {
        sum += r.value;
        count += 1;
    }
    return { sum, count };
}

function type2Original(entries: Row[]): number {
    let acc = 0;
    for (const entry of entries) {
        acc += entry.weight;
    }
    return acc;
}

function uniqueBeta(): string {
    return "hi";
}
"#;

const COMPONENT: &str = r#"import { Header, Button } from "./parts";

export function Page(props: Props) {
    const title = props.title;
    return (
        <section>
            <Header>{title}</Header>
            <Button />
            <span>{title}</span>
        </section>
    );
}
"#;

fn units_of<P: LanguageProfile>(source: &str, profile: &P) -> Vec<SyntacticUnit> {
    let tree = parse(profile.grammar(), source.as_bytes()).expect("parse");
    extract_units(&tree, source.as_bytes(), profile)
}

fn is_alias(s: &str) -> bool {
    if let Some(rest) = s.strip_prefix('v') {
        !rest.is_empty() && rest.chars().all(|c| c.is_ascii_digit())
    } else {
        false
    }
}

fn reapply_rename(tokens: &[NormalizedToken]) -> Vec<NormalizedToken> {
    let mut seen: HashMap<String, String> = HashMap::new();
    let mut out: Vec<NormalizedToken> = Vec::with_capacity(tokens.len());
    for t in tokens {
        if t.kind == "identifier" && is_alias(&t.text) {
            let alias = match seen.get(&t.text) {
                Some(a) => a.clone(),
                None => {
                    let a = format!("v{}", seen.len() + 1);
                    seen.insert(t.text.clone(), a.clone());
                    a
                }
            };
            out.push(NormalizedToken { kind: t.kind.clone(), text: alias });
        } else {
            out.push(t.clone());
        }
    }
    out
}

fn render_tokens(tokens: &[NormalizedToken]) -> String {
    tokens.iter().map(|t| format!("{}:{}", t.kind, t.text)).collect::<Vec<_>>().join(" ")
}

fn fixture_units() -> Vec<(&'static str, Vec<SyntacticUnit>)> {
    vec![
        ("alpha.ts", units_of(ALPHA, &TYPESCRIPT_PROFILE)),
        ("beta.ts", units_of(BETA, &TYPESCRIPT_PROFILE)),
        ("component.tsx", units_of(COMPONENT, &TSX_PROFILE)),
    ]
}

#[test]
fn typescript_profile_snapshot() {
    let files = fixture_units();
    assert!(!files.is_empty(), "fixtures/typescript/ is empty");

    let mut lines: Vec<String> = Vec::new();
    for (path, units) in &files {
        for u in units {
            lines.push(format!("{} {}..{} {}", path, u.start_line, u.end_line, u.kind));
        }
    }
    assert_eq!(
        lines.join("\n"),
        "alpha.ts 4..12 function_declaration\n\
         alpha.ts 14..20 function_declaration\n\
         alpha.ts 22..22 arrow_function\n\
         alpha.ts 24..28 class_declaration\n\
         alpha.ts 25..27 method_definition\n\
         beta.ts 3..11 function_declaration\n\
         beta.ts 13..19 function_declaration\n\
         beta.ts 21..23 function_declaration\n\
         component.tsx 3..12 function_declaration"
    );
    let arrow = files[0].1.iter().find(|u| u.kind == "arrow_function").expect("arrow");
    assert_eq!(
        render_tokens(&arrow.tokens),
        "(:( identifier:v1 ::: number:number ):) =>:=> identifier:v1 *:* number:2"
    );
}

#[test]
fn ts_type1_and_type2_duplicates_bucket_together() {
    let mut buckets: HashMap<u64, Vec<String>> = HashMap::new();
    for (name, units) in fixture_units() {
        if !name.ends_with(".ts") {
            continue;
        }
        for u in units {
            if u.kind != "function_declaration" && u.kind != "arrow_function" {
                continue;
            }
            buckets.entry(u.hash).or_default().push(format!("{}::{}", name, u.start_line));
        }
    }
    let dup_buckets: Vec<Vec<String>> = buckets.into_values().filter(|v| v.len() >= 2).collect();
    assert_eq!(
        dup_buckets.len(),
        2,
        "expected 2 duplicate buckets, got {:#?}",
        dup_buckets
    );
    for bucket in &dup_buckets {
        assert_eq!(bucket.len(), 2, "bucket size drifted: {:#?}", bucket);
        let has_alpha = bucket.iter().any(|s| s.starts_with("alpha.ts"));
        let has_beta = bucket.iter().any(|s| s.starts_with("beta.ts"));
        assert!(
            has_alpha && has_beta,
            "bucket should pair alpha.ts with beta.ts: {:#?}",
            bucket
        );
    }
}

#[test]
fn jsx_element_names_are_kept_verbatim() {
    let units = units_of(COMPONENT, &TSX_PROFILE);
    let mut all_idents: Vec<String> = Vec::new();
    for u in &units {
        for t in &u.tokens {
            if t.kind == "identifier" {
                all_idents.push(t.text.clone());
            }
        }
    }
    for expected in ["Header", "Button", "section", "span"] {
        assert!(
            all_idents.iter().any(|t| t == expected),
            "expected JSX tag name {expected:?} preserved; got {all_idents:#?}",
        );
    }
    for aliased in &all_idents {
        assert!(
            !(aliased == "Header" && aliased.starts_with('v')),
            "Header must not be alpha-renamed"
        );
    }
}

#[test]
fn imports_are_kept_verbatim() {
    let units = units_of(ALPHA, &TYPESCRIPT_PROFILE);
    let func = units
        .iter()
        .find(|u| u.kind == "function_declaration")
        .expect("function_declaration present");
    let kept_texts: Vec<&str> = func
        .tokens
        .iter()
        .filter(|t| t.kind == "type_identifier")
        .map(|t| t.text.as_str())
        .collect();
    assert!(kept_texts.contains(&"Row"), "Row must survive verbatim: {kept_texts:?}");
    assert!(kept_texts.contains(&"Total"), "Total must survive verbatim: {kept_texts:?}");
}

#[test]
fn arrow_and_class_declarations_detected() {
    let units = units_of(ALPHA, &TYPESCRIPT_PROFILE);
    let kinds: HashSet<&str> = units.iter().map(|u| u.kind.as_str()).collect();
    for expected in [
        "arrow_function",
        "class_declaration",
        "function_declaration",
        "method_definition",
    ] {
        assert!(kinds.contains(expected), "expected unit kind {expected:?}; got {kinds:?}");
    }
}

#[test]
fn normalize_is_idempotent_ts() {
    for (path, units) in fixture_units() {
        for u in units {
            let once = u.tokens.clone();
            let twice = reapply_rename(&once);
            assert_eq!(
                once, twice,
                "ts normalize should be idempotent; drifted inside unit {:?} at lines {}..{} of {}",
                u.kind, u.start_line, u.end_line, path,
            );
        }
    }
}
