use std::collections::HashMap;

use dedup::normalize::{extract_units, normalize, NormalizedToken, SyntacticUnit};
use dedup::profile::{parse, profile_for_extension, LanguageProfile, RenameClass};
use dedup::python::PYTHON_PROFILE;

const ALPHA: &str = r#"from typing import List
from .types import Row, Total
import util.helpers


def type1_identical(rows: List[Row]) -> Total:
    total = 0
    count = 0
    for row in rows:
        total += row.value
        count += 1
    return Total(total, count)


def type2_original(items):
    tot = 0
    cnt = 0
    for item in items:
        tot += item.weight
        cnt += 1
    return (tot, cnt)


def unique_alpha():
    base = 7
    return base * 2 + 1
"#;

const BETA: &str = r#"from typing import List
from .types import Row, Total


def type1_identical(rows: List[Row]) -> Total:
    total = 0
    count = 0
    for row in rows:
        total += row.value
        count += 1
    return Total(total, count)


def type2_original(entries):
    acc = 0
    n = 0
    for entry in entries:
        acc += entry.weight
        n += 1
    return (acc, n)


def unique_beta():
    greeting = "hi"
    return greeting.upper()
"#;

const DECORATED: &str = r#"from dataclasses import dataclass
from functools import lru_cache


@lru_cache
def cached(n):
    return n + 1


@dataclass
class Point:
    x: int

    @staticmethod
    def origin():
        return Point(0)

    @property
    def norm(self):
        return self.x
"#;

fn fixture_files() -> Vec<(&'static str, &'static str)> {
    vec![("alpha.py", ALPHA), ("beta.py", BETA), ("decorated.py", DECORATED)]
}

fn units_of<P: LanguageProfile>(source: &str, profile: &P) -> Vec<SyntacticUnit> {
    let tree = parse(profile.grammar(), source.as_bytes()).expect("parse");
    extract_units(&tree, source.as_bytes(), profile)
}

fn is_alias(s: &str) -> bool {
    if let Some(rest) = s.strip_prefix('v') {
        !rest.is_empty() && rest.chars().all(|c| c.is_ascii_digit())
    } else {
        false
    }
}

fn reapply_rename(tokens: &[NormalizedToken]) -> Vec<NormalizedToken> {
    let mut seen: HashMap<String, String> = HashMap::new();
    let mut out: Vec<NormalizedToken> = Vec::with_capacity(tokens.len());
    for t in tokens {
        if t.kind == "identifier" && is_alias(&t.text) {
            let alias = match seen.get(&t.text) {
                Some(a) => a.clone(),
                None => {
                    let a = format!("v{}", seen.len() + 1);
                    seen.insert(t.text.clone(), a.clone());
                    a
                }
            };
            out.push(NormalizedToken { kind: t.kind.clone(), text: alias });
        } else {
            out.push(t.clone());
        }
    }
    out
}

fn render_tokens(tokens: &[NormalizedToken]) -> String {
    tokens.iter().map(|t| format!("{}:{}", t.kind, t.text)).collect::<Vec<_>>().join(" ")
}

#[test]
fn python_profile_snapshot() {
    let files = fixture_files();
    assert!(!files.is_empty(), "fixtures/python/ is empty");

    let mut lines: Vec<String> = Vec::new();
    for (path, source) in &files {
        for u in units_of(source, &PYTHON_PROFILE) {
            lines.push(format!("{} {}..{} {}", path, u.start_line, u.end_line, u.kind));
        }
    }
    assert_eq!(
        lines.join("\n"),
        "alpha.py 6..12 function_definition\n\
         alpha.py 15..21 function_definition\n\
         alpha.py 24..26 function_definition\n\
         beta.py 5..11 function_definition\n\
         beta.py 14..20 function_definition\n\
         beta.py 23..25 function_definition\n\
         decorated.py 6..7 function_definition\n\
         decorated.py 11..20 class_definition\n\
         decorated.py 15..16 function_definition\n\
         decorated.py 19..20 function_definition"
    );
    let unique = &units_of(ALPHA, &PYTHON_PROFILE)[2];
    assert_eq!(
        render_tokens(&unique.tokens),
        "def:def identifier:unique_alpha (:( ):) ::: identifier:v1 =:= integer:7 return:return \
         identifier:v1 *:* integer:2 +:+ integer:1"
    );
}

#[test]
fn py_type1_and_type2_duplicates_bucket_together() {
    let mut buckets: HashMap<u64, Vec<String>> = HashMap::new();
    for (name, source) in fixture_files() {
        if name != "alpha.py" && name != "beta.py" {
            continue;
        }
        for u in units_of(source, &PYTHON_PROFILE) {
            if u.kind != "function_definition" {
                continue;
            }
            buckets.entry(u.hash).or_default().push(format!("{}::{}", name, u.start_line));
        }
    }
    let dup_buckets: Vec<Vec<String>> = buckets.into_values().filter(|v| v.len() >= 2).collect();
    assert_eq!(
        dup_buckets.len(),
        2,
        "expected 2 duplicate buckets, got {:#?}",
        dup_buckets
    );
    for bucket in &dup_buckets {
        assert_eq!(bucket.len(), 2, "bucket size drifted: {:#?}", bucket);
        let has_alpha = bucket.iter().any(|s| s.starts_with("alpha.py"));
        let has_beta = bucket.iter().any(|s| s.starts_with("beta.py"));
        assert!(
            has_alpha && has_beta,
            "bucket should pair alpha.py with beta.py: {:#?}",
            bucket
        );
    }
}

#[test]
fn decorators_are_kept_verbatim() {
    let source = DECORATED.as_bytes();
    let tree = parse(PYTHON_PROFILE.grammar(), source).expect("parse");

    let units = extract_units(&tree, source, &PYTHON_PROFILE);
    let class_unit =
        units.iter().find(|u| u.kind == "class_definition").expect("class_definition present");
    let class_idents: Vec<&str> = class_unit
        .tokens
        .iter()
        .filter(|t| t.kind == "identifier")
        .map(|t| t.text.as_str())
        .collect();
    for expected in ["staticmethod", "property"] {
        assert!(
            class_idents.contains(&expected),
            "nested decorator {expected:?} must be kept verbatim in class unit; got {class_idents:#?}",
        );
    }

    let mut top_level_decorator_names: Vec<String> = Vec::new();
    for i in 0..tree.len() {
        if tree.node(i).kind != "identifier" || !tree.leaf(i) {
            continue;
        }
        let mut at = tree.parent(i);
        let mut decorated = false;
        while let Some(p) = at {
            decorated = decorated || tree.node(p).kind == "decorator";
            at = tree.parent(p);
        }
        if decorated && matches!(PYTHON_PROFILE.classify_node(&tree, i), RenameClass::Kept) {
            let node = tree.node(i);
            top_level_decorator_names.push(DECORATED[node.start_byte..node.end_byte].to_string());
        }
    }
    for expected in ["lru_cache", "dataclass"] {
        assert!(
            top_level_decorator_names.iter().any(|t| t == expected),
            "top-level decorator {expected:?} must classify as Kept; got {top_level_decorator_names:#?}",
        );
    }

    let mut seen: Vec<String> = Vec::new();
    for i in 0..tree.len() {
        if tree.node(i).kind == "decorated_definition" && tree.parent(i) == Some(0) {
            let toks = normalize(&tree, i, source, &PYTHON_PROFILE);
            for t in toks.iter().filter(|t| t.kind == "identifier") {
                if matches!(t.text.as_str(), "lru_cache" | "dataclass") {
                    seen.push(t.text.clone());
                }
            }
        }
    }
    assert_eq!(seen, vec!["lru_cache", "dataclass"]);
}

#[test]
fn imports_are_kept_verbatim_py() {
    let units = units_of(ALPHA, &PYTHON_PROFILE);
    let func = units
        .iter()
        .find(|u| u.kind == "function_definition")
        .expect("function_definition present");
    let kept_texts: Vec<&str> = func
        .tokens
        .iter()
        .filter(|t| t.kind == "identifier")
        .map(|t| t.text.as_str())
        .collect();
    assert!(kept_texts.contains(&"List"), "List must survive verbatim: {kept_texts:?}");
    assert!(kept_texts.contains(&"Total"), "Total must survive verbatim: {kept_texts:?}");
    assert!(
        kept_texts.contains(&"type1_identical"),
        "function name must survive verbatim: {kept_texts:?}"
    );
}

#[test]
fn python_detected_by_extension() {
    let profile = profile_for_extension("py").expect("py profile registered");
    assert_eq!(profile.name(), "python");
}

#[test]
fn normalize_is_idempotent_py() {
    for (path, source) in fixture_files() {
        for u in units_of(source, &PYTHON_PROFILE) {
            let once = u.tokens.clone();
            let twice = reapply_rename(&once);
            assert_eq!(
                once, twice,
                "python normalize should be idempotent; drifted inside unit {:?} at lines {}..{} of {}",
                u.kind, u.start_line, u.end_line, path,
            );
        }
    }
}
