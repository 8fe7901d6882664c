use std::collections::HashMap;

use dedup::normalize::{
    alpha_rename, extract_units, hash_tokens, normalize, Leaf, NormalizedToken, SyntacticUnit,
};
use dedup::profile::{all_profiles, parse, profile_for_extension, LanguageProfile, RenameClass};
use dedup::rust::RUST_PROFILE;

const ALPHA: &str = r#"// alpha.rs — source side of the Type-1 and Type-2 duplicates.

// Type-1 duplicate: identical to `type1_identical` in beta.rs.
fn type1_identical(rows: &[Row]) -> Total {
    let mut sum = 0;
    let mut count = 0;
    for r in rows {
        sum += r.value;
        count += 1;
    }
    let mean = if count > 0 { sum / count } else { 0 };
    Total { sum, count, mean }
}

// Type-2 duplicate: same shape as `type2_renamed` in beta.rs,
// differing only in local variable names.
fn type2_original(items: &[Item]) -> Summary {
    let mut tot = 0;
    let mut cnt = 0;
    for item in items {
        tot += item.weight;
        cnt += 1;
    }
    let mean = if cnt > 0 { tot / cnt } else { 0 };
    Summary { total: tot, seen: cnt, avg: mean }
}

// Unique function that must NOT be grouped. It is short (small number
// of tokens) relative to the duplicates, and semantically distinct.
fn unique_alpha() -> i32 {
    let base = 7;
    base * 2 + 1
}
"#;

const BETA: &str = r#"// beta.rs — sink side of the Type-1 and Type-2 duplicates.

// Type-1 duplicate: byte-identical to alpha.rs::type1_identical.
fn type1_identical(rows: &[Row]) -> Total {
    let mut sum = 0;
    let mut count = 0;
    for r in rows {
        sum += r.value;
        count += 1;
    }
    let mean = if count > 0 { sum / count } else { 0 };
    Total { sum, count, mean }
}

// Type-2 duplicate: same structure as alpha.rs::type2_original, local
// bindings and parameter names renamed. Tier B must alpha-rename
// these to canonical aliases and bucket them together.
fn type2_renamed(entries: &[Item]) -> Summary {
    let mut acc = 0;
    let mut n = 0;
    for entry in entries {
        acc += entry.weight;
        n += 1;
    }
    let avg = if n > 0 { acc / n } else { 0 };
    Summary { total: acc, seen: n, avg: avg }
}

// Unique function — must stay out of every match group.
fn unique_beta() -> String {
    let greeting = "hi";
    greeting.to_string()
}
"#;

fn fixture_files() -> Vec<(&'static str, &'static str)> {
    vec![("alpha.rs", ALPHA), ("beta.rs", BETA)]
}

fn units_of<P: LanguageProfile>(source: &str, profile: &P) -> Vec<SyntacticUnit> {
    let tree = parse(profile.grammar(), source.as_bytes()).expect("parse");
    extract_units(&tree, source.as_bytes(), profile)
}

fn is_alias(s: &str) -> bool {
    if let Some(rest) = s.strip_prefix('v') {
        !rest.is_empty() && rest.chars().all(|c| c.is_ascii_digit())
    } else {
        false
    }
}

fn reapply_rename(tokens: &[NormalizedToken]) -> Vec<NormalizedToken> {
    let mut seen: HashMap<String, String> = HashMap::new();
    let mut out: Vec<NormalizedToken> = Vec::with_capacity(tokens.len());
    for t in tokens {
        if t.kind == "identifier" && is_alias(&t.text) {
            let alias = match seen.get(&t.text) {
                Some(a) => a.clone(),
                None => {
                    let a = format!("v{}", seen.len() + 1);
                    seen.insert(t.text.clone(), a.clone());
                    a
                }
            };
            out.push(NormalizedToken { kind: t.kind.clone(), text: alias });
        } else {
            out.push(t.clone());
        }
    }
    out
}

fn render_tokens(tokens: &[NormalizedToken]) -> String {
    tokens.iter().map(|t| format!("{}:{}", t.kind, t.text)).collect::<Vec<_>>().join(" ")
}

#[test]
fn rust_profile_snapshot() {
    let files = fixture_files();
    assert!(!files.is_empty(), "fixtures/rust/ is empty");

    let mut lines: Vec<String> = Vec::new();
    for (path, source) in &files {
        for u in units_of(source, &RUST_PROFILE) {
            assert_eq!(u.hash, hash_tokens(&u.tokens));
            lines.push(format!("{} {}..{} {}", path, u.start_line, u.end_line, u.kind));
        }
    }
    assert_eq!(
        lines.join("\n"),
        "alpha.rs 4..13 function_item\n\
         alpha.rs 17..26 function_item\n\
         alpha.rs 30..33 function_item\n\
         beta.rs 4..13 function_item\n\
         beta.rs 18..27 function_item\n\
         beta.rs 30..33 function_item"
    );

    let unique = &units_of(ALPHA, &RUST_PROFILE)[2];
    assert_eq!(
        render_tokens(&unique.tokens),
        "fn:fn identifier:v1 (:( ):) ->:-> primitive_type:i32 {:{ let:let identifier:v2 =:= \
         integer_literal:7 ;:; identifier:v2 *:* integer_literal:2 +:+ integer_literal:1 }:}"
    );
}

#[test]
fn type1_and_type2_duplicates_bucket_together() {
    let files = fixture_files();
    let mut buckets: HashMap<u64, Vec<String>> = HashMap::new();

    for (path, source) in &files {
        for u in units_of(source, &RUST_PROFILE) {
            if u.kind != "function_item" {
                continue;
            }
            let snippet = &source[u.start_byte..u.end_byte];
            let name = snippet
                .split_whitespace()
                .nth(1)
                .unwrap_or("?")
                .trim_end_matches('(')
                .to_string();
            buckets.entry(u.hash).or_default().push(format!("{}::{}", path, name));
        }
    }

    let dup_buckets: Vec<Vec<String>> = buckets.into_values().filter(|v| v.len() >= 2).collect();
    assert_eq!(
        dup_buckets.len(),
        2,
        "expected 2 duplicate buckets, got {:#?}",
        dup_buckets
    );
    for bucket in &dup_buckets {
        assert_eq!(bucket.len(), 2, "bucket size drifted: {:#?}", bucket);
    }
    for bucket in &dup_buckets {
        let has_alpha = bucket.iter().any(|s| s.starts_with("alpha.rs"));
        let has_beta = bucket.iter().any(|s| s.starts_with("beta.rs"));
        assert!(
            has_alpha && has_beta,
            "bucket should pair alpha.rs with beta.rs: {:#?}",
            bucket
        );
    }
}

#[test]
fn normalize_is_idempotent() {
    for (_path, source) in fixture_files() {
        for u in units_of(source, &RUST_PROFILE) {
            let once = u.tokens.clone();
            let twice = reapply_rename(&once);
            assert_eq!(
                once, twice,
                "normalize should be idempotent; drifted inside unit {:?} at lines {}..{}",
                u.kind, u.start_line, u.end_line
            );
        }
    }
}

#[test]
fn renamed_locals_do_not_change_the_tokens() {
    let one = units_of("fn f(a: u8) -> u8 { let b = a; b + 1 }", &RUST_PROFILE);
    let two = units_of("fn g(x: u8) -> u8 { let y = x; y + 1 }", &RUST_PROFILE);
    assert_eq!(one[0].tokens, two[0].tokens);
    assert_eq!(one[0].hash, two[0].hash);
    let other = units_of("fn g(x: u8) -> u8 { let y = x; y + 2 }", &RUST_PROFILE);
    assert_ne!(one[0].hash, other[0].hash);
}

#[test]
fn units_inside_units_are_units_too() {
    let units = units_of("impl A { fn f() {} }\nstruct B;\nenum C {}\n", &RUST_PROFILE);
    let kinds: Vec<&str> = units.iter().map(|u| u.kind.as_str()).collect();
    assert_eq!(kinds, vec!["impl_item", "function_item", "struct_item", "enum_item"]);
    assert_eq!((units[2].start_line, units[2].end_line), (2, 2));
}

#[test]
fn white_space_is_no_token() {
    let wide = units_of("fn f() {\n\n    1\n}\n", &RUST_PROFILE);
    let narrow = units_of("fn f() { 1 }", &RUST_PROFILE);
    assert_eq!(wide[0].tokens, narrow[0].tokens);
}

#[test]
fn hashes_start_from_the_offset_basis() {
    assert_eq!(hash_tokens(&Vec::new()), 0xcbf29ce484222325);
    let one = vec![NormalizedToken { kind: "a".to_string(), text: "b".to_string() }];
    assert_eq!(hash_tokens(&one), 0xe8bcb28230513dfd);
    let split = vec![
        NormalizedToken { kind: "a".to_string(), text: String::new() },
        NormalizedToken { kind: String::new(), text: "b".to_string() },
    ];
    assert_ne!(hash_tokens(&one), hash_tokens(&split));
}

#[test]
fn aliases_are_given_in_order_of_first_use() {
    let leaf = |text: &str, local: bool| Leaf {
        kind: "identifier".to_string(),
        text: text.to_string(),
        local,
    };
    let leaves = vec![leaf("x", true), leaf("Y", false), leaf("z", true), leaf("x", true)];
    let tokens = alpha_rename(&leaves);
    let texts: Vec<&str> = tokens.iter().map(|t| t.text.as_str()).collect();
    assert_eq!(texts, vec!["v1", "Y", "v2", "v1"]);
}

#[test]
fn profiles_are_found_by_extension() {
    assert_eq!(profile_for_extension("rs").map(|p| p.name()), Some("rust"));
    assert_eq!(profile_for_extension("ts").map(|p| p.name()), Some("typescript"));
    assert_eq!(profile_for_extension("tsx").map(|p| p.name()), Some("tsx"));
    assert!(profile_for_extension("RS").is_none());
    assert!(profile_for_extension("txt").is_none());
    assert_eq!(all_profiles().len(), 4);
}

#[test]
fn rust_leaf_kinds_have_classes() {
    assert_eq!(RUST_PROFILE.rename_class("identifier"), RenameClass::Local);
    assert_eq!(RUST_PROFILE.rename_class("integer_literal"), RenameClass::Literal);
    assert_eq!(RUST_PROFILE.rename_class("type_identifier"), RenameClass::Kept);
}

#[test]
fn the_whole_tree_can_be_normalized() {
    let source = "fn f() { 1 }";
    let tree = parse(RUST_PROFILE.grammar(), source.as_bytes()).expect("parse");
    let tokens = normalize(&tree, 0, source.as_bytes(), &RUST_PROFILE);
    assert_eq!(
        render_tokens(&tokens),
        "fn:fn identifier:v1 (:( ):) {:{ integer_literal:1 }:}"
    );
}
