//! The TypeScript and TSX language profiles.
//!
//! Function declarations, methods, arrow functions and classes are the
//! syntactic units. The grammar uses the plain `identifier` leaf both for
//! locals and for names that must stay (function names, JSX tags, imported and
//! re-exported names, properties), so the class of an identifier depends on
//! its ancestors.
use crate::profile::{texts, Grammar, LanguageProfile, RenameClass};
use crate::syntax_tree::{
    fills_field, law_ancestors, lemma_parent_before, parent_of, NodeModel, SyntaxTree,
};
use crate::text::same_text;
use vstd::prelude::*;

verus! {

/// The profile of TypeScript sources.
#[derive(Debug, Clone, Copy, PartialEq, Eq, Structural)]
pub struct TypeScriptProfile;

/// The profile of TSX sources. It differs from [`TypeScriptProfile`] in its
/// name, its extension and its grammar, which knows JSX.
#[derive(Debug, Clone, Copy, PartialEq, Eq, Structural)]
pub struct TsxProfile;

/// The one value of [`TypeScriptProfile`].
pub const TYPESCRIPT_PROFILE: TypeScriptProfile = TypeScriptProfile;

/// The one value of [`TsxProfile`].
pub const TSX_PROFILE: TsxProfile = TsxProfile;

/// The kinds of literal leaves.
pub open spec fn is_ts_literal(kind: Seq<char>) -> bool {
    ||| kind == "string_fragment"@
    ||| kind == "template_chars"@
    ||| kind == "number"@
    ||| kind == "regex_pattern"@
    ||| kind == "regex_flags"@
    ||| kind == "true"@
    ||| kind == "false"@
    ||| kind == "null"@
    ||| kind == "undefined"@
}

/// The class of a TypeScript leaf kind, its surroundings aside.
pub open spec fn ts_class(kind: Seq<char>) -> RenameClass {
    if is_ts_literal(kind) {
        RenameClass::Literal
    } else if kind == "identifier"@ {
        RenameClass::Local
    } else {
        RenameClass::Kept
    }
}

/// The kinds of nodes under which every identifier stays: imports, and the
/// clauses of named exports. An export statement as a whole is not among
/// them, since it may hold a function whose locals are renamed.
pub open spec fn is_module_clause(kind: Seq<char>) -> bool {
    ||| kind == "import_statement"@
    ||| kind == "import_clause"@
    ||| kind == "import_specifier"@
    ||| kind == "namespace_import"@
    ||| kind == "export_specifier"@
    ||| kind == "export_clause"@
}

/// An ancestor of `i`, looked for no further than the program, keeps the
/// identifiers below it.
pub open spec fn in_module_clause(s: Seq<NodeModel>, i: int) -> bool
    decreases i,
{
    match parent_of(s, i) {
        None => false,
        Some(p) => {
            proof {
                lemma_parent_before(s, i);
            }
            if is_module_clause(s[p].kind) {
                true
            } else if s[p].kind == "program"@ {
                false
            } else {
                in_module_clause(s, p)
            }
        },
    }
}

/// Nodes whose `name` stays: function declarations and JSX tags.
pub open spec fn keeps_name(kind: Seq<char>) -> bool {
    ||| kind == "function_declaration"@
    ||| kind == "function_expression"@
    ||| kind == "generator_function_declaration"@
    ||| kind == "generator_function"@
    ||| kind == "jsx_opening_element"@
    ||| kind == "jsx_closing_element"@
    ||| kind == "jsx_self_closing_element"@
}

/// `i` is the name of a function or a JSX tag, a part of a composed JSX tag,
/// or the property of a member access.
pub open spec fn kept_by_parent(s: Seq<NodeModel>, i: int) -> bool {
    match parent_of(s, i) {
        None => false,
        Some(p) => {
            let kind = s[p].kind;
            ||| keeps_name(kind) && fills_field(s, p, i, "name"@)
            ||| kind == "jsx_member_expression"@
            ||| kind == "jsx_namespace_name"@
            ||| (kind == "member_expression"@ || kind == "subscript_expression"@) && fills_field(
                s,
                p,
                i,
                "property"@,
            )
        },
    }
}

/// The class of a TypeScript node with its ancestors in view.
pub open spec fn ts_node_class(s: Seq<NodeModel>, i: int) -> RenameClass {
    if s[i].kind != "identifier"@ {
        ts_class(s[i].kind)
    } else if in_module_clause(s, i) || kept_by_parent(s, i) {
        RenameClass::Kept
    } else {
        RenameClass::Local
    }
}

/// The syntactic units of both profiles.
pub open spec fn ts_units() -> Seq<Seq<char>> {
    seq![
        "function_declaration"@,
        "method_definition"@,
        "arrow_function"@,
        "class_declaration"@,
    ]
}

/// The syntactic units of both profiles.
fn shared_units() -> (r: Vec<&'static str>)
    ensures
        texts(r@) == ts_units(),
{
    let r: Vec<&'static str> = vec![
        "function_declaration",
        "method_definition",
        "arrow_function",
        "class_declaration",
    ];
    assert(texts(r@) =~= ts_units());
    r
}

/// Classifies a leaf by its kind alone.
fn shared_rename_class(node_kind: &str) -> (r: RenameClass)
    ensures
        r == ts_class(node_kind@),
{
    if same_text(node_kind, "string_fragment") || same_text(node_kind, "template_chars")
        || same_text(node_kind, "number") || same_text(node_kind, "regex_pattern") || same_text(
        node_kind,
        "regex_flags",
    ) || same_text(node_kind, "true") || same_text(node_kind, "false") || same_text(
        node_kind,
        "null",
    ) || same_text(node_kind, "undefined") {
        RenameClass::Literal
    } else if same_text(node_kind, "identifier") {
        RenameClass::Local
    } else {
        RenameClass::Kept
    }
}

/// Classifies a node with its ancestors in view.
fn shared_classify_node(tree: &SyntaxTree, i: usize) -> (r: RenameClass)
    requires
        i < tree@.len(),
    ensures
        r == ts_node_class(tree@, i as int),
{
    let kind: &str = tree.node(i).kind.as_str();
    if !same_text(kind, "identifier") {
        return shared_rename_class(kind);
    }
    let mut anc: Option<usize> = tree.parent(i);
    let ghost mut below: int = i as int;
    while anc.is_some()
        invariant
            i < tree@.len(),
            tree@[i as int].kind == "identifier"@,
            0 <= below < tree@.len(),
            match anc {
                Some(p) => parent_of(tree@, below) == Some(p as int),
                None => parent_of(tree@, below) is None,
            },
            in_module_clause(tree@, i as int) == in_module_clause(tree@, below),
        ensures
            !in_module_clause(tree@, i as int),
        decreases below,
    {
        let p: usize = anc.unwrap();
        proof {
            lemma_parent_before(tree@, below);
        }
        let k: &str = tree.node(p).kind.as_str();
        if same_text(k, "import_statement") || same_text(k, "import_clause") || same_text(
            k,
            "import_specifier",
        ) || same_text(k, "namespace_import") || same_text(k, "export_specifier") || same_text(
            k,
            "export_clause",
        ) {
            return RenameClass::Kept;
        }
        if same_text(k, "program") {
            break;
        }
        proof {
            below = p as int;
        }
        anc = tree.parent(p);
    }
    if let Some(p) = tree.parent(i) {
        proof {
            lemma_parent_before(tree@, i as int);
        }
        let k: &str = tree.node(p).kind.as_str();
        if same_text(k, "function_declaration") || same_text(k, "function_expression")
            || same_text(k, "generator_function_declaration") || same_text(k, "generator_function")
            || same_text(k, "jsx_opening_element") || same_text(k, "jsx_closing_element")
            || same_text(k, "jsx_self_closing_element") {
            if tree.is_field(p, i, "name") {
                return RenameClass::Kept;
            }
        }
        if same_text(k, "jsx_member_expression") || same_text(k, "jsx_namespace_name") {
            return RenameClass::Kept;
        }
        if same_text(k, "member_expression") || same_text(k, "subscript_expression") {
            if tree.is_field(p, i, "property") {
                return RenameClass::Kept;
            }
        }
    }
    RenameClass::Local
}

impl LanguageProfile for TypeScriptProfile {
    open spec fn name_text(&self) -> Seq<char> {
        "typescript"@
    }

    open spec fn extension_list(&self) -> Seq<Seq<char>> {
        seq!["ts"@]
    }

    open spec fn unit_kinds(&self) -> Seq<Seq<char>> {
        ts_units()
    }

    open spec fn kind_class(&self, kind: Seq<char>) -> RenameClass {
        ts_class(kind)
    }

    open spec fn node_class(&self, s: Seq<NodeModel>, i: int) -> RenameClass {
        ts_node_class(s, i)
    }

    open spec fn grammar_spec(&self) -> Grammar {
        Grammar::TypeScript
    }

    fn name(&self) -> (r: &'static str) {
        "typescript"
    }

    fn extensions(&self) -> (r: Vec<&'static str>) {
        let r: Vec<&'static str> = vec!["ts"];
        assert(texts(r@) =~= self.extension_list());
        r
    }

    fn grammar(&self) -> (r: Grammar) {
        Grammar::TypeScript
    }

    fn syntactic_units(&self) -> (r: Vec<&'static str>) {
        shared_units()
    }

    fn rename_class(&self, node_kind: &str) -> (r: RenameClass) {
        shared_rename_class(node_kind)
    }

    fn classify_node(&self, tree: &SyntaxTree, i: usize) -> (r: RenameClass) {
        shared_classify_node(tree, i)
    }
}

impl LanguageProfile for TsxProfile {
    open spec fn name_text(&self) -> Seq<char> {
        "tsx"@
    }

    open spec fn extension_list(&self) -> Seq<Seq<char>> {
        seq!["tsx"@]
    }

    open spec fn unit_kinds(&self) -> Seq<Seq<char>> {
        ts_units()
    }

    open spec fn kind_class(&self, kind: Seq<char>) -> RenameClass {
        ts_class(kind)
    }

    open spec fn node_class(&self, s: Seq<NodeModel>, i: int) -> RenameClass {
        ts_node_class(s, i)
    }

    open spec fn grammar_spec(&self) -> Grammar {
        Grammar::Tsx
    }

    fn name(&self) -> (r: &'static str) {
        "tsx"
    }

    fn extensions(&self) -> (r: Vec<&'static str>) {
        let r: Vec<&'static str> = vec!["tsx"];
        assert(texts(r@) =~= self.extension_list());
        r
    }

    fn grammar(&self) -> (r: Grammar) {
        Grammar::Tsx
    }

    fn syntactic_units(&self) -> (r: Vec<&'static str>) {
        shared_units()
    }

    fn rename_class(&self, node_kind: &str) -> (r: RenameClass) {
        shared_rename_class(node_kind)
    }

    fn classify_node(&self, tree: &SyntaxTree, i: usize) -> (r: RenameClass) {
        shared_classify_node(tree, i)
    }
}

/// By their kinds alone, identifiers are locals and literals are literals;
/// everything else of a TypeScript file is kept. Functions, methods, arrow
/// functions and classes are units.
pub proof fn law_typescript_kinds(kind: Seq<char>)
    ensures
        ts_class(kind) == RenameClass::Local <==> kind == "identifier"@,
        ts_class(kind) == RenameClass::Literal <==> {
            ||| kind == "string_fragment"@
            ||| kind == "template_chars"@
            ||| kind == "number"@
            ||| kind == "regex_pattern"@
            ||| kind == "regex_flags"@
            ||| kind == "true"@
            ||| kind == "false"@
            ||| kind == "null"@
            ||| kind == "undefined"@
        },
        TypeScriptProfile.kind_class(kind) == ts_class(kind),
        TypeScriptProfile.unit_kinds().contains(kind) <==> {
            ||| kind == "function_declaration"@
            ||| kind == "method_definition"@
            ||| kind == "arrow_function"@
            ||| kind == "class_declaration"@
        },
        TypeScriptProfile.extension_list().contains(kind) <==> kind == "ts"@,
        TypeScriptProfile.name_text() == "typescript"@,
        TypeScriptProfile.grammar_spec() == Grammar::TypeScript,
{
    reveal_strlit("identifier");
    assert("identifier"@.len() == 10);
    reveal_strlit("string_fragment");
    assert("string_fragment"@.len() == 15);
    reveal_strlit("template_chars");
    assert("template_chars"@.len() == 14);
    reveal_strlit("number");
    assert("number"@.len() == 6);
    reveal_strlit("regex_pattern");
    assert("regex_pattern"@.len() == 13);
    reveal_strlit("regex_flags");
    assert("regex_flags"@.len() == 11);
    reveal_strlit("true");
    assert("true"@.len() == 4);
    reveal_strlit("false");
    assert("false"@.len() == 5);
    reveal_strlit("null");
    assert("null"@.len() == 4);
    reveal_strlit("undefined");
    assert("undefined"@.len() == 9);
    let units = TypeScriptProfile.unit_kinds();
    assert(units[0] == "function_declaration"@);
    assert(units[1] == "method_definition"@);
    assert(units[2] == "arrow_function"@);
    assert(units[3] == "class_declaration"@);
    let exts = TypeScriptProfile.extension_list();
    assert(exts[0] == "ts"@);
}

/// TSX files are TypeScript files with another name, extension and grammar.
pub proof fn law_tsx_is_typescript(s: Seq<NodeModel>, i: int, kind: Seq<char>)
    ensures
        TsxProfile.kind_class(kind) == TypeScriptProfile.kind_class(kind),
        TsxProfile.node_class(s, i) == TypeScriptProfile.node_class(s, i),
        TsxProfile.unit_kinds() == TypeScriptProfile.unit_kinds(),
        TsxProfile.name_text() == "tsx"@,
        TsxProfile.extension_list().contains(kind) <==> kind == "tsx"@,
        TsxProfile.grammar_spec() == Grammar::Tsx,
{
    assert(TsxProfile.extension_list()[0] == "tsx"@);
}

/// A leaf that is no identifier goes by its kind, wherever it stands.
pub proof fn law_typescript_places_of_others(s: Seq<NodeModel>, i: int)
    requires
        s[i].kind != "identifier"@,
    ensures
        TypeScriptProfile.node_class(s, i) == TypeScriptProfile.kind_class(s[i].kind),
{
}

/// An identifier is a local, unless it stands below an import or the clause of an
/// export, or is the name of a function or of a JSX tag, a part of a composed tag,
/// or the property of an access. The program is the root of the tree.
pub proof fn law_typescript_names(s: Seq<NodeModel>, i: int)
    requires
        0 <= i < s.len(),
        s[i].kind == "identifier"@,
        forall|k: int| 0 < k < s.len() ==> (#[trigger] s[k]).kind != "program"@,
    ensures
        TypeScriptProfile.node_class(s, i) == RenameClass::Kept <==> {
            ||| exists|a: int|
                0 <= a < i && (forall|k: int| a < k <= i ==> (#[trigger] s[k]).depth > s[a].depth) && {
                    ||| (#[trigger] s[a]).kind == "import_statement"@
                    ||| s[a].kind == "import_clause"@
                    ||| s[a].kind == "import_specifier"@
                    ||| s[a].kind == "namespace_import"@
                    ||| s[a].kind == "export_specifier"@
                    ||| s[a].kind == "export_clause"@
                }
            ||| parent_of(s, i) is Some && {
                let p = parent_of(s, i)->0;
                ||| s[p].kind == "function_declaration"@ && fills_field(s, p, i, "name"@)
                ||| s[p].kind == "function_expression"@ && fills_field(s, p, i, "name"@)
                ||| s[p].kind == "generator_function_declaration"@ && fills_field(s, p, i, "name"@)
                ||| s[p].kind == "generator_function"@ && fills_field(s, p, i, "name"@)
                ||| s[p].kind == "jsx_opening_element"@ && fills_field(s, p, i, "name"@)
                ||| s[p].kind == "jsx_closing_element"@ && fills_field(s, p, i, "name"@)
                ||| s[p].kind == "jsx_self_closing_element"@ && fills_field(s, p, i, "name"@)
                ||| s[p].kind == "jsx_member_expression"@
                ||| s[p].kind == "jsx_namespace_name"@
                ||| s[p].kind == "member_expression"@ && fills_field(s, p, i, "property"@)
                ||| s[p].kind == "subscript_expression"@ && fills_field(s, p, i, "property"@)
            }
        },
        TypeScriptProfile.node_class(s, i) != RenameClass::Literal,
{
    lemma_in_clause(s, i);
}

/// A name stands in a module clause exactly where it has one as an ancestor.
proof fn lemma_in_clause(s: Seq<NodeModel>, i: int)
    requires
        0 <= i < s.len(),
        forall|k: int| 0 < k < s.len() ==> (#[trigger] s[k]).kind != "program"@,
    ensures
        in_module_clause(s, i) <==> exists|a: int|
            0 <= a < i && (forall|k: int| a < k <= i ==> (#[trigger] s[k]).depth > s[a].depth)
                && is_module_clause((#[trigger] s[a]).kind),
    decreases i,
{
    lemma_parent_before(s, i);
    if parent_of(s, i) is Some {
        let p = parent_of(s, i)->0;
        law_ancestors(s, i, p);
        lemma_in_clause(s, p);
        if is_module_clause(s[p].kind) {
            assert(0 <= p < i && (forall|k: int| p < k <= i ==> (#[trigger] s[k]).depth > s[p].depth));
        }
        if in_module_clause(s, p) {
            let a = choose|a: int|
                0 <= a < p && (forall|k: int| a < k <= p ==> (#[trigger] s[k]).depth > s[a].depth)
                    && is_module_clause((#[trigger] s[a]).kind);
            law_ancestors(s, i, a);
            assert(0 <= a < i && (forall|k: int| a < k <= i ==> (#[trigger] s[k]).depth > s[a].depth));
        }
        if exists|a: int|
            0 <= a < i && (forall|k: int| a < k <= i ==> (#[trigger] s[k]).depth > s[a].depth)
                && is_module_clause((#[trigger] s[a]).kind) {
            let a = choose|a: int|
                0 <= a < i && (forall|k: int| a < k <= i ==> (#[trigger] s[k]).depth > s[a].depth)
                    && is_module_clause((#[trigger] s[a]).kind);
            law_ancestors(s, i, a);
            if a != p {
                assert(0 <= a < p && (forall|k: int|
                    a < k <= p ==> (#[trigger] s[k]).depth > s[a].depth));
            }
        }
    } else {
        assert forall|a: int| #![trigger s[a]] 0 <= a < i implies !(forall|k: int|
            a < k <= i ==> (#[trigger] s[k]).depth > s[a].depth) by {
            law_ancestors(s, i, a);
        }
    }
}

} // verus!
