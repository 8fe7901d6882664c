//! The Python language profile.
//!
//! Functions and classes are the syntactic units. The grammar uses the plain
//! `identifier` leaf in many positions whose name must stay (decorators,
//! imports, definition names, attribute accesses, annotations), so the class
//! of an identifier depends on its ancestors.
use crate::profile::{texts, Grammar, LanguageProfile, RenameClass};
use crate::syntax_tree::{
    fills_field, law_ancestors, lemma_parent_before, parent_of, NodeModel, SyntaxTree,
};
use crate::text::same_text;
use vstd::prelude::*;

verus! {

/// The profile of Python sources.
#[derive(Debug, Clone, Copy, PartialEq, Eq, Structural)]
pub struct PythonProfile;

/// The one value of [`PythonProfile`].
pub const PYTHON_PROFILE: PythonProfile = PythonProfile;

/// The kinds of literal leaves.
pub open spec fn is_python_literal(kind: Seq<char>) -> bool {
    ||| kind == "integer"@
    ||| kind == "float"@
    ||| kind == "string_content"@
    ||| kind == "escape_sequence"@
    ||| kind == "true"@
    ||| kind == "false"@
    ||| kind == "none"@
    ||| kind == "concatenated_string"@
}

/// The class of a Python leaf kind, its surroundings aside.
pub open spec fn python_class(kind: Seq<char>) -> RenameClass {
    if is_python_literal(kind) {
        RenameClass::Literal
    } else if kind == "identifier"@ {
        RenameClass::Local
    } else {
        RenameClass::Kept
    }
}

/// The kinds of nodes under which every identifier stays.
pub open spec fn is_keeping_kind(kind: Seq<char>) -> bool {
    ||| kind == "decorator"@
    ||| kind == "import_statement"@
    ||| kind == "import_from_statement"@
    ||| kind == "aliased_import"@
    ||| kind == "relative_import"@
    ||| kind == "dotted_name"@
    ||| kind == "type"@
}

/// `p` is the list of base classes of a class definition.
pub open spec fn is_base_list(s: Seq<NodeModel>, p: int) -> bool {
    &&& s[p].kind == "argument_list"@
    &&& parent_of(s, p) matches Some(g) && s[g].kind == "class_definition"@
}

/// An ancestor of `i`, looked for no further than the module, keeps the
/// identifiers below it.
pub open spec fn kept_by_ancestor(s: Seq<NodeModel>, i: int) -> bool
    decreases i,
{
    match parent_of(s, i) {
        None => false,
        Some(p) => {
            proof {
                lemma_parent_before(s, i);
            }
            if is_keeping_kind(s[p].kind) || is_base_list(s, p) {
                true
            } else if s[p].kind == "module"@ {
                false
            } else {
                kept_by_ancestor(s, p)
            }
        },
    }
}

/// `i` is the name of a function, of a class or of a keyword argument, or the
/// attribute of an attribute access.
pub open spec fn kept_by_parent(s: Seq<NodeModel>, i: int) -> bool {
    match parent_of(s, i) {
        None => false,
        Some(p) => {
            let kind = s[p].kind;
            ||| (kind == "function_definition"@ || kind == "class_definition"@ || kind
                == "keyword_argument"@) && fills_field(s, p, i, "name"@)
            ||| kind == "attribute"@ && fills_field(s, p, i, "attribute"@)
        },
    }
}

/// The class of a Python node with its ancestors in view.
pub open spec fn python_node_class(s: Seq<NodeModel>, i: int) -> RenameClass {
    if s[i].kind != "identifier"@ {
        python_class(s[i].kind)
    } else if kept_by_ancestor(s, i) || kept_by_parent(s, i) {
        RenameClass::Kept
    } else {
        RenameClass::Local
    }
}

/// Classifies a leaf by its kind alone.
fn python_rename_class(node_kind: &str) -> (r: RenameClass)
    ensures
        r == python_class(node_kind@),
{
    if same_text(node_kind, "integer") || same_text(node_kind, "float") || same_text(
        node_kind,
        "string_content",
    ) || same_text(node_kind, "escape_sequence") || same_text(node_kind, "true") || same_text(
        node_kind,
        "false",
    ) || same_text(node_kind, "none") || same_text(node_kind, "concatenated_string") {
        RenameClass::Literal
    } else if same_text(node_kind, "identifier") {
        RenameClass::Local
    } else {
        RenameClass::Kept
    }
}

/// Classifies a node with its ancestors in view.
fn python_classify_node(tree: &SyntaxTree, i: usize) -> (r: RenameClass)
    requires
        i < tree@.len(),
    ensures
        r == python_node_class(tree@, i as int),
{
    let kind: &str = tree.node(i).kind.as_str();
    if !same_text(kind, "identifier") {
        return python_rename_class(kind);
    }
    let mut anc: Option<usize> = tree.parent(i);
    let ghost mut below: int = i as int;
    while anc.is_some()
        invariant
            i < tree@.len(),
            tree@[i as int].kind == "identifier"@,
            0 <= below < tree@.len(),
            match anc {
                Some(p) => parent_of(tree@, below) == Some(p as int),
                None => parent_of(tree@, below) is None,
            },
            kept_by_ancestor(tree@, i as int) == kept_by_ancestor(tree@, below),
        ensures
            !kept_by_ancestor(tree@, i as int),
        decreases below,
    {
        let p: usize = anc.unwrap();
        proof {
            lemma_parent_before(tree@, below);
        }
        let k: &str = tree.node(p).kind.as_str();
        if same_text(k, "decorator") || same_text(k, "import_statement") || same_text(
            k,
            "import_from_statement",
        ) || same_text(k, "aliased_import") || same_text(k, "relative_import") || same_text(
            k,
            "dotted_name",
        ) || same_text(k, "type") {
            return RenameClass::Kept;
        }
        let above: Option<usize> = tree.parent(p);
        if same_text(k, "argument_list") {
            if let Some(g) = above {
                proof {
                    lemma_parent_before(tree@, p as int);
                }
                if same_text(tree.node(g).kind.as_str(), "class_definition") {
                    return RenameClass::Kept;
                }
            }
        }
        if same_text(k, "module") {
            break;
        }
        proof {
            below = p as int;
        }
        anc = above;
    }
    if let Some(p) = tree.parent(i) {
        proof {
            lemma_parent_before(tree@, i as int);
        }
        let k: &str = tree.node(p).kind.as_str();
        if same_text(k, "function_definition") || same_text(k, "class_definition") || same_text(
            k,
            "keyword_argument",
        ) {
            if tree.is_field(p, i, "name") {
                return RenameClass::Kept;
            }
        }
        if same_text(k, "attribute") {
            if tree.is_field(p, i, "attribute") {
                return RenameClass::Kept;
            }
        }
    }
    RenameClass::Local
}

impl LanguageProfile for PythonProfile {
    open spec fn name_text(&self) -> Seq<char> {
        "python"@
    }

    open spec fn extension_list(&self) -> Seq<Seq<char>> {
        seq!["py"@]
    }

    open spec fn unit_kinds(&self) -> Seq<Seq<char>> {
        seq!["function_definition"@, "class_definition"@]
    }

    open spec fn kind_class(&self, kind: Seq<char>) -> RenameClass {
        python_class(kind)
    }

    open spec fn node_class(&self, s: Seq<NodeModel>, i: int) -> RenameClass {
        python_node_class(s, i)
    }

    open spec fn grammar_spec(&self) -> Grammar {
        Grammar::Python
    }

    fn name(&self) -> (r: &'static str) {
        "python"
    }

    fn extensions(&self) -> (r: Vec<&'static str>) {
        let r: Vec<&'static str> = vec!["py"];
        assert(texts(r@) =~= self.extension_list());
        r
    }

    fn grammar(&self) -> (r: Grammar) {
        Grammar::Python
    }

    fn syntactic_units(&self) -> (r: Vec<&'static str>) {
        let r: Vec<&'static str> = vec!["function_definition", "class_definition"];
        assert(texts(r@) =~= self.unit_kinds());
        r
    }

    fn rename_class(&self, node_kind: &str) -> (r: RenameClass) {
        python_rename_class(node_kind)
    }

    fn classify_node(&self, tree: &SyntaxTree, i: usize) -> (r: RenameClass) {
        python_classify_node(tree, i)
    }
}

/// By their kinds alone, identifiers are locals and literals are literals;
/// everything else of a Python file is kept. Functions and classes are units.
pub proof fn law_python_kinds(kind: Seq<char>)
    ensures
        python_class(kind) == RenameClass::Local <==> kind == "identifier"@,
        python_class(kind) == RenameClass::Literal <==> {
            ||| kind == "integer"@
            ||| kind == "float"@
            ||| kind == "string_content"@
            ||| kind == "escape_sequence"@
            ||| kind == "true"@
            ||| kind == "false"@
            ||| kind == "none"@
            ||| kind == "concatenated_string"@
        },
        PythonProfile.kind_class(kind) == python_class(kind),
        PythonProfile.unit_kinds().contains(kind) <==> {
            ||| kind == "function_definition"@
            ||| kind == "class_definition"@
        },
        PythonProfile.extension_list().contains(kind) <==> kind == "py"@,
        PythonProfile.name_text() == "python"@,
        PythonProfile.grammar_spec() == Grammar::Python,
{
    reveal_strlit("identifier");
    assert("identifier"@.len() == 10);
    reveal_strlit("integer");
    assert("integer"@.len() == 7);
    reveal_strlit("float");
    assert("float"@.len() == 5);
    reveal_strlit("string_content");
    assert("string_content"@.len() == 14);
    reveal_strlit("escape_sequence");
    assert("escape_sequence"@.len() == 15);
    reveal_strlit("true");
    assert("true"@.len() == 4);
    reveal_strlit("false");
    assert("false"@.len() == 5);
    reveal_strlit("none");
    assert("none"@.len() == 4);
    reveal_strlit("concatenated_string");
    assert("concatenated_string"@.len() == 19);
    let units = PythonProfile.unit_kinds();
    assert(units[0] == "function_definition"@);
    assert(units[1] == "class_definition"@);
    let exts = PythonProfile.extension_list();
    assert(exts[0] == "py"@);
}

/// A leaf that is no identifier goes by its kind, wherever it stands.
pub proof fn law_python_places_of_others(s: Seq<NodeModel>, i: int)
    requires
        s[i].kind != "identifier"@,
    ensures
        PythonProfile.node_class(s, i) == PythonProfile.kind_class(s[i].kind),
{
}

/// An identifier is a local, unless it stands below a decorator, an import, a
/// dotted name or a type, or among the base classes of a class, or is the name of
/// a function, of a class or of a keyword argument, or the attribute of an
/// access. The module is the root of the tree.
pub proof fn law_python_names(s: Seq<NodeModel>, i: int)
    requires
        0 <= i < s.len(),
        s[i].kind == "identifier"@,
        forall|k: int| 0 < k < s.len() ==> (#[trigger] s[k]).kind != "module"@,
    ensures
        PythonProfile.node_class(s, i) == RenameClass::Kept <==> {
            ||| exists|a: int|
                0 <= a < i && (forall|k: int| a < k <= i ==> (#[trigger] s[k]).depth > s[a].depth) && {
                    ||| (#[trigger] s[a]).kind == "decorator"@
                    ||| s[a].kind == "import_statement"@
                    ||| s[a].kind == "import_from_statement"@
                    ||| s[a].kind == "aliased_import"@
                    ||| s[a].kind == "relative_import"@
                    ||| s[a].kind == "dotted_name"@
                    ||| s[a].kind == "type"@
                    ||| s[a].kind == "argument_list"@ && parent_of(s, a) is Some && s[parent_of(
                        s,
                        a,
                    )->0].kind == "class_definition"@
                }
            ||| parent_of(s, i) is Some && {
                let p = parent_of(s, i)->0;
                ||| s[p].kind == "function_definition"@ && fills_field(s, p, i, "name"@)
                ||| s[p].kind == "class_definition"@ && fills_field(s, p, i, "name"@)
                ||| s[p].kind == "keyword_argument"@ && fills_field(s, p, i, "name"@)
                ||| s[p].kind == "attribute"@ && fills_field(s, p, i, "attribute"@)
            }
        },
        PythonProfile.node_class(s, i) != RenameClass::Literal,
{
    lemma_kept_below(s, i);
}

/// A name is kept by an ancestor exactly where it has one that keeps names.
proof fn lemma_kept_below(s: Seq<NodeModel>, i: int)
    requires
        0 <= i < s.len(),
        forall|k: int| 0 < k < s.len() ==> (#[trigger] s[k]).kind != "module"@,
    ensures
        kept_by_ancestor(s, i) <==> exists|a: int|
            0 <= a < i && (forall|k: int| a < k <= i ==> (#[trigger] s[k]).depth > s[a].depth) && (
            is_keeping_kind((#[trigger] s[a]).kind) || is_base_list(s, a)),
    decreases i,
{
    lemma_parent_before(s, i);
    if parent_of(s, i) is Some {
        let p = parent_of(s, i)->0;
        law_ancestors(s, i, p);
        lemma_kept_below(s, p);
        if is_keeping_kind(s[p].kind) || is_base_list(s, p) {
            assert(0 <= p < i && (forall|k: int| p < k <= i ==> (#[trigger] s[k]).depth > s[p].depth));
        }
        if kept_by_ancestor(s, p) {
            let a = choose|a: int|
                0 <= a < p && (forall|k: int| a < k <= p ==> (#[trigger] s[k]).depth > s[a].depth)
                    && (is_keeping_kind((#[trigger] s[a]).kind) || is_base_list(s, a));
            law_ancestors(s, i, a);
            assert(0 <= a < i && (forall|k: int| a < k <= i ==> (#[trigger] s[k]).depth > s[a].depth));
        }
        if exists|a: int|
            0 <= a < i && (forall|k: int| a < k <= i ==> (#[trigger] s[k]).depth > s[a].depth) && (
            is_keeping_kind((#[trigger] s[a]).kind) || is_base_list(s, a)) {
            let a = choose|a: int|
                0 <= a < i && (forall|k: int| a < k <= i ==> (#[trigger] s[k]).depth > s[a].depth)
                    && (is_keeping_kind((#[trigger] s[a]).kind) || is_base_list(s, a));
            law_ancestors(s, i, a);
            if a != p {
                assert(0 <= a < p && (forall|k: int|
                    a < k <= p ==> (#[trigger] s[k]).depth > s[a].depth));
            }
        }
    } else {
        assert forall|a: int| #![trigger s[a]] 0 <= a < i implies !(forall|k: int|
            a < k <= i ==> (#[trigger] s[k]).depth > s[a].depth) by {
            law_ancestors(s, i, a);
        }
    }
}

} // verus!
