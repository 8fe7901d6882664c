//! The Rust language profile.
//!
//! Functions, impls, structs and enums are the syntactic units. The grammar
//! has distinct leaf kinds for names that must stay, so the kind of a leaf
//! alone decides its class.
use crate::profile::{texts, Grammar, LanguageProfile, RenameClass};
use crate::syntax_tree::{NodeModel, SyntaxTree};
use crate::text::same_text;
use vstd::prelude::*;

verus! {

/// The profile of Rust sources.
#[derive(Debug, Clone, Copy, PartialEq, Eq, Structural)]
pub struct RustProfile;

/// The one value of [`RustProfile`].
pub const RUST_PROFILE: RustProfile = RustProfile;

/// The kinds of literal leaves.
pub open spec fn is_rust_literal(kind: Seq<char>) -> bool {
    ||| kind == "string_literal"@
    ||| kind == "raw_string_literal"@
    ||| kind == "integer_literal"@
    ||| kind == "float_literal"@
    ||| kind == "char_literal"@
    ||| kind == "boolean_literal"@
    ||| kind == "byte_string_literal"@
    ||| kind == "byte_literal"@
}

/// The class of a Rust leaf kind: plain identifiers are locals, literals are
/// literals, and every other kind is kept.
pub open spec fn rust_class(kind: Seq<char>) -> RenameClass {
    if is_rust_literal(kind) {
        RenameClass::Literal
    } else if kind == "identifier"@ {
        RenameClass::Local
    } else {
        RenameClass::Kept
    }
}

impl LanguageProfile for RustProfile {
    open spec fn name_text(&self) -> Seq<char> {
        "rust"@
    }

    open spec fn extension_list(&self) -> Seq<Seq<char>> {
        seq!["rs"@]
    }

    open spec fn unit_kinds(&self) -> Seq<Seq<char>> {
        seq!["function_item"@, "impl_item"@, "struct_item"@, "enum_item"@]
    }

    open spec fn kind_class(&self, kind: Seq<char>) -> RenameClass {
        rust_class(kind)
    }

    open spec fn node_class(&self, s: Seq<NodeModel>, i: int) -> RenameClass {
        rust_class(s[i].kind)
    }

    open spec fn grammar_spec(&self) -> Grammar {
        Grammar::Rust
    }

    fn name(&self) -> (r: &'static str) {
        "rust"
    }

    fn extensions(&self) -> (r: Vec<&'static str>) {
        let r: Vec<&'static str> = vec!["rs"];
        assert(texts(r@) =~= self.extension_list());
        r
    }

    fn grammar(&self) -> (r: Grammar) {
        Grammar::Rust
    }

    fn syntactic_units(&self) -> (r: Vec<&'static str>) {
        let r: Vec<&'static str> = vec!["function_item", "impl_item", "struct_item", "enum_item"];
        assert(texts(r@) =~= self.unit_kinds());
        r
    }

    fn rename_class(&self, node_kind: &str) -> (r: RenameClass) {
        if same_text(node_kind, "string_literal") || same_text(node_kind, "raw_string_literal")
            || same_text(node_kind, "integer_literal") || same_text(node_kind, "float_literal")
            || same_text(node_kind, "char_literal") || same_text(node_kind, "boolean_literal")
            || same_text(node_kind, "byte_string_literal") || same_text(node_kind, "byte_literal") {
            RenameClass::Literal
        } else if same_text(node_kind, "identifier") {
            RenameClass::Local
        } else {
            RenameClass::Kept
        }
    }

    fn classify_node(&self, tree: &SyntaxTree, i: usize) -> (r: RenameClass) {
        self.rename_class(tree.node(i).kind.as_str())
    }
}

/// Plain identifiers are locals and literals are literals; everything else of a
/// Rust file is kept. Functions, impls, structs and enums are units.
pub proof fn law_rust_kinds(kind: Seq<char>)
    ensures
        rust_class(kind) == RenameClass::Local <==> kind == "identifier"@,
        rust_class(kind) == RenameClass::Literal <==> {
            ||| kind == "string_literal"@
            ||| kind == "raw_string_literal"@
            ||| kind == "integer_literal"@
            ||| kind == "float_literal"@
            ||| kind == "char_literal"@
            ||| kind == "boolean_literal"@
            ||| kind == "byte_string_literal"@
            ||| kind == "byte_literal"@
        },
        RustProfile.kind_class(kind) == rust_class(kind),
        RustProfile.unit_kinds().contains(kind) <==> {
            ||| kind == "function_item"@
            ||| kind == "impl_item"@
            ||| kind == "struct_item"@
            ||| kind == "enum_item"@
        },
        RustProfile.extension_list().contains(kind) <==> kind == "rs"@,
        RustProfile.name_text() == "rust"@,
        RustProfile.grammar_spec() == Grammar::Rust,
{
    reveal_strlit("identifier");
    assert("identifier"@.len() == 10);
    reveal_strlit("string_literal");
    assert("string_literal"@.len() == 14);
    reveal_strlit("raw_string_literal");
    assert("raw_string_literal"@.len() == 18);
    reveal_strlit("integer_literal");
    assert("integer_literal"@.len() == 15);
    reveal_strlit("float_literal");
    assert("float_literal"@.len() == 13);
    reveal_strlit("char_literal");
    assert("char_literal"@.len() == 12);
    reveal_strlit("boolean_literal");
    assert("boolean_literal"@.len() == 15);
    reveal_strlit("byte_string_literal");
    assert("byte_string_literal"@.len() == 19);
    reveal_strlit("byte_literal");
    assert("byte_literal"@.len() == 12);
    let units = RustProfile.unit_kinds();
    assert(units[0] == "function_item"@);
    assert(units[1] == "impl_item"@);
    assert(units[2] == "struct_item"@);
    assert(units[3] == "enum_item"@);
    let exts = RustProfile.extension_list();
    assert(exts[0] == "rs"@);
}

/// Where a leaf of a Rust file stands makes no difference.
pub proof fn law_rust_places_do_not_matter(s: Seq<NodeModel>, i: int)
    ensures
        RustProfile.node_class(s, i) == RustProfile.kind_class(s[i].kind),
{
}

} // verus!
