//! The [`LanguageProfile`] trait, the profiles that ship with the library, and
//! how a file becomes a syntax tree.
use crate::python::PythonProfile;
use crate::rust::RustProfile;
use crate::syntax_tree::{node_models, rows_fit, NodeModel, SyntaxNode, SyntaxTree};
use crate::text::{is_listed, listed};
use crate::typescript::{TsxProfile, TypeScriptProfile};
use vstd::prelude::*;

verus! {

/// How an identifier or literal is treated when the token stream of a
/// syntactic unit is normalized.
#[derive(Debug, Clone, Copy, PartialEq, Eq, Structural)]
pub enum RenameClass {
    /// Local binding or parameter: replaced by an alias.
    Local,
    /// Name that carries meaning across files: kept verbatim.
    Kept,
    /// Literal: kept verbatim.
    Literal,
}

/// The grammars that sources can be parsed with.
#[derive(Debug, Clone, Copy, PartialEq, Eq, Structural)]
pub enum Grammar {
    Rust,
    TypeScript,
    Tsx,
    Python,
}

/// Everything that the normalization needs to know of a language.
pub trait LanguageProfile {
    /// The name of the language.
    spec fn name_text(&self) -> Seq<char>;

    /// The file extensions of the language.
    spec fn extension_list(&self) -> Seq<Seq<char>>;

    /// The node kinds that are candidates for duplication.
    spec fn unit_kinds(&self) -> Seq<Seq<char>>;

    /// The class of a leaf of the given kind, its surroundings aside.
    spec fn kind_class(&self, kind: Seq<char>) -> RenameClass;

    /// The class of node `i` in its tree.
    spec fn node_class(&self, s: Seq<NodeModel>, i: int) -> RenameClass;

    /// The grammar of the language.
    spec fn grammar_spec(&self) -> Grammar;

    /// Human-readable profile name.
    fn name(&self) -> (r: &'static str)
        ensures
            r@ == self.name_text(),
    ;

    /// File extensions that this profile claims, without the leading dot.
    /// They are matched case-sensitively.
    fn extensions(&self) -> (r: Vec<&'static str>)
        ensures
            texts(r@) == self.extension_list(),
    ;

    /// The grammar that source files of this language are parsed with.
    fn grammar(&self) -> (r: Grammar)
        ensures
            r == self.grammar_spec(),
    ;

    /// Node kinds that count as syntactic units.
    fn syntactic_units(&self) -> (r: Vec<&'static str>)
        ensures
            texts(r@) == self.unit_kinds(),
    ;

    /// Classifies a leaf by its kind alone.
    fn rename_class(&self, node_kind: &str) -> (r: RenameClass)
        ensures
            r == self.kind_class(node_kind@),
    ;

    /// Classifies a node with its ancestors in view. A language whose grammar
    /// reuses one leaf kind for names that must stay and names that may be
    /// renamed tells them apart here.
    fn classify_node(&self, tree: &SyntaxTree, i: usize) -> (r: RenameClass)
        requires
            i < tree@.len(),
        ensures
            r == self.node_class(tree@, i as int),
    ;
}

/// The characters of each string in a list.
pub open spec fn texts(list: Seq<&str>) -> Seq<Seq<char>> {
    Seq::new(list.len(), |i: int| list[i]@)
}

/// A string is listed exactly where its characters are among those of the
/// list.
pub proof fn lemma_listed(list: Seq<&str>, text: Seq<char>)
    ensures
        listed(list, text) == texts(list).contains(text),
{
    if listed(list, text) {
        let i = choose|i: int| 0 <= i < list.len() && (#[trigger] list[i])@ == text;
        assert(texts(list)[i] == text);
    }
    if texts(list).contains(text) {
        let i = choose|i: int| 0 <= i < texts(list).len() && texts(list)[i] == text;
        assert(list[i]@ == text);
    }
}

/// One of the profiles that ship with the library.
#[derive(Debug, Clone, Copy, PartialEq, Eq, Structural)]
pub enum Profile {
    Rust(RustProfile),
    TypeScript(TypeScriptProfile),
    Tsx(TsxProfile),
    Python(PythonProfile),
}

impl LanguageProfile for Profile {
    open spec fn name_text(&self) -> Seq<char> {
        match self {
            Profile::Rust(p) => p.name_text(),
            Profile::TypeScript(p) => p.name_text(),
            Profile::Tsx(p) => p.name_text(),
            Profile::Python(p) => p.name_text(),
        }
    }

    open spec fn extension_list(&self) -> Seq<Seq<char>> {
        match self {
            Profile::Rust(p) => p.extension_list(),
            Profile::TypeScript(p) => p.extension_list(),
            Profile::Tsx(p) => p.extension_list(),
            Profile::Python(p) => p.extension_list(),
        }
    }

    open spec fn unit_kinds(&self) -> Seq<Seq<char>> {
        match self {
            Profile::Rust(p) => p.unit_kinds(),
            Profile::TypeScript(p) => p.unit_kinds(),
            Profile::Tsx(p) => p.unit_kinds(),
            Profile::Python(p) => p.unit_kinds(),
        }
    }

    open spec fn kind_class(&self, kind: Seq<char>) -> RenameClass {
        match self {
            Profile::Rust(p) => p.kind_class(kind),
            Profile::TypeScript(p) => p.kind_class(kind),
            Profile::Tsx(p) => p.kind_class(kind),
            Profile::Python(p) => p.kind_class(kind),
        }
    }

    open spec fn node_class(&self, s: Seq<NodeModel>, i: int) -> RenameClass {
        match self {
            Profile::Rust(p) => p.node_class(s, i),
            Profile::TypeScript(p) => p.node_class(s, i),
            Profile::Tsx(p) => p.node_class(s, i),
            Profile::Python(p) => p.node_class(s, i),
        }
    }

    open spec fn grammar_spec(&self) -> Grammar {
        match self {
            Profile::Rust(p) => p.grammar_spec(),
            Profile::TypeScript(p) => p.grammar_spec(),
            Profile::Tsx(p) => p.grammar_spec(),
            Profile::Python(p) => p.grammar_spec(),
        }
    }

    fn name(&self) -> (r: &'static str) {
        match self {
            Profile::Rust(p) => p.name(),
            Profile::TypeScript(p) => p.name(),
            Profile::Tsx(p) => p.name(),
            Profile::Python(p) => p.name(),
        }
    }

    fn extensions(&self) -> (r: Vec<&'static str>) {
        match self {
            Profile::Rust(p) => p.extensions(),
            Profile::TypeScript(p) => p.extensions(),
            Profile::Tsx(p) => p.extensions(),
            Profile::Python(p) => p.extensions(),
        }
    }

    fn grammar(&self) -> (r: Grammar) {
        match self {
            Profile::Rust(p) => p.grammar(),
            Profile::TypeScript(p) => p.grammar(),
            Profile::Tsx(p) => p.grammar(),
            Profile::Python(p) => p.grammar(),
        }
    }

    fn syntactic_units(&self) -> (r: Vec<&'static str>) {
        match self {
            Profile::Rust(p) => p.syntactic_units(),
            Profile::TypeScript(p) => p.syntactic_units(),
            Profile::Tsx(p) => p.syntactic_units(),
            Profile::Python(p) => p.syntactic_units(),
        }
    }

    fn rename_class(&self, node_kind: &str) -> (r: RenameClass) {
        match self {
            Profile::Rust(p) => p.rename_class(node_kind),
            Profile::TypeScript(p) => p.rename_class(node_kind),
            Profile::Tsx(p) => p.rename_class(node_kind),
            Profile::Python(p) => p.rename_class(node_kind),
        }
    }

    fn classify_node(&self, tree: &SyntaxTree, i: usize) -> (r: RenameClass) {
        match self {
            Profile::Rust(p) => p.classify_node(tree, i),
            Profile::TypeScript(p) => p.classify_node(tree, i),
            Profile::Tsx(p) => p.classify_node(tree, i),
            Profile::Python(p) => p.classify_node(tree, i),
        }
    }
}

/// The shipped profiles, in their fixed order.
pub open spec fn shipped() -> Seq<Profile> {
    seq![
        Profile::Rust(RustProfile),
        Profile::TypeScript(TypeScriptProfile),
        Profile::Tsx(TsxProfile),
        Profile::Python(PythonProfile),
    ]
}

/// Every profile that ships with the library.
pub fn all_profiles() -> (r: Vec<Profile>)
    ensures
        r@ == shipped(),
{
    vec![
        Profile::Rust(RustProfile),
        Profile::TypeScript(TypeScriptProfile),
        Profile::Tsx(TsxProfile),
        Profile::Python(PythonProfile),
    ]
}

/// The profile that claims `ext`, the extension without its dot. The match is
/// case-sensitive and the first profile that claims the extension wins.
pub fn profile_for_extension(ext: &str) -> (r: Option<Profile>)
    ensures
        r matches Some(p) ==> exists|i: int|
            0 <= i < shipped().len() && p == #[trigger] shipped()[i]
                && p.extension_list().contains(ext@) && forall|j: int|
                0 <= j < i ==> !(#[trigger] shipped()[j]).extension_list().contains(ext@),
        r is None <==> forall|i: int|
            0 <= i < shipped().len() ==> !(#[trigger] shipped()[i]).extension_list().contains(ext@),
{
    let profiles: Vec<Profile> = all_profiles();
    let mut i: usize = 0;
    while i < profiles.len()
        invariant
            i <= profiles.len(),
            profiles@ == shipped(),
            forall|j: int|
                0 <= j < i ==> !(#[trigger] shipped()[j]).extension_list().contains(ext@),
        decreases profiles.len() - i,
    {
        let exts: Vec<&'static str> = profiles[i].extensions();
        proof {
            lemma_listed(exts@, ext@);
        }
        if is_listed(exts.as_slice(), ext) {
            assert(shipped()[i as int].extension_list().contains(ext@));
            return Some(profiles[i]);
        }
        assert(!shipped()[i as int].extension_list().contains(ext@));
        i += 1;
    }
    None
}

/// The nodes, in preorder, of the tree that the parser builds from a source
/// with a grammar, or `None` where it builds none.
pub uninterp spec fn parsed_nodes(grammar: Grammar, source: Seq<u8>) -> Option<Seq<NodeModel>>;

/// The parser builds a tree, and its rows can be counted from one.
pub open spec fn parses(grammar: Grammar, source: Seq<u8>) -> bool {
    match parsed_nodes(grammar, source) {
        Some(s) => forall|i: int| 0 <= i < s.len() ==> rows_fit(#[trigger] s[i]),
        None => false,
    }
}

/// A tree that the parser has built.
#[verifier::external_type_specification]
#[verifier::external_body]
pub struct ExTree(tree_sitter::Tree);

/// The nodes of a tree, in preorder.
pub uninterp spec fn tree_contents(tree: tree_sitter::Tree) -> Seq<NodeModel>;

/// [`tree_sitter::Parser::parse`] with the language of the grammar. Which tree
/// comes out is left to the grammar: it is only said to depend on the grammar
/// and on the bytes of the source, and likewise whether there is one.
#[verifier::external_body]
fn parse_tree(grammar: Grammar, source: &[u8]) -> (r: Option<tree_sitter::Tree>)
    ensures
        match r {
            Some(tree) => parsed_nodes(grammar, source@) == Some(tree_contents(tree)),
            None => parsed_nodes(grammar, source@) is None,
        },
{
    let language: tree_sitter::Language = match grammar {
        Grammar::Rust => tree_sitter_rust::LANGUAGE.into(),
        Grammar::TypeScript => tree_sitter_typescript::LANGUAGE_TYPESCRIPT.into(),
        Grammar::Tsx => tree_sitter_typescript::LANGUAGE_TSX.into(),
        Grammar::Python => tree_sitter_python::LANGUAGE.into(),
    };
    let mut parser = tree_sitter::Parser::new();
    parser.set_language(&language).ok()?;
    parser.parse(source, None)
}

/// Hands out the nodes of a tree one by one with
/// [`tree_sitter::TreeCursor::goto_descendant`], whose numbering is preorder
/// and starts at the root.
#[verifier::external_body]
fn tree_nodes(tree: &tree_sitter::Tree) -> (r: Vec<SyntaxNode>)
    ensures
        node_models(r@) == tree_contents(*tree),
{
    let mut cursor = tree.walk();
    (0..tree.root_node().descendant_count()).map(|i| {
        cursor.goto_descendant(i);
        let node = cursor.node();
        SyntaxNode {
            kind: node.kind().to_string(),
            field: cursor.field_name().map(str::to_string),
            start_byte: node.start_byte(),
            end_byte: node.end_byte(),
            start_row: node.start_position().row,
            end_row: node.end_position().row,
            depth: cursor.depth() as usize,
        }
    }).collect()
}

/// The syntax tree of a source file. There is none where the parser builds
/// none, or where a row number cannot be counted from one.
pub fn parse(grammar: Grammar, source: &[u8]) -> (r: Option<SyntaxTree>)
    ensures
        r matches Some(tree) ==> parsed_nodes(grammar, source@) == Some(tree@),
        r is Some <==> parses(grammar, source@),
{
    match parse_tree(grammar, source) {
        Some(parsed) => {
            let nodes: Vec<SyntaxNode> = tree_nodes(&parsed);
            let ghost list = nodes@;
            let tree = SyntaxTree::from_nodes(nodes);
            proof {
                let s = node_models(list);
                assert(parsed_nodes(grammar, source@) == Some(s));
                if tree is None {
                    let i = choose|i: int| 0 <= i < list.len() && !rows_fit((#[trigger] list[i])@);
                    let whole = parsed_nodes(grammar, source@)->0;
                    assert(!rows_fit(whole[i]));
                } else {
                    assert forall|i: int| 0 <= i < s.len() implies rows_fit(#[trigger] s[i]) by {
                        assert(rows_fit(list[i]@));
                    }
                }
            }
            tree
        },
        None => None,
    }
}

/// The profiles that ship with the library stand for their languages, in a fixed
/// order, and no extension belongs to two of them.
pub proof fn law_shipped_profiles(ext: Seq<char>, i: int, j: int)
    requires
        0 <= i < j < 4,
    ensures
        shipped().len() == 4,
        shipped()[0].name_text() == "rust"@,
        shipped()[1].name_text() == "typescript"@,
        shipped()[2].name_text() == "tsx"@,
        shipped()[3].name_text() == "python"@,
        !(shipped()[i].extension_list().contains(ext) && shipped()[j].extension_list().contains(ext)),
{
    reveal_strlit("rs");
    reveal_strlit("ts");
    reveal_strlit("tsx");
    reveal_strlit("py");
    assert("rs"@.len() == 2 && "rs"@[0] == 'r');
    assert("ts"@.len() == 2 && "ts"@[0] == 't');
    assert("py"@.len() == 2 && "py"@[0] == 'p');
    assert("tsx"@.len() == 3);
}

} // verus!
