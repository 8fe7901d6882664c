//! Normalization: the canonical token stream of a syntactic unit, and its
//! hash.
//!
//! The leaves of a unit are read in source order. A local name becomes an
//! alias, numbered in the order of first occurrence within the unit, and every
//! other leaf keeps its text. So two units that differ in their local names
//! alone have the same tokens and the same hash.
use crate::profile::{lemma_listed, texts, LanguageProfile, RenameClass};
use crate::syntax_tree::{
    is_leaf, is_subtree_end, lemma_subtree_end_unique, subtree_end, NodeModel, SyntaxTree,
};
use crate::text::{
    dec, is_blank, is_blank_exec, is_listed, is_white, lemma_dec_injective, listed, push_dec,
    same_text, text_between, text_in,
};
use vstd::prelude::*;
use vstd::string::*;
use vstd::utf8::*;

verus! {

/// One token of a normalized stream. The kind stands beside the text, so that
/// leaves of different kinds never collide.
#[derive(Debug, Clone, PartialEq, Eq, Hash)]
pub struct NormalizedToken {
    /// The kind of the node that the token came from.
    pub kind: String,
    /// The text of the node, or the alias of a local.
    pub text: String,
}

/// What a [`NormalizedToken`] stands for.
#[verifier::ext_equal]
pub struct TokenModel {
    pub kind: Seq<char>,
    pub text: Seq<char>,
}

impl View for NormalizedToken {
    type V = TokenModel;

    open spec fn view(&self) -> TokenModel {
        TokenModel { kind: self.kind@, text: self.text@ }
    }
}

/// The models of a list of tokens.
pub open spec fn token_models(tokens: Seq<NormalizedToken>) -> Seq<TokenModel> {
    Seq::new(tokens.len(), |i: int| tokens[i]@)
}

/// A leaf before aliases are assigned.
#[derive(Debug, Clone)]
pub struct Leaf {
    /// The kind of the node.
    pub kind: String,
    /// The text of the node.
    pub text: String,
    /// Whether the text is a local name.
    pub local: bool,
}

/// What a [`Leaf`] stands for.
#[verifier::ext_equal]
pub struct LeafModel {
    pub kind: Seq<char>,
    pub text: Seq<char>,
    pub local: bool,
}

impl View for Leaf {
    type V = LeafModel;

    open spec fn view(&self) -> LeafModel {
        LeafModel { kind: self.kind@, text: self.text@, local: self.local }
    }
}

/// The models of a list of leaves.
pub open spec fn leaf_models(leaves: Seq<Leaf>) -> Seq<LeafModel> {
    Seq::new(leaves.len(), |i: int| leaves[i]@)
}

/// The distinct local names among the leaves, in the order of their first
/// occurrence.
pub open spec fn local_names(leaves: Seq<LeafModel>) -> Seq<Seq<char>>
    decreases leaves.len(),
{
    if leaves.len() == 0 {
        Seq::empty()
    } else {
        let before = local_names(leaves.drop_last());
        let last = leaves.last();
        if last.local && !before.contains(last.text) {
            before.push(last.text)
        } else {
            before
        }
    }
}

/// The alias of the `n`th local name, counted from one.
pub open spec fn alias(n: nat) -> Seq<char> {
    "v"@ + dec(n)
}

/// The text that a leaf is given: a local name's alias, any other text as it
/// stands.
pub open spec fn emitted(names: Seq<Seq<char>>, leaf: LeafModel) -> TokenModel {
    TokenModel {
        kind: leaf.kind,
        text: if leaf.local {
            alias((names.index_of(leaf.text) + 1) as nat)
        } else {
            leaf.text
        },
    }
}

/// The tokens of a list of leaves.
pub open spec fn renamed(leaves: Seq<LeafModel>) -> Seq<TokenModel> {
    Seq::new(leaves.len(), |i: int| emitted(local_names(leaves), leaves[i]))
}

/// The text of a node; there is none where its byte range is not one of the
/// source or holds no valid UTF-8.
pub open spec fn node_text(n: NodeModel, source: Seq<u8>) -> Option<Seq<char>> {
    text_in(source, n.start_byte, n.end_byte)
}

/// What node `i` contributes to the token stream: nothing, unless it is a leaf
/// with a text that is not blank.
pub open spec fn leaf_at<P: LanguageProfile>(
    profile: P,
    s: Seq<NodeModel>,
    source: Seq<u8>,
    i: int,
) -> Seq<LeafModel> {
    match node_text(s[i], source) {
        Some(text) => if is_leaf(s, i) && !is_blank(text) {
            seq![
                LeafModel {
                    kind: s[i].kind,
                    text,
                    local: profile.node_class(s, i) == RenameClass::Local,
                },
            ]
        } else {
            Seq::empty()
        },
        None => Seq::empty(),
    }
}

/// The leaves among the nodes `from..to`, in source order.
pub open spec fn leaves_between<P: LanguageProfile>(
    profile: P,
    s: Seq<NodeModel>,
    source: Seq<u8>,
    from: int,
    to: int,
) -> Seq<LeafModel>
    decreases to - from,
{
    if to <= from {
        Seq::empty()
    } else {
        leaves_between(profile, s, source, from, to - 1) + leaf_at(profile, s, source, to - 1)
    }
}

/// The token stream of the subtree at node `i`.
pub open spec fn subtree_tokens<P: LanguageProfile>(
    profile: P,
    s: Seq<NodeModel>,
    source: Seq<u8>,
    i: int,
) -> Seq<TokenModel> {
    renamed(leaves_between(profile, s, source, i, subtree_end(s, i)))
}

/// One step of the hash.
pub open spec fn mix(h: u64, byte: u8) -> u64 {
    (h ^ (byte as u64)).wrapping_mul(0x100000001b3u64)
}

/// The hash after more bytes.
pub open spec fn mix_all(h: u64, bytes: Seq<u8>) -> u64
    decreases bytes.len(),
{
    if bytes.len() == 0 {
        h
    } else {
        mix(mix_all(h, bytes.drop_last()), bytes.last())
    }
}

/// The hash after one more token: the bytes of its kind, a unit separator, the
/// bytes of its text, a record separator.
pub open spec fn mix_token(h: u64, t: TokenModel) -> u64 {
    mix(mix_all(mix(mix_all(h, encode_utf8(t.kind)), 0x1f), encode_utf8(t.text)), 0x1e)
}

/// The hash of a token stream: FNV-1a over the bytes of the tokens.
pub open spec fn token_hash(tokens: Seq<TokenModel>) -> u64
    decreases tokens.len(),
{
    if tokens.len() == 0 {
        0xcbf29ce484222325u64
    } else {
        mix_token(token_hash(tokens.drop_last()), tokens.last())
    }
}

/// One candidate for duplication.
#[derive(Debug, Clone)]
pub struct SyntacticUnit {
    /// The kind of its node.
    pub kind: String,
    /// Offset of its first byte.
    pub start_byte: usize,
    /// Offset behind its last byte.
    pub end_byte: usize,
    /// 1-based line of its first byte.
    pub start_line: usize,
    /// 1-based line of its end.
    pub end_line: usize,
    /// Its normalized tokens.
    pub tokens: Vec<NormalizedToken>,
    /// The hash of its tokens.
    pub hash: u64,
}

/// What a [`SyntacticUnit`] stands for.
#[verifier::ext_equal]
pub struct UnitModel {
    pub kind: Seq<char>,
    pub start_byte: int,
    pub end_byte: int,
    pub start_line: int,
    pub end_line: int,
    pub tokens: Seq<TokenModel>,
    pub hash: u64,
}

impl View for SyntacticUnit {
    type V = UnitModel;

    open spec fn view(&self) -> UnitModel {
        UnitModel {
            kind: self.kind@,
            start_byte: self.start_byte as int,
            end_byte: self.end_byte as int,
            start_line: self.start_line as int,
            end_line: self.end_line as int,
            tokens: token_models(self.tokens@),
            hash: self.hash,
        }
    }
}

/// The models of a list of units.
pub open spec fn unit_models(units: Seq<SyntacticUnit>) -> Seq<UnitModel> {
    Seq::new(units.len(), |i: int| units[i]@)
}

/// The unit at node `i`, if it is one: its kind is a unit kind of the profile
/// and it holds a token.
pub open spec fn unit_at<P: LanguageProfile>(
    profile: P,
    s: Seq<NodeModel>,
    source: Seq<u8>,
    i: int,
) -> Seq<UnitModel> {
    let tokens = subtree_tokens(profile, s, source, i);
    if profile.unit_kinds().contains(s[i].kind) && tokens.len() > 0 {
        seq![
            UnitModel {
                kind: s[i].kind,
                start_byte: s[i].start_byte,
                end_byte: s[i].end_byte,
                start_line: s[i].start_row + 1,
                end_line: s[i].end_row + 1,
                tokens,
                hash: token_hash(tokens),
            },
        ]
    } else {
        Seq::empty()
    }
}

/// The units among the first `n` nodes. A unit inside another is a unit too.
pub open spec fn units_before<P: LanguageProfile>(
    profile: P,
    s: Seq<NodeModel>,
    source: Seq<u8>,
    n: int,
) -> Seq<UnitModel>
    decreases n,
{
    if n <= 0 {
        Seq::empty()
    } else {
        units_before(profile, s, source, n - 1) + unit_at(profile, s, source, n - 1)
    }
}

/// Every candidate for duplication in a parsed file, in source order.
pub fn extract_units<P: LanguageProfile>(tree: &SyntaxTree, source: &[u8], profile: &P) -> (r: Vec<
    SyntacticUnit,
>)
    ensures
        unit_models(r@) == units_before(*profile, tree@, source@, tree@.len() as int),
{
    let kinds: Vec<&'static str> = profile.syntactic_units();
    let mut out: Vec<SyntacticUnit> = Vec::new();
    let mut i: usize = 0;
    assert(unit_models(out@) =~= units_before(*profile, tree@, source@, 0));
    while i < tree.len()
        invariant
            i <= tree@.len(),
            texts(kinds@) == profile.unit_kinds(),
            unit_models(out@) == units_before(*profile, tree@, source@, i as int),
        decreases tree@.len() - i,
    {
        collect_unit(tree, i, source, profile, kinds.as_slice(), &mut out);
        i += 1;
    }
    out
}

/// Appends the unit at node `i`, if it is one.
fn collect_unit<P: LanguageProfile>(
    tree: &SyntaxTree,
    i: usize,
    source: &[u8],
    profile: &P,
    kinds: &[&'static str],
    out: &mut Vec<SyntacticUnit>,
)
    requires
        i < tree@.len(),
        texts(kinds@) == profile.unit_kinds(),
    ensures
        unit_models(final(out)@) == unit_models(old(out)@) + unit_at(
            *profile,
            tree@,
            source@,
            i as int,
        ),
{
    let node = tree.node(i);
    proof {
        lemma_listed(kinds@, node.kind@);
    }
    if is_listed(kinds, node.kind.as_str()) {
        let tokens: Vec<NormalizedToken> = normalize(tree, i, source, profile);
        if tokens.len() > 0 {
            let hash: u64 = hash_tokens(&tokens);
            let unit = SyntacticUnit {
                kind: node.kind.clone(),
                start_byte: node.start_byte,
                end_byte: node.end_byte,
                start_line: node.start_row + 1,
                end_line: node.end_row + 1,
                tokens,
                hash,
            };
            out.push(unit);
            assert(unit_models(out@) =~= unit_models(old(out)@).push(unit@));
            assert(seq![unit@] =~= unit_at(*profile, tree@, source@, i as int));
            return;
        }
    }
    assert(unit_models(out@) =~= unit_models(old(out)@) + unit_at(
        *profile,
        tree@,
        source@,
        i as int,
    ));
}

/// The canonical token stream of the subtree at node `i`. `source` is the text
/// that the tree was parsed from.
pub fn normalize<P: LanguageProfile>(
    tree: &SyntaxTree,
    i: usize,
    source: &[u8],
    profile: &P,
) -> (r: Vec<NormalizedToken>)
    requires
        i < tree@.len(),
    ensures
        token_models(r@) == subtree_tokens(*profile, tree@, source@, i as int),
{
    let end: usize = tree.end_of(i);
    let mut leaves: Vec<Leaf> = Vec::new();
    let mut j: usize = i;
    assert(leaf_models(leaves@) =~= leaves_between(*profile, tree@, source@, i as int, i as int));
    while j < end
        invariant
            i <= j <= end <= tree@.len(),
            leaf_models(leaves@) == leaves_between(
                *profile,
                tree@,
                source@,
                i as int,
                j as int,
            ),
        decreases end - j,
    {
        visit(tree, j, source, profile, &mut leaves);
        j += 1;
    }
    alpha_rename(&leaves)
}

/// Appends what node `i` contributes to the token stream.
fn visit<P: LanguageProfile>(
    tree: &SyntaxTree,
    i: usize,
    source: &[u8],
    profile: &P,
    out: &mut Vec<Leaf>,
)
    requires
        i < tree@.len(),
    ensures
        leaf_models(final(out)@) == leaf_models(old(out)@) + leaf_at(
            *profile,
            tree@,
            source@,
            i as int,
        ),
{
    if tree.leaf(i) {
        let node = tree.node(i);
        if let Some(text) = text_between(source, node.start_byte, node.end_byte) {
            if !is_blank_exec(text) {
                let local: bool = profile.classify_node(tree, i) == RenameClass::Local;
                let leaf = Leaf { kind: node.kind.clone(), text: text.to_owned(), local };
                out.push(leaf);
                assert(leaf_models(out@) =~= leaf_models(old(out)@).push(leaf@));
                assert(seq![leaf@] =~= leaf_at(*profile, tree@, source@, i as int));
                return;
            }
        }
    }
    assert(leaf_models(out@) =~= leaf_models(old(out)@) + leaf_at(
        *profile,
        tree@,
        source@,
        i as int,
    ));
}

/// Gives every leaf its text: aliases for local names, numbered in the order
/// of first occurrence, and the verbatim text for the others.
pub fn alpha_rename(leaves: &Vec<Leaf>) -> (r: Vec<NormalizedToken>)
    ensures
        token_models(r@) == renamed(leaf_models(leaves@)),
{
    let mut names: Vec<String> = Vec::new();
    let mut out: Vec<NormalizedToken> = Vec::new();
    let ghost all = leaf_models(leaves@);
    let mut i: usize = 0;
    assert(name_models(names@) =~= local_names(all.take(0)));
    while i < leaves.len()
        invariant
            i <= leaves.len(),
            all == leaf_models(leaves@),
            name_models(names@) == local_names(all.take(i as int)),
            out@.len() == i,
            forall|k: int|
                0 <= k < i ==> (#[trigger] out@[k])@ == emitted(local_names(all), all[k]),
        decreases leaves.len() - i,
    {
        let leaf = &leaves[i];
        let ghost before = all.take(i as int);
        let ghost after = all.take(i + 1);
        proof {
            assert(after.drop_last() =~= before);
            assert(after.last() == leaf@);
            lemma_names_grow(all, i + 1);
        }
        let text: String = if leaf.local {
            let n: usize = match position_of(&names, leaf.text.as_str()) {
                Some(n) => {
                    proof {
                        assert(name_models(names@)[n as int] == leaf.text@);
                        assert(local_names(after) == local_names(before));
                        lemma_first_index(local_names(all), leaf.text@, n as int);
                    }
                    n
                },
                None => {
                    let n: usize = names.len();
                    let ghost old_names = names@;
                    names.push(leaf.text.clone());
                    proof {
                        assert(!name_models(old_names).contains(leaf.text@));
                        assert(name_models(names@) =~= name_models(old_names).push(leaf.text@));
                        assert(local_names(after) == name_models(names@));
                        assert(local_names(all)[n as int] == leaf.text@);
                        lemma_first_index(local_names(all), leaf.text@, n as int);
                    }
                    n
                },
            };
            let mut t: String = "v".to_owned();
            push_dec(&mut t, n as u64 + 1);
            t
        } else {
            leaf.text.clone()
        };
        out.push(NormalizedToken { kind: leaf.kind.clone(), text });
        i += 1;
    }
    proof {
        assert(token_models(out@) =~= renamed(all));
    }
    out
}

/// The characters of each string in a list.
pub open spec fn name_models(names: Seq<String>) -> Seq<Seq<char>> {
    Seq::new(names.len(), |i: int| names[i]@)
}

/// Where `name` first stands in `names`.
fn position_of(names: &Vec<String>, name: &str) -> (r: Option<usize>)
    ensures
        match r {
            Some(n) => n < names@.len() && name_models(names@)[n as int] == name@ && forall|k: int|
                0 <= k < n ==> name_models(names@)[k] != name@,
            None => !name_models(names@).contains(name@),
        },
{
    let mut i: usize = 0;
    while i < names.len()
        invariant
            i <= names.len(),
            forall|k: int| 0 <= k < i ==> name_models(names@)[k] != name@,
        decreases names.len() - i,
    {
        if same_text(names[i].as_str(), name) {
            return Some(i);
        }
        i += 1;
    }
    None
}

/// The index of a name is the first place where it stands, in a list in which
/// nothing stands twice.
proof fn lemma_first_index(names: Seq<Seq<char>>, name: Seq<char>, n: int)
    requires
        0 <= n < names.len(),
        names[n] == name,
        names.no_duplicates(),
    ensures
        names.index_of(name) == n,
{
}

/// The names among more leaves extend those among fewer, and none stands
/// twice.
proof fn lemma_names_grow(leaves: Seq<LeafModel>, n: int)
    requires
        0 <= n <= leaves.len(),
    ensures
        local_names(leaves.take(n)).len() <= local_names(leaves).len(),
        local_names(leaves.take(n)).len() <= n,
        local_names(leaves).no_duplicates(),
        forall|k: int|
            0 <= k < local_names(leaves.take(n)).len() ==> #[trigger] local_names(leaves)[k]
                == local_names(leaves.take(n))[k],
    decreases leaves.len(),
{
    if n == leaves.len() {
        assert(leaves.take(n) =~= leaves);
        if n > 0 {
            lemma_names_grow(leaves.drop_last(), n - 1);
            assert(leaves.drop_last().take(n - 1) =~= leaves.drop_last());
        }
    } else {
        lemma_names_grow(leaves.drop_last(), n);
        assert(leaves.drop_last().take(n) =~= leaves.take(n));
    }
}

/// The hash of a token stream.
pub fn hash_tokens(tokens: &Vec<NormalizedToken>) -> (h: u64)
    ensures
        h == token_hash(token_models(tokens@)),
{
    let mut h: u64 = 0xcbf29ce484222325;
    let ghost all = token_models(tokens@);
    let mut i: usize = 0;
    while i < tokens.len()
        invariant
            i <= tokens.len(),
            all == token_models(tokens@),
            h == token_hash(all.take(i as int)),
        decreases tokens.len() - i,
    {
        proof {
            assert(all.take(i + 1).drop_last() =~= all.take(i as int));
            assert(all.take(i + 1).last() == tokens@[i as int]@);
        }
        h = mix_bytes(h, tokens[i].kind.as_str().as_bytes());
        h = (h ^ 0x1fu64).wrapping_mul(0x100000001b3);
        h = mix_bytes(h, tokens[i].text.as_str().as_bytes());
        h = (h ^ 0x1eu64).wrapping_mul(0x100000001b3);
        i += 1;
    }
    assert(all.take(i as int) =~= all);
    h
}

/// Mixes bytes into a hash.
fn mix_bytes(h: u64, bytes: &[u8]) -> (r: u64)
    ensures
        r == mix_all(h, bytes@),
{
    let mut r: u64 = h;
    let mut i: usize = 0;
    while i < bytes.len()
        invariant
            i <= bytes.len(),
            r == mix_all(h, bytes@.take(i as int)),
        decreases bytes.len() - i,
    {
        proof {
            assert(bytes@.take(i + 1).drop_last() =~= bytes@.take(i as int));
        }
        r = (r ^ (bytes[i] as u64)).wrapping_mul(0x100000001b3);
        i += 1;
    }
    assert(bytes@.take(i as int) =~= bytes@);
    r
}

/// The leaves of a stream that has already been renamed.
pub open spec fn again(leaves: Seq<LeafModel>) -> Seq<LeafModel> {
    Seq::new(
        leaves.len(),
        |i: int|
            LeafModel {
                kind: leaves[i].kind,
                text: renamed(leaves)[i].text,
                local: leaves[i].local,
            },
    )
}

/// The leaves with every local name replaced by `f` of it.
pub open spec fn substituted(
    leaves: Seq<LeafModel>,
    f: spec_fn(Seq<char>) -> Seq<char>,
) -> Seq<LeafModel> {
    Seq::new(
        leaves.len(),
        |i: int|
            LeafModel {
                kind: leaves[i].kind,
                text: if leaves[i].local {
                    f(leaves[i].text)
                } else {
                    leaves[i].text
                },
                local: leaves[i].local,
            },
    )
}

/// `f` maps different local names of the leaves to different names.
pub open spec fn injective_on_locals(
    leaves: Seq<LeafModel>,
    f: spec_fn(Seq<char>) -> Seq<char>,
) -> bool {
    forall|i: int, j: int|
        0 <= i < leaves.len() && 0 <= j < leaves.len() && leaves[i].local && leaves[j].local && f(
            #[trigger] leaves[i].text,
        ) == f(#[trigger] leaves[j].text) ==> leaves[i].text == leaves[j].text
}

/// Renaming the locals of a unit, different names to different names, changes
/// neither its tokens nor its hash.
pub proof fn law_local_names_do_not_matter(
    leaves: Seq<LeafModel>,
    f: spec_fn(Seq<char>) -> Seq<char>,
)
    requires
        injective_on_locals(leaves, f),
    ensures
        renamed(substituted(leaves, f)) == renamed(leaves),
        token_hash(renamed(substituted(leaves, f))) == token_hash(renamed(leaves)),
{
    let subst = substituted(leaves, f);
    lemma_names_substituted(leaves, f);
    lemma_names_grow(leaves, leaves.len() as int);
    lemma_names_grow(subst, subst.len() as int);
    let names = local_names(leaves);
    let others = local_names(subst);
    assert forall|i: int| 0 <= i < leaves.len() implies emitted(others, subst[i]) == emitted(
        names,
        #[trigger] leaves[i],
    ) by {
        if leaves[i].local {
            lemma_name_listed(leaves, i);
            let n = names.index_of(leaves[i].text);
            assert(names[n] == leaves[i].text);
            assert(others[n] == f(leaves[i].text));
            lemma_first_index(others, subst[i].text, n);
        }
    }
    assert(renamed(subst) =~= renamed(leaves));
}

/// Aliases are assigned once and for all: renaming a stream that has already
/// been renamed changes nothing.
pub proof fn law_rename_idempotent(leaves: Seq<LeafModel>)
    ensures
        renamed(again(leaves)) == renamed(leaves),
{
    let names = local_names(leaves);
    let f = |t: Seq<char>| alias((names.index_of(t) + 1) as nat);
    lemma_names_grow(leaves, leaves.len() as int);
    assert forall|i: int, j: int|
        0 <= i < leaves.len() && 0 <= j < leaves.len() && leaves[i].local && leaves[j].local && f(
            #[trigger] leaves[i].text,
        ) == f(#[trigger] leaves[j].text) implies leaves[i].text == leaves[j].text by {
        lemma_name_listed(leaves, i);
        lemma_name_listed(leaves, j);
        let a = (names.index_of(leaves[i].text) + 1) as nat;
        let b = (names.index_of(leaves[j].text) + 1) as nat;
        assert(alias(a).subrange("v"@.len() as int, alias(a).len() as int) =~= dec(a));
        assert(alias(b).subrange("v"@.len() as int, alias(b).len() as int) =~= dec(b));
        lemma_dec_injective(a, b);
    }
    assert(again(leaves) =~= substituted(leaves, f));
    law_local_names_do_not_matter(leaves, f);
}

/// A local name of the leaves is listed among their names.
proof fn lemma_name_listed(leaves: Seq<LeafModel>, i: int)
    requires
        0 <= i < leaves.len(),
        leaves[i].local,
    ensures
        local_names(leaves).contains(leaves[i].text),
    decreases leaves.len(),
{
    let before = local_names(leaves.drop_last());
    if i == leaves.len() - 1 {
        if !before.contains(leaves[i].text) {
            assert(local_names(leaves)[before.len() as int] == leaves[i].text);
        }
    } else {
        lemma_name_listed(leaves.drop_last(), i);
        let k = choose|k: int| 0 <= k < before.len() && before[k] == leaves[i].text;
        assert(local_names(leaves)[k] == leaves[i].text);
    }
}

/// A listed name is a local name of some leaf.
proof fn lemma_name_occurs(leaves: Seq<LeafModel>, k: int) -> (i: int)
    requires
        0 <= k < local_names(leaves).len(),
    ensures
        0 <= i < leaves.len(),
        leaves[i].local,
        leaves[i].text == local_names(leaves)[k],
    decreases leaves.len(),
{
    let before = local_names(leaves.drop_last());
    if k < before.len() {
        lemma_name_occurs(leaves.drop_last(), k)
    } else {
        leaves.len() - 1
    }
}

/// Substituting names substitutes the list of names.
proof fn lemma_names_substituted(leaves: Seq<LeafModel>, f: spec_fn(Seq<char>) -> Seq<char>)
    requires
        injective_on_locals(leaves, f),
    ensures
        local_names(substituted(leaves, f)).len() == local_names(leaves).len(),
        forall|k: int|
            0 <= k < local_names(leaves).len() ==> #[trigger] local_names(substituted(leaves, f))[k]
                == f(local_names(leaves)[k]),
    decreases leaves.len(),
{
    let subst = substituted(leaves, f);
    if leaves.len() > 0 {
        let n = leaves.len() - 1;
        assert(injective_on_locals(leaves.drop_last(), f)) by {
            assert forall|i: int, j: int|
                0 <= i < n && 0 <= j < n && leaves.drop_last()[i].local
                    && leaves.drop_last()[j].local && f(#[trigger] leaves.drop_last()[i].text) == f(
                    #[trigger] leaves.drop_last()[j].text,
                ) implies leaves.drop_last()[i].text == leaves.drop_last()[j].text by {
                assert(f(leaves[i].text) == f(leaves[j].text));
            }
        }
        lemma_names_substituted(leaves.drop_last(), f);
        assert(subst.drop_last() =~= substituted(leaves.drop_last(), f));
        let before = local_names(leaves.drop_last());
        let other = local_names(subst.drop_last());
        if leaves[n].local {
            if before.contains(leaves[n].text) {
                let k = choose|k: int| 0 <= k < before.len() && before[k] == leaves[n].text;
                assert(other[k] == subst[n].text);
            } else if other.contains(subst[n].text) {
                let k = choose|k: int| 0 <= k < other.len() && other[k] == subst[n].text;
                assert(other[k] == f(before[k]));
                let i = lemma_name_occurs(leaves.drop_last(), k);
                assert(leaves[i].text == before[k]);
                assert(f(leaves[i].text) == f(leaves[n].text));
                assert(before[k] == leaves[n].text);
            }
        }
    }
}

/// The bytes that stand for a token stream: of each token its kind, a unit
/// separator, its text and a record separator.
pub open spec fn token_bytes(tokens: Seq<TokenModel>) -> Seq<u8>
    decreases tokens.len(),
{
    if tokens.len() == 0 {
        Seq::empty()
    } else {
        token_bytes(tokens.drop_last()) + encode_utf8(tokens.last().kind) + seq![0x1fu8]
            + encode_utf8(tokens.last().text) + seq![0x1eu8]
    }
}

/// The hash of a token stream is the 64-bit FNV-1a hash of its bytes.
pub proof fn law_hash_is_fnv(tokens: Seq<TokenModel>)
    ensures
        token_hash(tokens) == token_bytes(tokens).fold_left(
            0xcbf29ce484222325u64,
            |h: u64, b: u8| (h ^ (b as u64)).wrapping_mul(0x100000001b3u64),
        ),
    decreases tokens.len(),
{
    let f = |h: u64, b: u8| (h ^ (b as u64)).wrapping_mul(0x100000001b3u64);
    let start = 0xcbf29ce484222325u64;
    if tokens.len() > 0 {
        let t = tokens.last();
        law_hash_is_fnv(tokens.drop_last());
        let before = token_bytes(tokens.drop_last());
        lemma_fold_more(before, encode_utf8(t.kind), start, f);
        let a = before + encode_utf8(t.kind);
        assert(a.push(0x1fu8).drop_last() =~= a);
        assert(a + seq![0x1fu8] =~= a.push(0x1fu8));
        let b = a + seq![0x1fu8];
        lemma_fold_more(b, encode_utf8(t.text), start, f);
        let c = b + encode_utf8(t.text);
        assert(c.push(0x1eu8).drop_last() =~= c);
        assert(c + seq![0x1eu8] =~= c.push(0x1eu8));
    }
}

/// Mixing more bytes goes on where the hash of the bytes before them stands.
proof fn lemma_fold_more(
    before: Seq<u8>,
    more: Seq<u8>,
    start: u64,
    f: spec_fn(u64, u8) -> u64,
)
    requires
        forall|h: u64, b: u8| #[trigger] f(h, b) == mix(h, b),
    ensures
        (before + more).fold_left(start, f) == mix_all(before.fold_left(start, f), more),
    decreases more.len(),
{
    if more.len() == 0 {
        assert(before + more =~= before);
    } else {
        lemma_fold_more(before, more.drop_last(), start, f);
        assert((before + more).drop_last() =~= before + more.drop_last());
    }
}

/// Token streams with the same bytes are the same, where no kind holds a unit
/// separator and no text a record separator. So every token has its part in
/// what is hashed, whatever its kind.
pub proof fn law_bytes_tell_streams_apart(a: Seq<TokenModel>, b: Seq<TokenModel>)
    requires
        forall|i: int| 0 <= i < a.len() ==> !encode_utf8((#[trigger] a[i]).kind).contains(0x1f),
        forall|i: int| 0 <= i < a.len() ==> !encode_utf8((#[trigger] a[i]).text).contains(0x1e),
        forall|i: int| 0 <= i < b.len() ==> !encode_utf8((#[trigger] b[i]).kind).contains(0x1f),
        forall|i: int| 0 <= i < b.len() ==> !encode_utf8((#[trigger] b[i]).text).contains(0x1e),
        token_bytes(a) == token_bytes(b),
    ensures
        a == b,
    decreases a.len(),
{
    if a.len() == 0 {
        if b.len() > 0 {
            lemma_first_token(b);
            assert(token_bytes(b).len() == 0);
        }
        assert(a =~= b);
    } else if b.len() == 0 {
        lemma_first_token(a);
        assert(token_bytes(a).len() == 0);
    } else {
        lemma_first_token(a);
        lemma_first_token(b);
        let x = encode_utf8(a[0].kind);
        let y = encode_utf8(b[0].kind);
        let after_a = encode_utf8(a[0].text) + seq![0x1eu8] + token_bytes(a.drop_first());
        let after_b = encode_utf8(b[0].text) + seq![0x1eu8] + token_bytes(b.drop_first());
        assert(token_bytes(a) =~= x + seq![0x1fu8] + after_a);
        assert(token_bytes(b) =~= y + seq![0x1fu8] + after_b);
        lemma_cut_at(x, y, 0x1f, after_a, after_b);
        lemma_cut_at(
            encode_utf8(a[0].text),
            encode_utf8(b[0].text),
            0x1e,
            token_bytes(a.drop_first()),
            token_bytes(b.drop_first()),
        );
        encode_utf8_decode_utf8(a[0].kind);
        encode_utf8_decode_utf8(b[0].kind);
        encode_utf8_decode_utf8(a[0].text);
        encode_utf8_decode_utf8(b[0].text);
        assert(a[0] == b[0]);
        law_bytes_tell_streams_apart(a.drop_first(), b.drop_first());
        assert(a =~= seq![a[0]] + a.drop_first());
        assert(b =~= seq![b[0]] + b.drop_first());
    }
}

/// The bytes of a stream begin with those of its first token.
proof fn lemma_first_token(tokens: Seq<TokenModel>)
    requires
        tokens.len() > 0,
    ensures
        token_bytes(tokens) == encode_utf8(tokens[0].kind) + seq![0x1fu8] + encode_utf8(
            tokens[0].text,
        ) + seq![0x1eu8] + token_bytes(tokens.drop_first()),
    decreases tokens.len(),
{
    let rest = tokens.drop_first();
    if tokens.len() == 1 {
        assert(token_bytes(rest) =~= Seq::empty());
        assert(token_bytes(tokens.drop_last()) =~= Seq::empty());
        assert(token_bytes(tokens) =~= encode_utf8(tokens[0].kind) + seq![0x1fu8] + encode_utf8(
            tokens[0].text,
        ) + seq![0x1eu8] + token_bytes(rest));
    } else {
        lemma_first_token(tokens.drop_last());
        assert(tokens.drop_last().drop_first() =~= rest.drop_last());
        assert(token_bytes(tokens) =~= encode_utf8(tokens[0].kind) + seq![0x1fu8] + encode_utf8(
            tokens[0].text,
        ) + seq![0x1eu8] + token_bytes(rest));
    }
}

/// Where two texts are equal, so are their parts before the first separator,
/// and their parts behind it.
proof fn lemma_cut_at(x: Seq<u8>, y: Seq<u8>, cut: u8, after_x: Seq<u8>, after_y: Seq<u8>)
    requires
        !x.contains(cut),
        !y.contains(cut),
        x + seq![cut] + after_x == y + seq![cut] + after_y,
    ensures
        x == y,
        after_x == after_y,
{
    let l = x + seq![cut] + after_x;
    let r = y + seq![cut] + after_y;
    if x.len() < y.len() {
        assert(l[x.len() as int] == cut);
        assert(r[x.len() as int] == y[x.len() as int]);
        assert(y.contains(y[x.len() as int]));
    } else if y.len() < x.len() {
        assert(r[y.len() as int] == cut);
        assert(l[y.len() as int] == x[y.len() as int]);
        assert(x.contains(x[y.len() as int]));
    }
    assert(x =~= l.take(x.len() as int));
    assert(y =~= r.take(y.len() as int));
    assert(after_x =~= l.skip(x.len() as int + 1));
    assert(after_y =~= r.skip(y.len() as int + 1));
}

/// Every leaf becomes one token, in its place and of its kind. A leaf that is
/// no local keeps its text, and two locals get the same text exactly where they
/// have the same name.
pub proof fn law_leaves_become_tokens(leaves: Seq<LeafModel>)
    ensures
        renamed(leaves).len() == leaves.len(),
        forall|i: int|
            0 <= i < leaves.len() ==> (#[trigger] renamed(leaves)[i]).kind == leaves[i].kind,
        forall|i: int|
            0 <= i < leaves.len() && !leaves[i].local ==> (#[trigger] renamed(leaves)[i]).text
                == leaves[i].text,
        forall|i: int, j: int|
            0 <= i < leaves.len() && 0 <= j < leaves.len() && leaves[i].local && leaves[j].local
                ==> ((#[trigger] renamed(leaves)[i]).text == (#[trigger] renamed(leaves)[j]).text
                <==> leaves[i].text == leaves[j].text),
{
    let names = local_names(leaves);
    assert forall|i: int, j: int|
        0 <= i < leaves.len() && 0 <= j < leaves.len() && leaves[i].local && leaves[j].local && (
        #[trigger] renamed(leaves)[i]).text == (#[trigger] renamed(leaves)[j]).text implies leaves[i].text
        == leaves[j].text by {
        lemma_name_listed(leaves, i);
        lemma_name_listed(leaves, j);
        let a = (names.index_of(leaves[i].text) + 1) as nat;
        let b = (names.index_of(leaves[j].text) + 1) as nat;
        assert(alias(a).subrange("v"@.len() as int, alias(a).len() as int) =~= dec(a));
        assert(alias(b).subrange("v"@.len() as int, alias(b).len() as int) =~= dec(b));
        lemma_dec_injective(a, b);
    }
}

/// Locals are numbered from one in the order in which they first occur: where
/// a name first occurs, its number is one more than there are local names
/// before it.
pub proof fn law_locals_count_up(leaves: Seq<LeafModel>, i: int)
    requires
        0 <= i < leaves.len(),
        leaves[i].local,
        forall|j: int|
            0 <= j < i && (#[trigger] leaves[j]).local ==> leaves[j].text != leaves[i].text,
    ensures
        renamed(leaves)[i].text == "v"@ + dec(
            (leaves.take(i).filter(|l: LeafModel| l.local).map_values(
                |l: LeafModel| l.text,
            ).to_set().len() + 1) as nat,
        ),
{
    let before = leaves.take(i);
    let names = local_names(before);
    let locals = before.filter(|l: LeafModel| l.local);
    let texts_before = locals.map_values(|l: LeafModel| l.text);
    lemma_names_grow(leaves, i);
    lemma_names_grow(leaves, i + 1);
    lemma_names_grow(before, i);
    assert(before.take(i) =~= before);
    assert(leaves.take(i + 1).drop_last() =~= before);
    if names.contains(leaves[i].text) {
        let k = choose|k: int| 0 <= k < names.len() && names[k] == leaves[i].text;
        let j = lemma_name_occurs(before, k);
        assert(leaves[j].local && leaves[j].text == leaves[i].text);
    }
    assert(local_names(leaves.take(i + 1)) == names.push(leaves[i].text));
    assert(local_names(leaves)[names.len() as int] == leaves[i].text);
    lemma_first_index(local_names(leaves), leaves[i].text, names.len() as int);
    names.unique_seq_to_set();
    assert forall|t: Seq<char>| names.to_set().contains(t) <==> texts_before.to_set().contains(
        t,
    ) by {
        if names.contains(t) {
            let k = choose|k: int| 0 <= k < names.len() && names[k] == t;
            let j = lemma_name_occurs(before, k);
            before.lemma_filter_contains(|l: LeafModel| l.local, j);
            let m = choose|m: int| 0 <= m < locals.len() && locals[m] == before[j];
            assert(texts_before[m] == t);
        }
        if texts_before.contains(t) {
            let m = choose|m: int| 0 <= m < texts_before.len() && texts_before[m] == t;
            let leaf = locals[m];
            before.lemma_filter_contains_rev(|l: LeafModel| l.local, leaf);
            let j = choose|j: int| 0 <= j < before.len() && before[j] == leaf;
            lemma_name_listed(before, j);
        }
    }
    assert(names.to_set() =~= texts_before.to_set());
}

/// The tokens of a subtree are its leaves with a text that is not blank, each
/// one and in source order: of their kinds, with their texts where they are no
/// locals, and with equal texts for locals of equal names. A node lies below `i`
/// where every node behind `i` up to it is deeper than `i`.
pub proof fn law_tokens_are_leaves<P: LanguageProfile>(
    profile: P,
    s: Seq<NodeModel>,
    source: Seq<u8>,
    i: int,
)
    requires
        0 <= i < s.len(),
    ensures
        ({
            let tokens = subtree_tokens(profile, s, source, i);
            let at = Seq::new(s.len(), |j: int| j).filter(
                |j: int|
                    {
                        let bytes = source.subrange(s[j].start_byte, s[j].end_byte);
                        &&& i <= j
                        &&& forall|k: int| i < k <= j ==> (#[trigger] s[k]).depth > s[i].depth
                        &&& j + 1 < s.len() ==> s[j + 1].depth <= s[j].depth
                        &&& 0 <= s[j].start_byte <= s[j].end_byte <= source.len()
                        &&& valid_utf8(bytes)
                        &&& exists|k: int|
                            0 <= k < decode_utf8(bytes).len() && !is_white(
                                #[trigger] decode_utf8(bytes)[k],
                            )
                    },
            );
            &&& tokens.len() == at.len()
            &&& forall|n: int|
                0 <= n < at.len() ==> (#[trigger] tokens[n]).kind == s[at[n]].kind && (
                profile.node_class(s, at[n]) != RenameClass::Local ==> tokens[n].text
                    == decode_utf8(source.subrange(s[at[n]].start_byte, s[at[n]].end_byte)))
            &&& forall|m: int, n: int|
                0 <= m < at.len() && 0 <= n < at.len() && profile.node_class(s, at[m])
                    == RenameClass::Local && profile.node_class(s, at[n]) == RenameClass::Local
                    ==> ((#[trigger] tokens[m]).text == (#[trigger] tokens[n]).text <==> source.subrange(
                    s[at[m]].start_byte,
                    s[at[m]].end_byte,
                ) == source.subrange(s[at[n]].start_byte, s[at[n]].end_byte))
        }),
{
    let e = lemma_subtree_ends(s, i);
    let leaves = leaves_between(profile, s, source, i, e);
    let at = inked_upto(s, source, i, s.len() as int);
    lemma_inked(profile, s, source, i, e, s.len() as int);
    assert(Seq::new(s.len(), |j: int| j).take(s.len() as int) =~= Seq::new(s.len(), |j: int| j));
    law_leaves_become_tokens(leaves);
    let tokens = renamed(leaves);
    assert forall|m: int, n: int|
        0 <= m < at.len() && 0 <= n < at.len() && profile.node_class(s, at[m])
            == RenameClass::Local && profile.node_class(s, at[n]) == RenameClass::Local implies ((
    #[trigger] tokens[m]).text == (#[trigger] tokens[n]).text <==> source.subrange(
        s[at[m]].start_byte,
        s[at[m]].end_byte,
    ) == source.subrange(s[at[n]].start_byte, s[at[n]].end_byte)) by {
        let x = source.subrange(s[at[m]].start_byte, s[at[m]].end_byte);
        let y = source.subrange(s[at[n]].start_byte, s[at[n]].end_byte);
        assert(leaves[m].local && leaves[n].local);
        decode_utf8_encode_utf8(x);
        decode_utf8_encode_utf8(y);
    }
}

/// Every subtree ends somewhere.
proof fn lemma_subtree_ends(s: Seq<NodeModel>, i: int) -> (e: int)
    requires
        0 <= i < s.len(),
    ensures
        is_subtree_end(s, i, e),
        subtree_end(s, i) == e,
{
    let e = lemma_end_from(s, i, i + 1);
    lemma_subtree_end_unique(s, i, e);
    e
}

/// A subtree that reaches up to `from` ends there or later.
proof fn lemma_end_from(s: Seq<NodeModel>, i: int, from: int) -> (e: int)
    requires
        0 <= i < from <= s.len(),
        forall|k: int| i < k < from ==> (#[trigger] s[k]).depth > s[i].depth,
    ensures
        is_subtree_end(s, i, e),
    decreases s.len() - from,
{
    if from == s.len() || s[from].depth <= s[i].depth {
        from
    } else {
        lemma_end_from(s, i, from + 1)
    }
}

/// The leaves among the first `n` nodes, by their numbers.
proof fn lemma_inked<P: LanguageProfile>(
    profile: P,
    s: Seq<NodeModel>,
    source: Seq<u8>,
    i: int,
    e: int,
    n: int,
)
    requires
        is_subtree_end(s, i, e),
        0 <= n <= s.len(),
    ensures
        ({
            let at = inked_upto(s, source, i, n);
            let leaves = leaves_between(
                profile,
                s,
                source,
                i,
                if n < e {
                    n
                } else {
                    e
                },
            );
            &&& leaves.len() == at.len()
            &&& forall|m: int|
                0 <= m < at.len() ==> {
                    &&& 0 <= #[trigger] at[m] < s.len()
                    &&& valid_utf8(source.subrange(s[at[m]].start_byte, s[at[m]].end_byte))
                    &&& leaves[m] == (LeafModel {
                        kind: s[at[m]].kind,
                        text: decode_utf8(
                            source.subrange(s[at[m]].start_byte, s[at[m]].end_byte),
                        ),
                        local: profile.node_class(s, at[m]) == RenameClass::Local,
                    })
                }
        }),
    decreases n,
{
    reveal(Seq::filter);
    let all = Seq::new(s.len(), |j: int| j);
    if n > 0 {
        lemma_inked(profile, s, source, i, e, n - 1);
        let j = n - 1;
        assert(all.take(n).drop_last() =~= all.take(n - 1));
        assert(all.take(n).last() == j);
        if j >= e {
            assert(!(forall|k: int| i < k <= j ==> (#[trigger] s[k]).depth > s[i].depth)) by {
                assert(s[e].depth <= s[i].depth);
            }
        } else if i <= j {
            let text = decode_utf8(source.subrange(s[j].start_byte, s[j].end_byte));
            if !is_blank(text) {
                let k = choose|k: int| 0 <= k < text.len() && !is_white(#[trigger] text[k]);
                assert(!is_white(text[k]));
            }
            assert(leaf_at(profile, s, source, j).len() <= 1);
        }
    }
}

/// The numbers below `n` of the leaves below node `i` that become tokens.
spec fn inked_upto(s: Seq<NodeModel>, source: Seq<u8>, i: int, n: int) -> Seq<int> {
    Seq::new(s.len(), |j: int| j).take(n).filter(
        |j: int|
            {
                let bytes = source.subrange(s[j].start_byte, s[j].end_byte);
                &&& i <= j
                &&& forall|k: int| i < k <= j ==> (#[trigger] s[k]).depth > s[i].depth
                &&& j + 1 < s.len() ==> s[j + 1].depth <= s[j].depth
                &&& 0 <= s[j].start_byte <= s[j].end_byte <= source.len()
                &&& valid_utf8(bytes)
                &&& exists|k: int|
                    0 <= k < decode_utf8(bytes).len() && !is_white(
                        #[trigger] decode_utf8(bytes)[k],
                    )
            },
    )
}

/// The units of a file are its nodes of a unit kind that hold a token, each one
/// and in source order, with their bytes, their lines counted from one, their
/// tokens and the hash of these.
pub proof fn law_units_are_found<P: LanguageProfile>(profile: P, s: Seq<NodeModel>, source: Seq<u8>)
    ensures
        ({
            let units = units_before(profile, s, source, s.len() as int);
            let at = Seq::new(s.len(), |j: int| j).filter(
                |j: int|
                    profile.unit_kinds().contains(s[j].kind) && subtree_tokens(
                        profile,
                        s,
                        source,
                        j,
                    ).len() > 0,
            );
            &&& units.len() == at.len()
            &&& forall|n: int|
                0 <= n < at.len() ==> {
                    let unit = #[trigger] units[n];
                    let node = s[at[n]];
                    &&& unit.kind == node.kind
                    &&& unit.start_byte == node.start_byte && unit.end_byte == node.end_byte
                    &&& unit.start_line == node.start_row + 1 && unit.end_line == node.end_row + 1
                    &&& unit.tokens == subtree_tokens(profile, s, source, at[n])
                    &&& unit.hash == token_hash(unit.tokens)
                }
        }),
{
    lemma_units_found(profile, s, source, s.len() as int);
    assert(Seq::new(s.len(), |j: int| j).take(s.len() as int) =~= Seq::new(s.len(), |j: int| j));
}

/// The units among the first `n` nodes, by their numbers.
proof fn lemma_units_found<P: LanguageProfile>(
    profile: P,
    s: Seq<NodeModel>,
    source: Seq<u8>,
    n: int,
)
    requires
        0 <= n <= s.len(),
    ensures
        ({
            let units = units_before(profile, s, source, n);
            let at = Seq::new(s.len(), |j: int| j).take(n).filter(
                |j: int|
                    profile.unit_kinds().contains(s[j].kind) && subtree_tokens(
                        profile,
                        s,
                        source,
                        j,
                    ).len() > 0,
            );
            &&& units.len() == at.len()
            &&& forall|m: int|
                0 <= m < at.len() ==> {
                    let unit = #[trigger] units[m];
                    let node = s[at[m]];
                    &&& unit.kind == node.kind
                    &&& unit.start_byte == node.start_byte && unit.end_byte == node.end_byte
                    &&& unit.start_line == node.start_row + 1 && unit.end_line == node.end_row + 1
                    &&& unit.tokens == subtree_tokens(profile, s, source, at[m])
                    &&& unit.hash == token_hash(unit.tokens)
                }
        }),
    decreases n,
{
    reveal(Seq::filter);
    let all = Seq::new(s.len(), |j: int| j);
    if n > 0 {
        lemma_units_found(profile, s, source, n - 1);
        assert(all.take(n).drop_last() =~= all.take(n - 1));
        assert(all.take(n).last() == n - 1);
    }
}

} // verus!
