//! Paths as strings with `/` between their components.
use crate::text::{chars_of, same_text, split, split_on, string_models};
use vstd::prelude::*;
use vstd::string::*;

verus! {

/// A piece between slashes that names something: not empty and not `.`.
pub open spec fn is_component(piece: Seq<char>) -> bool {
    piece.len() > 0 && piece != "."@
}

/// The pieces of a path that name something, in order.
pub open spec fn components(path: Seq<char>) -> Seq<Seq<char>> {
    split_on(path, '/').filter(|p: Seq<char>| is_component(p))
}

/// The last component of a path. A path that has none, or that ends in `..`,
/// has no file name.
pub open spec fn file_name_of(path: Seq<char>) -> Option<Seq<char>> {
    let c = components(path);
    if c.len() == 0 || c.last() == ".."@ {
        None
    } else {
        Some(c.last())
    }
}

/// `n` is the place of the last dot of a name.
pub open spec fn is_last_dot(name: Seq<char>, n: int) -> bool {
    0 <= n < name.len() && name[n] == '.' && forall|k: int| n < k < name.len() ==> name[k] != '.'
}

/// What follows the last dot of a file name. A name whose only dot comes first
/// has no extension, nor has one without a dot.
pub open spec fn extension_of(path: Seq<char>) -> Option<Seq<char>> {
    match file_name_of(path) {
        Some(name) => if exists|n: int| n > 0 && is_last_dot(name, n) {
            let n = choose|n: int| n > 0 && is_last_dot(name, n);
            Some(name.skip(n + 1))
        } else {
            None
        },
        None => None,
    }
}

/// The components of a path.
pub fn path_components(path: &str) -> (r: Vec<String>)
    ensures
        string_models(r@) == components(path@),
{
    let pieces: Vec<String> = split(path, '/');
    let ghost all = string_models(pieces@);
    let ghost keep = |p: Seq<char>| is_component(p);
    let mut out: Vec<String> = Vec::new();
    let mut i: usize = 0;
    proof {
        reveal(Seq::filter);
        assert(string_models(out@) =~= all.take(0).filter(keep));
    }
    while i < pieces.len()
        invariant
            i <= pieces.len(),
            all == string_models(pieces@),
            keep == (|p: Seq<char>| is_component(p)),
            string_models(out@) == all.take(i as int).filter(keep),
        decreases pieces.len() - i,
    {
        let ghost before = string_models(out@);
        proof {
            reveal(Seq::filter);
            assert(all.take(i + 1).drop_last() =~= all.take(i as int));
            assert(all.take(i + 1).last() == pieces@[i as int]@);
        }
        if !pieces[i].as_str().is_empty() && !same_text(pieces[i].as_str(), ".") {
            out.push(pieces[i].clone());
            assert(string_models(out@) =~= before.push(pieces@[i as int]@));
        }
        i += 1;
    }
    assert(all.take(i as int) =~= all);
    out
}

/// The last component of a path.
pub fn file_name(path: &str) -> (r: Option<String>)
    ensures
        match r {
            Some(name) => file_name_of(path@) == Some(name@),
            None => file_name_of(path@) is None,
        },
{
    let c: Vec<String> = path_components(path);
    let ghost all = string_models(c@);
    if c.len() == 0 {
        return None;
    }
    assert(all.last() == c@[c@.len() - 1]@);
    let last: &String = &c[c.len() - 1];
    if same_text(last.as_str(), "..") {
        None
    } else {
        Some(last.clone())
    }
}

/// The extension of the file name of a path.
pub fn extension(path: &str) -> (r: Option<String>)
    ensures
        match r {
            Some(ext) => extension_of(path@) == Some(ext@),
            None => extension_of(path@) is None,
        },
{
    match file_name(path) {
        Some(name) => {
            let chars: Vec<char> = chars_of(name.as_str());
            let mut n: usize = chars.len();
            while n > 1
                invariant
                    n <= chars.len(),
                    chars@ == name@,
                    file_name_of(path@) == Some(name@),
                    forall|k: int| n <= k < chars.len() ==> chars[k] != '.',
                decreases n,
            {
                n -= 1;
                if chars[n] == '.' {
                    proof {
                        let whole = file_name_of(path@)->0;
                        assert(is_last_dot(whole, n as int));
                        assert forall|m: int| is_last_dot(whole, m) implies m == n by {}
                    }
                    let len: usize = chars.len();
                    let ext: &str = name.as_str().substring_char(n + 1, len);
                    assert(ext@ =~= name@.skip(n + 1));
                    return Some(ext.to_owned());
                }
            }
            None
        },
        None => None,
    }
}

/// `rel` below `base`. A `rel` that starts at the root stands for itself.
pub open spec fn joined(base: Seq<char>, rel: Seq<char>) -> Seq<char> {
    if rel.len() > 0 && rel[0] == '/' {
        rel
    } else if base.len() == 0 || base.last() == '/' {
        base + rel
    } else {
        base.push('/') + rel
    }
}

/// `rel` below `base`.
pub fn join(base: &str, rel: &str) -> (r: String)
    ensures
        r@ == joined(base@, rel@),
{
    let rel_len: usize = rel.unicode_len();
    if rel_len > 0 && rel.get_char(0) == '/' {
        return rel.to_owned();
    }
    let mut out: String = base.to_owned();
    let base_len: usize = base.unicode_len();
    if base_len > 0 && base.get_char(base_len - 1) != '/' {
        out.push('/');
    }
    out.append(rel);
    out
}

/// A path starts at the root.
pub open spec fn is_rooted(path: Seq<char>) -> bool {
    path.len() > 0 && path[0] == '/'
}

/// Whether the piece at `i` counts when paths are compared: it names
/// something, or it is a `.` that the path begins with.
pub open spec fn counts(pieces: Seq<Seq<char>>, i: int) -> bool {
    is_component(pieces[i]) || (i == 0 && pieces[i] == "."@)
}

/// The places, among the first `n` pieces, of those that count.
pub open spec fn places(pieces: Seq<Seq<char>>, n: int) -> Seq<int>
    decreases n,
{
    if n <= 0 {
        Seq::empty()
    } else if counts(pieces, n - 1) {
        places(pieces, n - 1).push(n - 1)
    } else {
        places(pieces, n - 1)
    }
}

/// The pieces of a path that count, in order.
pub open spec fn steps(path: Seq<char>) -> Seq<Seq<char>> {
    let pieces = split_on(path, '/');
    let at = places(pieces, pieces.len() as int);
    Seq::new(at.len(), |k: int| pieces[at[k]])
}

/// Two paths lead through the same pieces from the same start. Doubled slashes,
/// a slash at the end and a `.` after the start make no difference.
pub open spec fn same_way(a: Seq<char>, b: Seq<char>) -> bool {
    is_rooted(a) == is_rooted(b) && steps(a) == steps(b)
}

/// A path taken apart.
pub struct Parts {
    /// Whether it starts at the root.
    pub rooted: bool,
    /// What stands between its slashes.
    pub pieces: Vec<String>,
    /// The places of the pieces that count.
    pub at: Vec<usize>,
}

/// `p` is `path` taken apart.
pub open spec fn are_parts(path: Seq<char>, p: Parts) -> bool {
    let pieces = split_on(path, '/');
    let at = places(pieces, pieces.len() as int);
    &&& p.rooted == is_rooted(path)
    &&& string_models(p.pieces@) == pieces
    &&& p.at@.len() == at.len()
    &&& forall|k: int| 0 <= k < at.len() ==> p.at@[k] == #[trigger] at[k]
}

/// Places are in order and inside the pieces.
pub proof fn lemma_places(pieces: Seq<Seq<char>>, n: int)
    requires
        0 <= n <= pieces.len(),
    ensures
        places(pieces, n).len() <= n,
        forall|k: int| 0 <= k < places(pieces, n).len() ==> 0 <= #[trigger] places(pieces, n)[k] < n,
        forall|j: int, k: int|
            0 <= j < k < places(pieces, n).len() ==> #[trigger] places(pieces, n)[j] < #[trigger] places(
                pieces,
                n,
            )[k],
    decreases n,
{
    if n > 0 {
        lemma_places(pieces, n - 1);
    }
}

/// Takes a path apart.
pub fn take_apart(path: &str) -> (r: Parts)
    ensures
        are_parts(path@, r),
{
    let pieces: Vec<String> = split(path, '/');
    let ghost all = split_on(path@, '/');
    let len: usize = path.unicode_len();
    let rooted: bool = len > 0 && path.get_char(0) == '/';
    let mut at: Vec<usize> = Vec::new();
    let mut i: usize = 0;
    while i < pieces.len()
        invariant
            i <= pieces.len(),
            all == string_models(pieces@),
            at@.len() == places(all, i as int).len(),
            forall|k: int| 0 <= k < at@.len() ==> at@[k] == #[trigger] places(all, i as int)[k],
        decreases pieces.len() - i,
    {
        let piece: &str = pieces[i].as_str();
        assert(all[i as int] == piece@);
        let dot: bool = same_text(piece, ".");
        if (!piece.is_empty() && !dot) || (i == 0 && dot) {
            at.push(i);
        }
        i += 1;
    }
    Parts { rooted, pieces, at }
}

/// The steps of a path, read off its parts.
pub proof fn lemma_parts(path: Seq<char>, p: Parts)
    requires
        are_parts(path, p),
    ensures
        steps(path).len() == p.at@.len(),
        p.at@.len() <= p.pieces@.len(),
        forall|j: int| 0 <= j < p.at@.len() ==> #[trigger] p.at@[j] < p.pieces@.len(),
        forall|j: int|
            0 <= j < p.at@.len() ==> #[trigger] steps(path)[j] == p.pieces@[p.at@[j] as int]@,
{
    let pieces = split_on(path, '/');
    let at = places(pieces, pieces.len() as int);
    lemma_places(pieces, pieces.len() as int);
    assert(pieces.len() == p.pieces@.len());
    assert forall|j: int| 0 <= j < p.at@.len() implies #[trigger] p.at@[j] < p.pieces@.len() by {
        assert(at[j] < pieces.len());
    }
    assert forall|j: int| 0 <= j < p.at@.len() implies #[trigger] steps(path)[j]
        == p.pieces@[p.at@[j] as int]@ by {
        assert(p.at@[j] == at[j]);
        assert(string_models(p.pieces@)[at[j]] == p.pieces@[at[j]]@);
    }
}

/// Whether two paths lead through the same pieces from the same start.
pub fn same_path(a: &str, b: &str) -> (r: bool)
    ensures
        r == same_way(a@, b@),
{
    let x: Parts = take_apart(a);
    let y: Parts = take_apart(b);
    proof {
        lemma_parts(a@, x);
        lemma_parts(b@, y);
    }
    if x.rooted != y.rooted || x.at.len() != y.at.len() {
        return false;
    }
    let mut k: usize = 0;
    while k < x.at.len()
        invariant
            k <= x.at.len(),
            x.at.len() == y.at.len(),
            steps(a@).len() == x.at@.len(),
            steps(b@).len() == y.at@.len(),
            forall|j: int| 0 <= j < x.at@.len() ==> #[trigger] x.at@[j] < x.pieces@.len(),
            forall|j: int| 0 <= j < y.at@.len() ==> #[trigger] y.at@[j] < y.pieces@.len(),
            forall|j: int|
                0 <= j < x.at@.len() ==> #[trigger] steps(a@)[j] == x.pieces@[x.at@[j] as int]@,
            forall|j: int|
                0 <= j < y.at@.len() ==> #[trigger] steps(b@)[j] == y.pieces@[y.at@[j] as int]@,
            forall|j: int| 0 <= j < k ==> steps(a@)[j] == steps(b@)[j],
        decreases x.at.len() - k,
    {
        let p: &String = &x.pieces[x.at[k]];
        let q: &String = &y.pieces[y.at[k]];
        assert(steps(a@)[k as int] == p@);
        assert(steps(b@)[k as int] == q@);
        if !same_text(p.as_str(), q.as_str()) {
            return false;
        }
        k += 1;
    }
    assert(steps(a@) =~= steps(b@));
    true
}

/// A path is the same way as itself, and sameness goes both ways and carries
/// over.
pub proof fn law_same_way(a: Seq<char>, b: Seq<char>, c: Seq<char>)
    ensures
        same_way(a, a),
        same_way(a, b) ==> same_way(b, a),
        same_way(a, b) && same_way(b, c) ==> same_way(a, c),
{
}

/// `path` leads through every step of `base`, from the same start. The empty
/// path is the start of every path.
pub open spec fn goes_through(path: Seq<char>, base: Seq<char>) -> bool {
    let n = steps(base).len() as int;
    ||| !is_rooted(base) && n == 0
    ||| is_rooted(path) == is_rooted(base) && n <= steps(path).len() && steps(path).take(n)
        == steps(base)
}

/// Pieces with a slash between each two.
pub open spec fn with_slashes(pieces: Seq<Seq<char>>) -> Seq<char>
    decreases pieces.len(),
{
    if pieces.len() == 0 {
        Seq::empty()
    } else if pieces.len() == 1 {
        pieces[0]
    } else {
        with_slashes(pieces.drop_last()).push('/') + pieces.last()
    }
}

/// A path written with one slash between its steps and nothing else. Paths that
/// lead the same way are written the same.
pub open spec fn plain_form(path: Seq<char>) -> Seq<char> {
    (if is_rooted(path) {
        seq!['/']
    } else {
        Seq::empty()
    }) + with_slashes(steps(path))
}

/// A path written with one slash between its steps and nothing else.
pub fn plain_path(path: &str) -> (r: String)
    ensures
        r@ == plain_form(path@),
{
    let parts: Parts = take_apart(path);
    let ghost all = steps(path@);
    proof {
        lemma_parts(path@, parts);
    }
    let mut out: String = String::new();
    if parts.rooted {
        out.push('/');
    }
    let ghost root = out@;
    let mut k: usize = 0;
    assert(all.take(0) =~= Seq::empty());
    assert(out@ =~= root + with_slashes(all.take(0)));
    while k < parts.at.len()
        invariant
            k <= parts.at.len(),
            all == steps(path@),
            all.len() == parts.at@.len(),
            forall|j: int| 0 <= j < parts.at@.len() ==> #[trigger] parts.at@[j] < parts.pieces@.len(),
            forall|j: int|
                0 <= j < parts.at@.len() ==> #[trigger] steps(path@)[j]
                    == parts.pieces@[parts.at@[j] as int]@,
            out@ == root + with_slashes(all.take(k as int)),
        decreases parts.at.len() - k,
    {
        if k > 0 {
            out.push('/');
        }
        let piece: &String = &parts.pieces[parts.at[k]];
        out.append(piece.as_str());
        proof {
            assert(all[k as int] == piece@);
            assert(all.take(k + 1).drop_last() =~= all.take(k as int));
            assert(all.take(k + 1).last() == piece@);
            assert(out@ =~= root + with_slashes(all.take(k + 1)));
        }
        k += 1;
    }
    assert(all.take(k as int) =~= all);
    out
}

/// What is left of `path` after the steps of `base`, as it is written, up to
/// its last step.
pub open spec fn rest_after(path: Seq<char>, base: Seq<char>) -> Seq<char> {
    let pieces = split_on(path, '/');
    let at = places(pieces, pieces.len() as int);
    let n = steps(base).len() as int;
    if is_rooted(path) && !is_rooted(base) && n == 0 {
        if at.len() == 0 {
            seq!['/']
        } else {
            with_slashes(pieces.take(at.last() + 1))
        }
    } else if n >= at.len() {
        Seq::empty()
    } else {
        with_slashes(pieces.subrange(at[n], at.last() + 1))
    }
}

/// The pieces `from..to` with a slash between each two.
fn glue(pieces: &Vec<String>, from: usize, to: usize) -> (r: String)
    requires
        from < to <= pieces.len(),
    ensures
        r@ == with_slashes(string_models(pieces@).subrange(from as int, to as int)),
{
    let ghost all = string_models(pieces@);
    let mut out: String = pieces[from].clone();
    let mut i: usize = from + 1;
    assert(all.subrange(from as int, i as int) =~= seq![pieces@[from as int]@]);
    while i < to
        invariant
            from < i <= to <= pieces.len(),
            all == string_models(pieces@),
            out@ == with_slashes(all.subrange(from as int, i as int)),
        decreases to - i,
    {
        out.push('/');
        out.append(pieces[i].as_str());
        assert(all.subrange(from as int, i + 1).drop_last() =~= all.subrange(
            from as int,
            i as int,
        ));
        i += 1;
    }
    out
}

/// What is left of `path` after the steps of `base`; nothing where `path` does
/// not lead through them.
pub fn strip_prefix(path: &str, base: &str) -> (r: Option<String>)
    ensures
        match r {
            Some(rest) => goes_through(path@, base@) && rest@ == rest_after(path@, base@),
            None => !goes_through(path@, base@),
        },
{
    let x: Parts = take_apart(path);
    let y: Parts = take_apart(base);
    proof {
        lemma_parts(path@, x);
        lemma_parts(base@, y);
    }
    let n: usize = y.at.len();
    let len: usize = x.at.len();
    let ghost pieces = split_on(path@, '/');
    let ghost at = places(pieces, pieces.len() as int);
    if !y.rooted && n == 0 && x.rooted {
        if len == 0 {
            let mut root: String = String::new();
            root.push('/');
            assert(root@ =~= seq!['/']);
            return Some(root);
        }
        let last: usize = x.at[len - 1];
        let total: usize = x.pieces.len();
        assert(x.at@[len - 1] < total);
        assert(at.last() == last);
        assert(pieces.take(last + 1) =~= pieces.subrange(0, last + 1));
        return Some(glue(&x.pieces, 0, last + 1));
    }
    if x.rooted != y.rooted && !(n == 0 && !y.rooted) {
        return None;
    }
    if n > len {
        return None;
    }
    let mut k: usize = 0;
    while k < n
        invariant
            k <= n <= len,
            n == y.at@.len(),
            len == x.at@.len(),
            steps(path@).len() == len,
            steps(base@).len() == n,
            n > 0 ==> is_rooted(path@) == is_rooted(base@),
            forall|j: int| 0 <= j < x.at@.len() ==> #[trigger] x.at@[j] < x.pieces@.len(),
            forall|j: int| 0 <= j < y.at@.len() ==> #[trigger] y.at@[j] < y.pieces@.len(),
            forall|j: int|
                0 <= j < x.at@.len() ==> #[trigger] steps(path@)[j] == x.pieces@[x.at@[j] as int]@,
            forall|j: int|
                0 <= j < y.at@.len() ==> #[trigger] steps(base@)[j] == y.pieces@[y.at@[j] as int]@,
            forall|j: int| 0 <= j < k ==> steps(path@)[j] == steps(base@)[j],
        decreases n - k,
    {
        let p: &String = &x.pieces[x.at[k]];
        let q: &String = &y.pieces[y.at[k]];
        assert(steps(path@)[k as int] == p@);
        assert(steps(base@)[k as int] == q@);
        if !same_text(p.as_str(), q.as_str()) {
            assert(steps(path@).take(n as int)[k as int] != steps(base@)[k as int]);
            return None;
        }
        k += 1;
    }
    assert(steps(path@).take(n as int) =~= steps(base@));
    if n == len {
        return Some(String::new());
    }
    let from: usize = x.at[n];
    let last: usize = x.at[len - 1];
    let total: usize = x.pieces.len();
    proof {
        assert(x.at@[len - 1] < total);
        lemma_places(pieces, pieces.len() as int);
        assert(at[n as int] == from);
        assert(at[len - 1] == last);
        assert(from <= last);
    }
    Some(glue(&x.pieces, from, last + 1))
}

/// A piece that is written behind a slash is one more piece.
proof fn lemma_piece_added(path: Seq<char>, piece: Seq<char>)
    requires
        !piece.contains('/'),
    ensures
        split_on(path + seq!['/'] + piece, '/') == split_on(path, '/').push(piece),
    decreases piece.len(),
{
    let whole = path + seq!['/'] + piece;
    if piece.len() == 0 {
        assert(whole =~= path.push('/'));
        assert(whole.drop_last() =~= path);
        assert(piece =~= Seq::empty());
    } else {
        let less = piece.drop_last();
        assert(!less.contains('/')) by {
            if less.contains('/') {
                let k = choose|k: int| 0 <= k < less.len() && less[k] == '/';
                assert(piece[k] == '/');
            }
        }
        lemma_piece_added(path, less);
        assert(whole.drop_last() =~= path + seq!['/'] + less);
        assert(piece.contains(piece.last()));
        let before = split_on(path, '/').push(less);
        assert(before.drop_last() =~= split_on(path, '/'));
        assert(less.push(piece.last()) =~= piece);
    }
}

/// A text without a slash is one piece.
proof fn lemma_one_piece(piece: Seq<char>)
    requires
        !piece.contains('/'),
    ensures
        split_on(piece, '/') == seq![piece],
    decreases piece.len(),
{
    if piece.len() == 0 {
        assert(piece =~= Seq::empty());
    } else {
        let less = piece.drop_last();
        assert(!less.contains('/')) by {
            if less.contains('/') {
                let k = choose|k: int| 0 <= k < less.len() && less[k] == '/';
                assert(piece[k] == '/');
            }
        }
        lemma_one_piece(less);
        assert(piece.contains(piece.last()));
        assert(seq![less].drop_last() =~= Seq::empty());
        assert(less.push(piece.last()) =~= piece);
        assert(split_on(piece, '/') =~= seq![piece]);
    }
}

/// The places of the pieces that count are those among fewer pieces, where these
/// are the same.
proof fn lemma_places_agree(a: Seq<Seq<char>>, b: Seq<Seq<char>>, n: int)
    requires
        n <= a.len(),
        n <= b.len(),
        forall|k: int| 0 <= k < n ==> a[k] == b[k],
    ensures
        places(a, n) == places(b, n),
    decreases n,
{
    if n > 0 {
        lemma_places_agree(a, b, n - 1);
    }
}

/// A name behind a slash is one more step; nothing behind a slash, or a dot, is
/// none.
pub proof fn law_steps_grow(path: Seq<char>, piece: Seq<char>)
    requires
        !piece.contains('/'),
    ensures
        steps(path + seq!['/'] + piece) == if piece.len() == 0 || piece == "."@ {
            steps(path)
        } else {
            steps(path).push(piece)
        },
        is_rooted(path + seq!['/'] + piece) <==> path.len() == 0 || path[0] == '/',
{
    lemma_piece_added(path, piece);
    let pieces = split_on(path, '/');
    let whole = split_on(path + seq!['/'] + piece, '/');
    let n = pieces.len() as int;
    crate::text::law_pieces_make_text(path, '/');
    lemma_places_agree(pieces, whole, n);
    lemma_places(pieces, n);
    let at = places(pieces, n);
    assert(whole[n] == piece);
    assert forall|k: int| 0 <= k < at.len() implies whole[#[trigger] at[k]] == pieces[at[k]] by {}
    if piece.len() == 0 || piece == "."@ {
        assert(steps(path + seq!['/'] + piece) =~= steps(path));
    } else {
        assert(steps(path + seq!['/'] + piece) =~= steps(path).push(piece));
    }
}

/// A path without a slash is one step, also where it is a dot, and the empty path
/// is none.
pub proof fn law_first_step(piece: Seq<char>)
    requires
        !piece.contains('/'),
    ensures
        steps(piece) == if piece.len() == 0 {
            Seq::empty()
        } else {
            seq![piece]
        },
        !is_rooted(piece),
{
    lemma_one_piece(piece);
    reveal_with_fuel(places, 2);
    let pieces = split_on(piece, '/');
    assert(pieces.len() == 1);
    assert(pieces[0] == piece);
    if piece.len() == 0 {
        reveal_strlit(".");
        assert("."@.len() == 1);
        assert(steps(piece) =~= Seq::empty());
    } else {
        assert(counts(pieces, 0));
        assert(places(pieces, 1) =~= seq![0int]);
        assert(steps(piece) =~= seq![piece]);
        if is_rooted(piece) {
            assert(piece.contains(piece[0]));
        }
    }
}

/// A slash at the end of a path, a doubled slash and a dot between slashes make
/// no difference to where it leads.
pub proof fn law_slashes_do_not_matter(path: Seq<char>, piece: Seq<char>)
    requires
        path.len() > 0,
        !piece.contains('/'),
    ensures
        same_way(path + seq!['/'], path),
        same_way(path + seq!['/'] + seq!['/'] + piece, path + seq!['/'] + piece),
        same_way(path + seq!['/'] + "."@ + seq!['/'] + piece, path + seq!['/'] + piece),
{
    let none = Seq::<char>::empty();
    assert(!none.contains('/'));
    law_steps_grow(path, none);
    assert(path + seq!['/'] + none =~= path + seq!['/']);
    law_steps_grow(path, piece);
    law_steps_grow(path + seq!['/'], piece);
    reveal_strlit(".");
    assert(!"."@.contains('/'));
    law_steps_grow(path, "."@);
    law_steps_grow(path + seq!['/'] + "."@, piece);
}

/// Paths that start differently, or whose names differ somewhere, lead different
/// ways: letters count in both forms.
pub proof fn law_other_names_lead_elsewhere(path: Seq<char>, a: Seq<char>, b: Seq<char>)
    requires
        !a.contains('/'),
        !b.contains('/'),
        a.len() > 0,
        b.len() > 0,
        a != "."@,
        b != "."@,
        a != b,
    ensures
        !same_way(path + seq!['/'] + a, path + seq!['/'] + b),
        !same_way(seq!['/'] + a, a),
{
    law_steps_grow(path, a);
    law_steps_grow(path, b);
    let s = steps(path);
    assert(s.push(a).last() == a);
    assert(s.push(b).last() == b);
    law_first_step(a);
    assert((seq!['/'] + a)[0] == '/');
}

/// The components of a path are what its slashes leave, without empty pieces and
/// dots.
pub proof fn law_components(path: Seq<char>, name: Seq<char>)
    requires
        !name.contains('/'),
    ensures
        components(path + seq!['/'] + name) == if name.len() == 0 || name == "."@ {
            components(path)
        } else {
            components(path).push(name)
        },
        components(name) == if name.len() == 0 || name == "."@ {
            Seq::empty()
        } else {
            seq![name]
        },
{
    reveal(Seq::filter);
    lemma_piece_added(path, name);
    lemma_one_piece(name);
    let keep = |p: Seq<char>| is_component(p);
    let pieces = split_on(path, '/');
    assert(pieces.push(name).drop_last() =~= pieces);
    assert(seq![name].drop_last() =~= Seq::empty());
    assert(Seq::<Seq<char>>::empty().filter(keep) =~= Seq::empty());
    assert(components(name) =~= if name.len() == 0 || name == "."@ {
        Seq::empty()
    } else {
        seq![name]
    });
}

/// The file name is what stands behind the last slash. A slash at the end does
/// not count, and a path that ends in two dots has no file name.
pub proof fn law_file_names(path: Seq<char>, name: Seq<char>)
    requires
        !name.contains('/'),
        name.len() > 0,
        name != "."@,
    ensures
        file_name_of(path + seq!['/'] + name) == if name == ".."@ {
            None
        } else {
            Some(name)
        },
        file_name_of(name) == if name == ".."@ {
            None
        } else {
            Some(name)
        },
        file_name_of(path + seq!['/']) == file_name_of(path),
        file_name_of(Seq::empty()) is None,
{
    law_components(path, name);
    let none = Seq::<char>::empty();
    assert(!none.contains('/'));
    law_components(path, none);
    assert(path + seq!['/'] + none =~= path + seq!['/']);
}

/// The extension is what stands behind the last dot of the file name, unless that
/// dot comes first.
pub proof fn law_extensions(path: Seq<char>, stem: Seq<char>, ext: Seq<char>)
    requires
        !stem.contains('/'),
        !ext.contains('/'),
        !ext.contains('.'),
        stem.len() > 0,
        stem + seq!['.'] + ext != ".."@,
    ensures
        extension_of(path + seq!['/'] + (stem + seq!['.'] + ext)) == Some(ext),
        extension_of(stem + seq!['.'] + ext) == Some(ext),
        ext.len() > 0 ==> extension_of(path + seq!['/'] + (seq!['.'] + ext)) is None,
        ext.len() > 0 ==> extension_of(path + seq!['/'] + ext) is None,
{
    let name = stem + seq!['.'] + ext;
    let n = stem.len() as int;
    assert(!name.contains('/')) by {
        if name.contains('/') {
            let k = choose|k: int| 0 <= k < name.len() && name[k] == '/';
            if k < n {
                assert(stem[k] == '/');
            } else {
                assert(ext[k - n - 1] == '/');
            }
        }
    }
    reveal_strlit(".");
    assert("."@.len() == 1);
    law_file_names(path, name);
    assert(is_last_dot(name, n)) by {
        assert forall|k: int| n < k < name.len() implies name[k] != '.' by {
            assert(ext.contains(ext[k - n - 1]));
        }
    }
    assert forall|m: int| is_last_dot(name, m) implies m == n by {}
    assert(name.skip(n + 1) =~= ext);
    let named = file_name_of(path + seq!['/'] + (stem + seq!['.'] + ext))->0;
    assert(named == name);
    assert(is_last_dot(named, n));
    let m = choose|m: int| m > 0 && is_last_dot(named, m);
    assert(is_last_dot(named, m) && m == n);
    assert(extension_of(path + seq!['/'] + (stem + seq!['.'] + ext)) == Some(named.skip(m + 1)));
    let hidden = seq!['.'] + ext;
    assert(!hidden.contains('/')) by {
        if hidden.contains('/') {
            let k = choose|k: int| 0 <= k < hidden.len() && hidden[k] == '/';
            assert(ext[k - 1] == '/');
        }
    }
    if ext.len() > 0 {
        assert(hidden != "."@);
        law_file_names(path, hidden);
        assert forall|m: int| m > 0 implies !is_last_dot(hidden, m) by {
            if 0 < m < hidden.len() {
                assert(ext.contains(ext[m - 1]));
            }
        }
        reveal_strlit("..");
        assert(".."@[0] == '.');
        assert("."@[0] == '.');
        assert(ext.contains(ext[0]));
        law_file_names(path, ext);
        assert forall|m: int| !is_last_dot(ext, m) by {
            if 0 <= m < ext.len() {
                assert(ext.contains(ext[m]));
            }
        }
    }
}

/// A path that starts at the root stands for itself; any other is put behind what
/// it is below, with one slash between.
pub proof fn law_joined(base: Seq<char>, rel: Seq<char>)
    ensures
        rel.len() > 0 && rel[0] == '/' ==> joined(base, rel) == rel,
        !(rel.len() > 0 && rel[0] == '/') && base.len() > 0 && base.last() != '/' ==> joined(
            base,
            rel,
        ) == base + seq!['/'] + rel,
        !(rel.len() > 0 && rel[0] == '/') && base.len() > 0 && base.last() == '/' ==> joined(
            base,
            rel,
        ) == base + rel,
        joined(Seq::empty(), rel) == rel,
{
    assert(base.push('/') + rel =~= base + seq!['/'] + rel);
    assert(Seq::<char>::empty() + rel =~= rel);
}

/// What is joined below a folder is that file of that folder.
pub proof fn law_joined_lies_below(base: Seq<char>, name: Seq<char>)
    requires
        base.len() > 0,
        base.last() != '/',
        !name.contains('/'),
        name.len() > 0,
        name != "."@,
    ensures
        steps(joined(base, name)) == steps(base).push(name),
        goes_through(joined(base, name), base),
        rest_after(joined(base, name), base) == name,
{
    assert(name[0] != '/') by {
        assert(name.contains(name[0]));
    }
    law_joined(base, name);
    law_steps_grow(base, name);
    lemma_piece_added(base, name);
    let path = joined(base, name);
    let pieces = split_on(path, '/');
    let n = steps(base).len() as int;
    let at = places(pieces, pieces.len() as int);
    assert(steps(path).len() == at.len());
    assert(steps(path).take(n) =~= steps(base));
    let m = pieces.len() - 1;
    assert(pieces[m] == name);
    assert(counts(pieces, m));
    assert(at == places(pieces, m).push(m));
    assert(at[n] == m && at.last() == m);
    assert(pieces.subrange(m, m + 1) =~= seq![name]);
}

/// A path leads through another exactly where both start at the same place and
/// the steps of the other are its first ones, or where the other is no step at
/// all.
pub proof fn law_going_through(path: Seq<char>, base: Seq<char>)
    ensures
        goes_through(path, base) <==> (!is_rooted(base) && steps(base).len() == 0) || (is_rooted(
            path,
        ) == is_rooted(base) && steps(base).is_prefix_of(steps(path))),
        goes_through(path, path),
{
    let n = steps(base).len() as int;
    if steps(base).is_prefix_of(steps(path)) {
        assert(steps(path).take(n) =~= steps(base));
    }
    assert(steps(path).take(steps(path).len() as int) =~= steps(path));
}

/// Steps that are written with slashes between them are read as these steps.
proof fn lemma_written_steps(root: bool, list: Seq<Seq<char>>)
    requires
        forall|i: int| 0 <= i < list.len() ==> !(#[trigger] list[i]).contains('/'),
        forall|i: int| 0 <= i < list.len() ==> (#[trigger] list[i]).len() > 0,
        forall|i: int| (root || i > 0) && 0 <= i < list.len() ==> #[trigger] list[i] != "."@,
    ensures
        ({
            let path = (if root {
                seq!['/']
            } else {
                Seq::empty()
            }) + with_slashes(list);
            &&& steps(path) == list
            &&& is_rooted(path) == root
            &&& list.len() > 0 ==> path.len() > 0
        }),
    decreases list.len(),
{
    let start = if root {
        seq!['/']
    } else {
        Seq::<char>::empty()
    };
    let path = start + with_slashes(list);
    let none = Seq::<char>::empty();
    assert(!none.contains('/'));
    law_first_step(none);
    if list.len() == 0 {
        assert(path =~= start);
        if root {
            law_steps_grow(none, none);
            assert(none + seq!['/'] + none =~= start);
        } else {
            assert(path =~= none);
        }
        assert(steps(path) =~= list);
    } else if list.len() == 1 {
        let piece = list[0];
        if root {
            law_steps_grow(none, piece);
            assert(none + seq!['/'] + piece =~= path);
        } else {
            law_first_step(piece);
            assert(path =~= piece);
        }
        assert(steps(path) =~= list);
    } else {
        let before = list.drop_last();
        assert forall|i: int| 0 <= i < before.len() implies !(#[trigger] before[i]).contains('/')
            && before[i].len() > 0 && ((root || i > 0) ==> before[i] != "."@) by {
            assert(before[i] == list[i]);
        }
        lemma_written_steps(root, before);
        let piece = list[list.len() - 1];
        law_steps_grow(start + with_slashes(before), piece);
        assert(path =~= start + with_slashes(before) + seq!['/'] + piece);
        assert(steps(path) =~= list);
    }
}

/// A path in its plain form leads the same way, so that two paths have the same
/// plain form exactly where they lead the same way.
pub proof fn law_plain_form(a: Seq<char>, b: Seq<char>)
    ensures
        same_way(plain_form(a), a),
        plain_form(a) == plain_form(b) <==> same_way(a, b),
{
    lemma_steps_are_names(a);
    lemma_steps_are_names(b);
    lemma_written_steps(is_rooted(a), steps(a));
    lemma_written_steps(is_rooted(b), steps(b));
}

/// The steps of a path are names without slashes; only the first one can be a
/// dot, and not behind a root.
proof fn lemma_steps_are_names(path: Seq<char>)
    ensures
        forall|i: int| 0 <= i < steps(path).len() ==> !(#[trigger] steps(path)[i]).contains('/'),
        forall|i: int| 0 <= i < steps(path).len() ==> (#[trigger] steps(path)[i]).len() > 0,
        forall|i: int|
            (is_rooted(path) || i > 0) && 0 <= i < steps(path).len() ==> #[trigger] steps(path)[i]
                != "."@,
{
    let pieces = split_on(path, '/');
    let n = pieces.len() as int;
    let at = places(pieces, n);
    crate::text::law_pieces_make_text(path, '/');
    lemma_places(pieces, n);
    lemma_places_count(pieces, n);
    reveal_strlit(".");
    assert("."@.len() == 1);
    if is_rooted(path) {
        let rest = pieces.skip(1).map_values(|p: Seq<char>| seq!['/'] + p).flatten();
        assert(pieces[0].len() == 0) by {
            if pieces[0].len() > 0 {
                assert((pieces[0] + rest)[0] == pieces[0][0]);
                assert(pieces[0].contains(pieces[0][0]));
            }
        }
    }
    assert forall|i: int| 0 <= i < steps(path).len() implies !(#[trigger] steps(path)[i]).contains(
        '/',
    ) && steps(path)[i].len() > 0 && ((is_rooted(path) || i > 0) ==> steps(path)[i] != "."@) by {
        assert(counts(pieces, at[i]));
        if i > 0 {
            assert(at[0] < at[i]);
        }
    }
}

/// Every place in the list is that of a piece that counts.
proof fn lemma_places_count(pieces: Seq<Seq<char>>, n: int)
    requires
        0 <= n <= pieces.len(),
    ensures
        forall|k: int| 0 <= k < places(pieces, n).len() ==> counts(pieces, #[trigger] places(pieces, n)[k]),
    decreases n,
{
    if n > 0 {
        lemma_places_count(pieces, n - 1);
        let before = places(pieces, n - 1);
        assert forall|k: int| 0 <= k < places(pieces, n).len() implies counts(
            pieces,
            #[trigger] places(pieces, n)[k],
        ) by {
            if k < before.len() {
                assert(counts(pieces, before[k]));
            }
        }
    }
}

} // verus!
