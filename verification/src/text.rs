//! Text helpers: strings as sequences of characters, decimal numbers, blanks.
use vstd::prelude::*;
use vstd::string::*;
use vstd::utf8::*;

verus! {

/// The error of [`core::str::from_utf8`]; nothing is read out of it.
#[verifier::external_type_specification]
#[verifier::external_body]
pub struct ExUtf8Error(core::str::Utf8Error);

/// [`core::str::from_utf8`] succeeds exactly on the byte sequences that are
/// valid UTF-8, and the string that it returns has those bytes.
pub assume_specification[ core::str::from_utf8 ](v: &[u8]) -> (r: Result<
    &str,
    core::str::Utf8Error,
>)
    ensures
        r is Ok <==> valid_utf8(v@),
        r matches Ok(s) ==> s.spec_bytes() == v@,
;

/// [`String::push`] appends one character.
pub assume_specification[ std::string::String::push ](s: &mut std::string::String, c: char)
    ensures
        final(s)@ == old(s)@.push(c),
;

/// Whether two strings hold the same characters.
pub fn same_text(a: &str, b: &str) -> (r: bool)
    ensures
        r == (a@ == b@),
{
    let x: &[u8] = a.as_bytes();
    let y: &[u8] = b.as_bytes();
    proof {
        encode_utf8_decode_utf8(a@);
        encode_utf8_decode_utf8(b@);
    }
    if x.len() != y.len() {
        return false;
    }
    let mut i: usize = 0;
    while i < x.len()
        invariant
            i <= x.len(),
            x.len() == y.len(),
            x@ == a.spec_bytes(),
            y@ == b.spec_bytes(),
            forall|k: int| 0 <= k < i ==> x@[k] == y@[k],
        decreases x.len() - i,
    {
        if x[i] != y[i] {
            assert(a.spec_bytes()[i as int] != b.spec_bytes()[i as int]);
            return false;
        }
        i += 1;
    }
    assert(x@ =~= y@);
    true
}

/// Whether `text` is one of the strings in `list`.
pub open spec fn listed(list: Seq<&str>, text: Seq<char>) -> bool {
    exists|i: int| 0 <= i < list.len() && (#[trigger] list[i])@ == text
}

/// Whether `text` is one of the strings in `list`.
pub fn is_listed(list: &[&str], text: &str) -> (r: bool)
    ensures
        r == listed(list@, text@),
{
    let mut i: usize = 0;
    while i < list.len()
        invariant
            i <= list.len(),
            forall|k: int| 0 <= k < i ==> (#[trigger] list@[k])@ != text@,
        decreases list.len() - i,
    {
        if same_text(list[i], text) {
            return true;
        }
        i += 1;
    }
    false
}

/// The characters of a string.
pub fn chars_of(s: &str) -> (r: Vec<char>)
    ensures
        r@ == s@,
{
    let mut out: Vec<char> = Vec::new();
    for c in it: s.chars()
        invariant
            out@ == it.seq().take(it.index() as int),
            it.seq() == s@,
    {
        out.push(c);
    }
    out
}

/// The decimal digit for `0 <= d < 10`.
pub open spec fn digit(d: int) -> char {
    (48 + d) as char
}

/// `n` written in decimal, without leading zeros.
pub open spec fn dec(n: nat) -> Seq<char>
    decreases n,
{
    if n < 10 {
        seq![digit(n as int)]
    } else {
        dec(n / 10).push(digit((n % 10) as int))
    }
}

/// Appends `n` in decimal.
pub fn push_dec(out: &mut String, n: u64)
    ensures
        final(out)@ == old(out)@ + dec(n as nat),
    decreases n,
{
    if n >= 10 {
        push_dec(out, n / 10);
    }
    let d: u8 = (n % 10) as u8;
    out.push((48u8 + d) as char);
    assert(out@ =~= old(out)@ + dec(n as nat));
}

/// Two numbers with the same decimal form are equal.
pub proof fn lemma_dec_injective(a: nat, b: nat)
    requires
        dec(a) == dec(b),
    ensures
        a == b,
    decreases a + b,
{
    lemma_dec_len(a);
    lemma_dec_len(b);
    if a < 10 && b < 10 {
        assert(dec(a)[0] == digit(a as int));
        assert(dec(b)[0] == digit(b as int));
    } else if a >= 10 && b >= 10 {
        lemma_dec_len(a / 10);
        lemma_dec_len(b / 10);
        assert(dec(a).drop_last() =~= dec(a / 10));
        assert(dec(b).drop_last() =~= dec(b / 10));
        assert(dec(a).last() == digit((a % 10) as int));
        assert(dec(b).last() == digit((b % 10) as int));
        lemma_dec_injective(a / 10, b / 10);
    } else if a >= 10 {
        lemma_dec_len(a / 10);
    } else {
        lemma_dec_len(b / 10);
    }
}

/// A decimal form has at least one digit.
pub proof fn lemma_dec_len(n: nat)
    ensures
        dec(n).len() >= 1,
    decreases n,
{
    if n >= 10 {
        lemma_dec_len(n / 10);
    }
}

/// The characters with the Unicode property White_Space.
pub open spec fn is_white(c: char) -> bool {
    let u = c as u32;
    ||| 0x09 <= u <= 0x0d
    ||| u == 0x20
    ||| u == 0x85
    ||| u == 0xa0
    ||| u == 0x1680
    ||| 0x2000 <= u <= 0x200a
    ||| u == 0x2028
    ||| u == 0x2029
    ||| u == 0x202f
    ||| u == 0x205f
    ||| u == 0x3000
}

/// Whether every character is white space.
pub open spec fn is_blank(s: Seq<char>) -> bool {
    forall|i: int| 0 <= i < s.len() ==> is_white(#[trigger] s[i])
}

/// Whether `c` has the Unicode property White_Space.
pub fn is_white_exec(c: char) -> (r: bool)
    ensures
        r == is_white(c),
{
    let u: u32 = c as u32;
    (0x09 <= u && u <= 0x0d) || u == 0x20 || u == 0x85 || u == 0xa0 || u == 0x1680 || (0x2000 <= u
        && u <= 0x200a) || u == 0x2028 || u == 0x2029 || u == 0x202f || u == 0x205f || u == 0x3000
}

/// Whether every character of `s` is white space.
pub fn is_blank_exec(s: &str) -> (r: bool)
    ensures
        r == is_blank(s@),
{
    let chars: Vec<char> = chars_of(s);
    let mut i: usize = 0;
    while i < chars.len()
        invariant
            i <= chars.len(),
            chars@ == s@,
            forall|k: int| 0 <= k < i ==> is_white(#[trigger] s@[k]),
        decreases chars.len() - i,
    {
        if !is_white_exec(chars[i]) {
            assert(!is_white(s@[i as int]));
            return false;
        }
        i += 1;
    }
    true
}

/// The part of `s` before the first `c`, or all of `s` where there is no `c`.
pub open spec fn before_first(s: Seq<char>, c: char) -> Seq<char>
    decreases s.len(),
{
    if s.len() == 0 || s[0] == c {
        Seq::empty()
    } else {
        seq![s[0]] + before_first(s.drop_first(), c)
    }
}

/// How far the part before the first `c` reaches.
pub proof fn lemma_before_first(s: Seq<char>, c: char, n: int)
    requires
        0 <= n <= s.len(),
        forall|k: int| 0 <= k < n ==> s[k] != c,
        n < s.len() ==> s[n] == c,
    ensures
        before_first(s, c) == s.take(n),
    decreases s.len(),
{
    if s.len() > 0 && s[0] != c {
        lemma_before_first(s.drop_first(), c, n - 1);
        assert(s.take(n) =~= seq![s[0]] + s.drop_first().take(n - 1));
    } else {
        assert(s.take(n) =~= Seq::empty());
    }
}

/// The part of `s` before the first `c`, or all of `s` where there is no `c`.
pub fn head<'a>(s: &'a str, c: char) -> (r: &'a str)
    ensures
        r@ == before_first(s@, c),
{
    let chars: Vec<char> = chars_of(s);
    let mut n: usize = 0;
    while n < chars.len() && chars[n] != c
        invariant
            n <= chars.len(),
            chars@ == s@,
            forall|k: int| 0 <= k < n ==> s@[k] != c,
        decreases chars.len() - n,
    {
        n += 1;
    }
    proof {
        lemma_before_first(s@, c, n as int);
    }
    s.substring_char(0, n)
}

/// `s` starts with `p`.
pub open spec fn begins_with(s: Seq<char>, p: Seq<char>) -> bool {
    p.len() <= s.len() && s.take(p.len() as int) == p
}

/// Whether `s` starts with `p`.
pub fn starts(s: &Vec<char>, p: &str) -> (r: bool)
    ensures
        r == begins_with(s@, p@),
{
    let want: Vec<char> = chars_of(p);
    if want.len() > s.len() {
        return false;
    }
    let mut i: usize = 0;
    while i < want.len()
        invariant
            i <= want.len() <= s.len(),
            want@ == p@,
            forall|k: int| 0 <= k < i ==> s@[k] == p@[k],
        decreases want.len() - i,
    {
        if s[i] != want[i] {
            assert(s@.take(p@.len() as int)[i as int] != p@[i as int]);
            return false;
        }
        i += 1;
    }
    assert(s@.take(p@.len() as int) =~= p@);
    true
}

/// The pieces of `s` between the occurrences of `c`. There is one more than
/// there are occurrences.
pub open spec fn split_on(s: Seq<char>, c: char) -> Seq<Seq<char>>
    decreases s.len(),
{
    if s.len() == 0 {
        seq![Seq::empty()]
    } else {
        let before = split_on(s.drop_last(), c);
        if s.last() == c {
            before.push(Seq::empty())
        } else {
            before.drop_last().push(before.last().push(s.last()))
        }
    }
}

/// The characters of each string in a list.
pub open spec fn string_models(list: Seq<String>) -> Seq<Seq<char>> {
    Seq::new(list.len(), |i: int| list[i]@)
}

/// The pieces of `s` between the occurrences of `c`.
pub fn split(s: &str, c: char) -> (r: Vec<String>)
    ensures
        string_models(r@) == split_on(s@, c),
{
    let chars: Vec<char> = chars_of(s);
    let mut done: Vec<String> = Vec::new();
    let mut cur: String = String::new();
    let mut i: usize = 0;
    assert(string_models(done@).push(cur@) =~= split_on(s@.take(0), c));
    while i < chars.len()
        invariant
            i <= chars.len(),
            chars@ == s@,
            string_models(done@).push(cur@) == split_on(s@.take(i as int), c),
        decreases chars.len() - i,
    {
        let ghost before = string_models(done@).push(cur@);
        proof {
            assert(s@.take(i + 1).drop_last() =~= s@.take(i as int));
            assert(before.drop_last() =~= string_models(done@));
        }
        if chars[i] == c {
            done.push(cur);
            cur = String::new();
            assert(string_models(done@) =~= before);
        } else {
            cur.push(chars[i]);
        }
        i += 1;
    }
    assert(s@.take(i as int) =~= s@);
    let ghost whole = string_models(done@).push(cur@);
    done.push(cur);
    assert(string_models(done@) =~= whole);
    done
}

/// The lines of `s`, each with the line feed that ends it. The last one may
/// have none.
pub open spec fn full_lines(s: Seq<char>) -> Seq<Seq<char>>
    decreases s.len(),
{
    if s.len() == 0 {
        Seq::empty()
    } else {
        let before = full_lines(s.drop_last());
        if before.len() == 0 || s[s.len() - 2] == '\n' {
            before.push(seq![s.last()])
        } else {
            before.drop_last().push(before.last().push(s.last()))
        }
    }
}

/// The lines of `s`, each with the line feed that ends it.
pub fn lines_with_ends(s: &str) -> (r: Vec<String>)
    ensures
        string_models(r@) == full_lines(s@),
{
    let chars: Vec<char> = chars_of(s);
    let mut done: Vec<String> = Vec::new();
    let mut cur: String = String::new();
    let mut i: usize = 0;
    assert(string_models(done@) =~= full_lines(s@.take(0)));
    while i < chars.len()
        invariant
            i <= chars.len(),
            chars@ == s@,
            full_lines(s@.take(i as int)) == if cur@.len() == 0 {
                string_models(done@)
            } else {
                string_models(done@).push(cur@)
            },
            cur@.len() == 0 <==> (i == 0 || s@[i - 1] == '\n'),
            i > 0 ==> full_lines(s@.take(i as int)).len() > 0,
        decreases chars.len() - i,
    {
        let ghost prefix = s@.take(i + 1);
        proof {
            assert(prefix.drop_last() =~= s@.take(i as int));
            if i > 0 {
                assert(prefix[prefix.len() - 2] == s@[i - 1]);
            }
            assert(string_models(done@).push(cur@).drop_last() =~= string_models(done@));
        }
        let ghost start = cur@;
        cur.push(chars[i]);
        assert(start.len() == 0 ==> cur@ =~= seq![chars@[i as int]]);
        assert(full_lines(prefix) == string_models(done@).push(cur@));
        if chars[i] == '\n' {
            let ghost list = string_models(done@).push(cur@);
            done.push(cur);
            cur = String::new();
            assert(string_models(done@) =~= list);
        }
        i += 1;
    }
    assert(s@.take(i as int) =~= s@);
    if i > 0 && chars[i - 1] != '\n' {
        let ghost list = string_models(done@).push(cur@);
        done.push(cur);
        assert(string_models(done@) =~= list);
    }
    done
}

/// The UTF-8 form of a concatenation is the concatenation of the UTF-8 forms.
pub proof fn lemma_encode_concat(a: Seq<char>, b: Seq<char>)
    ensures
        encode_utf8(a + b) == encode_utf8(a) + encode_utf8(b),
    decreases a.len(),
{
    if a.len() == 0 {
        assert(a + b =~= b);
        assert(encode_utf8(a) =~= Seq::empty());
    } else {
        assert((a + b).drop_first() =~= a.drop_first() + b);
        lemma_encode_concat(a.drop_first(), b);
        assert(encode_utf8(a + b) =~= encode_utf8(a) + encode_utf8(b));
    }
}

/// A letter `A` to `Z` in its small form; any other character unchanged.
pub open spec fn lower_char(c: char) -> char {
    if 'A' <= c && c <= 'Z' {
        ((c as u32) + 32) as char
    } else {
        c
    }
}

/// `s` with the letters `A` to `Z` in their small forms.
pub open spec fn lower(s: Seq<char>) -> Seq<char> {
    Seq::new(s.len(), |i: int| lower_char(s[i]))
}

/// `s` with the letters `A` to `Z` in their small forms.
pub fn to_lower(s: &str) -> (r: String)
    ensures
        r@ == lower(s@),
{
    let chars: Vec<char> = chars_of(s);
    let mut out: String = String::new();
    let mut i: usize = 0;
    while i < chars.len()
        invariant
            i <= chars.len(),
            chars@ == s@,
            out@ == lower(s@).take(i as int),
        decreases chars.len() - i,
    {
        let c: char = chars[i];
        if 'A' <= c && c <= 'Z' {
            out.push((c as u8 + 32) as char);
        } else {
            out.push(c);
        }
        assert(lower(s@).take(i + 1) =~= lower(s@).take(i as int).push(lower_char(c)));
        i += 1;
    }
    assert(lower(s@).take(i as int) =~= lower(s@));
    out
}

/// The text of the bytes `start..end`; there is none where that is no range of
/// the bytes, or where it cuts a character in two.
pub open spec fn text_in(bytes: Seq<u8>, start: int, end: int) -> Option<Seq<char>> {
    if 0 <= start <= end <= bytes.len() && valid_utf8(bytes.subrange(start, end)) {
        Some(decode_utf8(bytes.subrange(start, end)))
    } else {
        None
    }
}

/// The text of the bytes `start..end`.
pub fn text_between(bytes: &[u8], start: usize, end: usize) -> (r: Option<&str>)
    ensures
        match r {
            Some(text) => text_in(bytes@, start as int, end as int) == Some(text@),
            None => text_in(bytes@, start as int, end as int) is None,
        },
{
    if start <= end && end <= bytes.len() {
        let part: &[u8] = vstd::slice::slice_subrange(bytes, start, end);
        if let Ok(text) = core::str::from_utf8(part) {
            proof {
                encode_utf8_decode_utf8(text@);
            }
            return Some(text);
        }
    }
    None
}

/// `n` written in decimal, with a sign if it is negative.
pub open spec fn dec_int(n: int) -> Seq<char> {
    if n < 0 {
        seq!['-'] + dec((-n) as nat)
    } else {
        dec(n as nat)
    }
}

/// Appends `n` in decimal.
pub fn push_dec_int(out: &mut String, n: i64)
    ensures
        final(out)@ == old(out)@ + dec_int(n as int),
{
    if n < 0 {
        out.push('-');
        if n == i64::MIN {
            push_dec(out, 0x8000_0000_0000_0000);
        } else {
            push_dec(out, (-n) as u64);
        }
        assert(out@ =~= old(out)@ + dec_int(n as int));
    } else {
        push_dec(out, n as u64);
    }
}

/// `s` with zeros in front, so that it has at least `width` characters.
pub open spec fn zero_padded(s: Seq<char>, width: int) -> Seq<char> {
    if s.len() >= width {
        s
    } else {
        Seq::new((width - s.len()) as nat, |i: int| '0') + s
    }
}

/// Appends `n` in decimal with at least `width` digits.
pub fn push_padded(out: &mut String, n: u64, width: usize)
    ensures
        final(out)@ == old(out)@ + zero_padded(dec(n as nat), width as int),
{
    let mut digits: String = String::new();
    push_dec(&mut digits, n);
    assert(digits@ =~= dec(n as nat));
    let len: usize = digits.as_str().unicode_len();
    let mut have: usize = len;
    while have < width
        invariant
            len <= have,
            have <= width || have == len,
            out@ == old(out)@ + Seq::new((have - len) as nat, |i: int| '0'),
        decreases width - have,
    {
        out.push('0');
        have += 1;
        assert(out@ =~= old(out)@ + Seq::new((have - len) as nat, |i: int| '0'));
    }
    out.append(digits.as_str());
    assert(out@ =~= old(out)@ + zero_padded(dec(n as nat), width as int));
}

/// The last `width` decimal digits of `n`.
pub open spec fn digits(n: nat, width: nat) -> Seq<char>
    decreases width,
{
    if width == 0 {
        Seq::empty()
    } else {
        digits(n / 10, (width - 1) as nat).push(digit((n % 10) as int))
    }
}

/// The least number with more than `width` decimal digits.
pub open spec fn ten_to(width: nat) -> nat
    decreases width,
{
    if width == 0 {
        1
    } else {
        10 * ten_to((width - 1) as nat)
    }
}

/// Zero in decimal, as often as `width` says.
proof fn lemma_zeros(width: nat)
    ensures
        digits(0, width) == Seq::new(width, |i: int| '0'),
    decreases width,
{
    if width > 0 {
        lemma_zeros((width - 1) as nat);
        assert(digits(0, width) =~= Seq::new(width, |i: int| '0'));
    } else {
        assert(digits(0, width) =~= Seq::new(width, |i: int| '0'));
    }
}

/// A number that fits into some digits, with zeros in front, has just these
/// digits.
pub proof fn lemma_padded(n: nat, width: nat)
    requires
        width > 0,
        n < ten_to(width),
    ensures
        zero_padded(dec(n), width as int) == digits(n, width),
        digits(n, width).len() == width,
    decreases width,
{
    let less = (width - 1) as nat;
    lemma_dec_len(n);
    if n < 10 {
        assert(digits(n, width) == digits(0, less).push(digit(n as int)));
        lemma_zeros(less);
        assert(zero_padded(dec(n), width as int) =~= digits(n, width));
    } else {
        assert(ten_to(less) > 1) by {
            reveal_with_fuel(ten_to, 2);
        }
        lemma_padded(n / 10, less);
        assert(zero_padded(dec(n), width as int) =~= zero_padded(dec(n / 10), less as int).push(
            digit((n % 10) as int),
        ));
    }
}

/// `a` comes before `b` in the order of strings: at the first place where they
/// differ `a` has the smaller character, or it ends there.
pub open spec fn comes_before(a: Seq<char>, b: Seq<char>) -> bool {
    exists|k: int| #[trigger] parts_at(a, b, k)
}

/// `a` and `b` agree before place `k`, and there `a` has the smaller character or
/// ends.
pub open spec fn parts_at(a: Seq<char>, b: Seq<char>, k: int) -> bool {
    &&& 0 <= k < b.len()
    &&& k <= a.len()
    &&& a.take(k) == b.take(k)
    &&& k < a.len() ==> (a[k] as int) < (b[k] as int)
}

/// Whether `a` comes before `b` in the order of strings.
pub fn is_before(a: &str, b: &str) -> (r: bool)
    ensures
        r == comes_before(a@, b@),
{
    let x: Vec<char> = chars_of(a);
    let y: Vec<char> = chars_of(b);
    let mut k: usize = 0;
    while k < x.len() && k < y.len() && x[k] == y[k]
        invariant
            k <= x.len(),
            k <= y.len(),
            x@ == a@,
            y@ == b@,
            a@.take(k as int) == b@.take(k as int),
        decreases x.len() - k,
    {
        assert(a@.take(k + 1) =~= a@.take(k as int).push(a@[k as int]));
        assert(b@.take(k + 1) =~= b@.take(k as int).push(b@[k as int]));
        k += 1;
    }
    let r: bool = if k == y.len() {
        false
    } else if k == x.len() {
        true
    } else {
        let c: char = x[k];
        let d: char = y[k];
        c < d
    };
    proof {
        if r {
            assert(parts_at(a@, b@, k as int));
        } else if comes_before(a@, b@) {
            let j = choose|j: int| #[trigger] parts_at(a@, b@, j);
            lemma_same_start(a@, b@, j, k as int);
        }
    }
    r
}

/// Two texts part at one place only.
proof fn lemma_same_start(a: Seq<char>, b: Seq<char>, j: int, k: int)
    requires
        parts_at(a, b, j),
        0 <= k <= a.len(),
        k <= b.len(),
        a.take(k) == b.take(k),
        k < a.len() && k < b.len() ==> a[k] != b[k],
    ensures
        j == k,
{
    if j < k {
        assert(a.take(k)[j] == a[j]);
        assert(b.take(k)[j] == b[j]);
    } else if k < j {
        assert(a.take(j)[k] == a[k]);
        assert(b.take(j)[k] == b[k]);
    }
}

/// The order of strings is strict and total, and what comes before something
/// comes before what follows it.
pub proof fn lemma_string_order(a: Seq<char>, b: Seq<char>, c: Seq<char>)
    ensures
        !comes_before(a, a),
        comes_before(a, b) ==> !comes_before(b, a),
        comes_before(a, b) || comes_before(b, a) || a == b,
        comes_before(a, b) && comes_before(b, c) ==> comes_before(a, c),
{
    assert forall|k: int| !#[trigger] parts_at(a, a, k) by {}
    if comes_before(a, b) && comes_before(b, a) {
        let j = choose|j: int| #[trigger] parts_at(a, b, j);
        let k = choose|k: int| #[trigger] parts_at(b, a, k);
        if j < k {
            assert(b.take(k)[j] == a.take(k)[j]);
        } else if k < j {
            assert(a.take(j)[k] == b.take(j)[k]);
        }
    }
    assert(a.take(0) =~= b.take(0));
    lemma_order_total(a, b, 0);
    if comes_before(a, b) && comes_before(b, c) {
        let j = choose|j: int| #[trigger] parts_at(a, b, j);
        let k = choose|k: int| #[trigger] parts_at(b, c, k);
        let m = if j < k {
            j
        } else {
            k
        };
        assert(a.take(m) =~= a.take(j).take(m));
        assert(b.take(m) =~= b.take(j).take(m));
        assert(b.take(m) =~= b.take(k).take(m));
        assert(c.take(m) =~= c.take(k).take(m));
        if j < k {
            assert(b.take(k)[j] == c.take(k)[j]);
        } else if k < j {
            assert(a.take(j)[k] == b.take(j)[k]);
        }
        assert(parts_at(a, c, m));
    }
}

/// Two texts are equal, or one comes before the other.
proof fn lemma_order_total(a: Seq<char>, b: Seq<char>, k: int)
    requires
        0 <= k <= a.len(),
        k <= b.len(),
        a.take(k) == b.take(k),
    ensures
        comes_before(a, b) || comes_before(b, a) || a == b,
    decreases a.len() - k,
{
    if k == a.len() && k == b.len() {
        assert(a.take(k) =~= a);
        assert(b.take(k) =~= b);
    } else if k == a.len() {
        assert(parts_at(a, b, k));
    } else if k == b.len() {
        assert(parts_at(b, a, k));
    } else if a[k] == b[k] {
        assert(a.take(k + 1) =~= a.take(k).push(a[k]));
        assert(b.take(k + 1) =~= b.take(k).push(b[k]));
        lemma_order_total(a, b, k + 1);
    } else if (a[k] as int) < (b[k] as int) {
        assert(parts_at(a, b, k));
    } else {
        assert(parts_at(b, a, k));
    }
}

/// The digits of a smaller number come before those of a larger one.
pub proof fn lemma_digits_order(a: nat, b: nat, width: nat) -> (k: int)
    requires
        a < b < ten_to(width),
    ensures
        digits(a, width).len() == width,
        digits(b, width).len() == width,
        k < width,
        parts_at(digits(a, width), digits(b, width), k),
    decreases width,
{
    let less = (width - 1) as nat;
    let x = digits(a, width);
    let y = digits(b, width);
    if a / 10 < b / 10 {
        let k = lemma_digits_order(a / 10, b / 10, less);
        let p = digits(a / 10, less);
        let q = digits(b / 10, less);
        assert(x.take(k) =~= p.take(k));
        assert(y.take(k) =~= q.take(k));
        k
    } else {
        assert(a / 10 == b / 10 && a % 10 < b % 10);
        lemma_digits_len(a / 10, less);
        assert(x.take(less as int) =~= digits(a / 10, less));
        assert(y.take(less as int) =~= digits(b / 10, less));
        less as int
    }
}

/// There are as many digits as asked for.
proof fn lemma_digits_len(n: nat, width: nat)
    ensures
        digits(n, width).len() == width,
    decreases width,
{
    if width > 0 {
        lemma_digits_len(n / 10, (width - 1) as nat);
    }
}

/// The hexadecimal digit for `0 <= d < 16`, in small letters.
pub open spec fn hex_digit(d: int) -> char {
    if d < 10 {
        (48 + d) as char
    } else {
        (87 + d) as char
    }
}

/// The last `width` hexadecimal digits of `n`.
pub open spec fn hex(n: nat, width: nat) -> Seq<char>
    decreases width,
{
    if width == 0 {
        Seq::empty()
    } else {
        hex(n / 16, (width - 1) as nat).push(hex_digit((n % 16) as int))
    }
}

/// Appends the last `width` hexadecimal digits of `n`.
pub fn push_hex(out: &mut String, n: u64, width: usize)
    ensures
        final(out)@ == old(out)@ + hex(n as nat, width as nat),
    decreases width,
{
    if width > 0 {
        push_hex(out, n / 16, width - 1);
        let d: u8 = (n % 16) as u8;
        if d < 10 {
            out.push((48u8 + d) as char);
        } else {
            out.push((87u8 + d) as char);
        }
    }
    assert(out@ =~= old(out)@ + hex(n as nat, width as nat));
}

/// `needle` stands somewhere in `s`.
pub open spec fn holds(s: Seq<char>, needle: Seq<char>) -> bool {
    exists|i: int| is_at(s, needle, i)
}

/// `needle` stands in `s` at `i`.
pub open spec fn is_at(s: Seq<char>, needle: Seq<char>, i: int) -> bool {
    0 <= i && i + needle.len() <= s.len() && s.subrange(i, i + needle.len()) == needle
}

/// Whether `needle` stands somewhere in `s`.
pub fn contains(s: &str, needle: &str) -> (r: bool)
    ensures
        r == holds(s@, needle@),
{
    let hay: Vec<char> = chars_of(s);
    let want: Vec<char> = chars_of(needle);
    let mut i: usize = 0;
    if want.len() > hay.len() {
        return false;
    }
    let last: usize = hay.len() - want.len();
    let mut more: bool = true;
    while more
        invariant
            hay@ == s@,
            want@ == needle@,
            last == hay.len() - want.len(),
            i <= last,
            more ==> forall|k: int| 0 <= k < i ==> !is_at(s@, needle@, k),
            !more ==> !holds(s@, needle@),
        decreases
                if more {
                    last - i + 1
                } else {
                    0
                },
    {
        let mut k: usize = 0;
        while k < want.len() && hay[i + k] == want[k]
            invariant
                k <= want.len(),
                i <= last,
                last == hay.len() - want.len(),
                forall|j: int| 0 <= j < k ==> hay@[i + j] == want@[j],
            decreases want.len() - k,
        {
            k += 1;
        }
        if k == want.len() {
            assert(s@.subrange(i as int, i + needle@.len()) =~= needle@);
            assert(is_at(s@, needle@, i as int));
            return true;
        }
        assert(!is_at(s@, needle@, i as int)) by {
            assert(hay@[i + k] != want@[k as int]);
            if is_at(s@, needle@, i as int) {
                assert(s@.subrange(i as int, i + needle@.len())[k as int] == needle@[k as int]);
            }
        }
        if i == last {
            more = false;
        } else {
            i += 1;
        }
    }
    false
}

/// A line that is written behind full lines, with a line feed or without one, is
/// read as one more line.
proof fn lemma_line_added(before: Seq<char>, line: Seq<char>)
    requires
        before.len() == 0 || before.last() == '\n',
        line.len() > 0,
        !line.drop_last().contains('\n'),
    ensures
        full_lines(before + line) == full_lines(before).push(line),
    decreases line.len(),
{
    let whole = before + line;
    assert(whole.drop_last() =~= before + line.drop_last());
    if line.len() == 1 {
        assert(before + line.drop_last() =~= before);
        assert(line =~= seq![line.last()]);
        if before.len() > 0 {
            assert(whole[whole.len() - 2] == before.last());
        }
    } else {
        let shorter = line.drop_last();
        assert(!shorter.drop_last().contains('\n')) by {
            if shorter.drop_last().contains('\n') {
                let k = choose|k: int|
                    0 <= k < shorter.drop_last().len() && shorter.drop_last()[k] == '\n';
                assert(shorter[k] == '\n');
            }
        }
        lemma_line_added(before, shorter);
        assert(shorter.contains(shorter.last()));
        assert(whole[whole.len() - 2] == shorter.last());
        assert(full_lines(before).push(shorter).drop_last() =~= full_lines(before));
        assert(shorter.push(line.last()) =~= line);
    }
}

/// The lines of a text are those that it was written from, each with its line
/// feed, and then what was written behind the last line feed, if anything was.
pub proof fn law_lines_are_read(list: Seq<Seq<char>>, tail: Seq<char>)
    requires
        forall|i: int| 0 <= i < list.len() ==> !(#[trigger] list[i]).contains('\n'),
        !tail.contains('\n'),
    ensures
        ({
            let raw = list.map_values(|l: Seq<char>| l.push('\n')).flatten() + tail;
            let read = full_lines(raw);
            &&& read.len() == list.len() + if tail.len() > 0 {
                1int
            } else {
                0int
            }
            &&& forall|i: int| 0 <= i < list.len() ==> #[trigger] read[i] == list[i].push('\n')
            &&& tail.len() > 0 ==> read[list.len() as int] == tail
        }),
{
    let ended = list.map_values(|l: Seq<char>| l.push('\n'));
    lemma_ended_lines(list);
    if tail.len() > 0 {
        assert(!tail.drop_last().contains('\n')) by {
            if tail.drop_last().contains('\n') {
                let k = choose|k: int| 0 <= k < tail.drop_last().len() && tail.drop_last()[k] == '\n';
                assert(tail[k] == '\n');
            }
        }
        lemma_line_added(ended.flatten(), tail);
    } else {
        assert(ended.flatten() + tail =~= ended.flatten());
    }
}

/// The lines of a text in which every line has its line feed.
proof fn lemma_ended_lines(list: Seq<Seq<char>>)
    requires
        forall|i: int| 0 <= i < list.len() ==> !(#[trigger] list[i]).contains('\n'),
    ensures
        ({
            let ended = list.map_values(|l: Seq<char>| l.push('\n'));
            &&& full_lines(ended.flatten()) == ended
            &&& ended.flatten().len() == 0 || ended.flatten().last() == '\n'
        }),
    decreases list.len(),
{
    let ended = list.map_values(|l: Seq<char>| l.push('\n'));
    if list.len() > 0 {
        let before = list.drop_last();
        lemma_ended_lines(before);
        let front = before.map_values(|l: Seq<char>| l.push('\n'));
        let line = list.last().push('\n');
        assert(ended =~= front.push(line));
        front.lemma_flatten_push(line);
        assert(line.drop_last() =~= list.last());
        lemma_line_added(front.flatten(), line);
    } else {
        assert(full_lines(ended.flatten()) =~= ended);
    }
}

/// A number in decimal is made of digits that stand for it, the first of which is
/// no zero unless it is the only one.
pub proof fn law_decimal(n: nat)
    ensures
        dec(n).fold_left(0int, |v: int, c: char| v * 10 + (c as int - 48)) == n,
        forall|i: int| 0 <= i < dec(n).len() ==> '0' <= #[trigger] dec(n)[i] <= '9',
        dec(n).len() > 0,
        dec(n).len() > 1 ==> dec(n)[0] != '0',
    decreases n,
{
    if n >= 10 {
        law_decimal(n / 10);
        assert(dec(n).drop_last() =~= dec(n / 10));
        assert(dec(n)[0] == dec(n / 10)[0]);
        if dec(n / 10).len() == 1 {
            assert(n / 10 < 10) by {
                if n / 10 >= 10 {
                    lemma_dec_len(n / 10 / 10);
                }
            }
            assert(dec(n / 10)[0] == digit((n / 10) as int));
        }
        assert forall|i: int| 0 <= i < dec(n).len() implies '0' <= #[trigger] dec(n)[i] <= '9' by {
            if i < dec(n / 10).len() {
                assert(dec(n)[i] == dec(n / 10)[i]);
            }
        }
    } else {
        let f = |v: int, c: char| v * 10 + (c as int - 48);
        assert(dec(n).drop_last() =~= Seq::empty());
        assert(Seq::<char>::empty().fold_left(0int, f) == 0);
    }
}

/// A negative number in decimal is its size behind a minus sign.
pub proof fn law_signed_decimal(n: int)
    ensures
        n >= 0 ==> dec_int(n) == dec(n as nat),
        n < 0 ==> dec_int(n) == seq!['-'] + dec((-n) as nat),
{
}

/// A number in hexadecimal is made of small digits, as many as asked for, of
/// which each stands for a sixteenth of the one before it.
pub proof fn law_hexadecimal(n: nat, width: nat)
    ensures
        hex(n, width).len() == width,
        width > 0 ==> hex(n, width).drop_last() == hex(n / 16, (width - 1) as nat),
        width > 0 ==> hex(n, width).last() == "0123456789abcdef"@[(n % 16) as int],
    decreases width,
{
    if width > 0 {
        law_hexadecimal(n / 16, (width - 1) as nat);
        assert(hex(n, width).drop_last() =~= hex(n / 16, (width - 1) as nat));
        reveal_strlit("0123456789abcdef");
        let d = n % 16;
        assert(d == 0 || d == 1 || d == 2 || d == 3 || d == 4 || d == 5 || d == 6 || d == 7 || d == 8
            || d == 9 || d == 10 || d == 11 || d == 12 || d == 13 || d == 14 || d == 15);
    }
}

/// A text holds another exactly where it is something, the other text, and
/// something more.
pub proof fn law_holds(s: Seq<char>, part: Seq<char>)
    ensures
        holds(s, part) <==> exists|a: Seq<char>, b: Seq<char>| s == #[trigger] (a + part + b),
{
    if holds(s, part) {
        let k = choose|k: int| #[trigger] is_at(s, part, k);
        assert(s =~= s.take(k) + part + s.skip(k + part.len()));
    }
    if exists|a: Seq<char>, b: Seq<char>| s == #[trigger] (a + part + b) {
        let (a, b) = choose|a: Seq<char>, b: Seq<char>| s == #[trigger] (a + part + b);
        assert(s.subrange(a.len() as int, (a.len() + part.len()) as int) =~= part);
        assert(is_at(s, part, a.len() as int));
    }
}

/// The letters `A` to `Z` have their small forms in `a` to `z`, in the same
/// order, and every other character stays.
pub proof fn law_small_letters(s: Seq<char>)
    ensures
        lower(s).len() == s.len(),
        forall|i: int|
            0 <= i < s.len() && 'A' <= s[i] <= 'Z' ==> (#[trigger] lower(s)[i]) as int - 'a' as int
                == s[i] as int - 'A' as int,
        forall|i: int|
            0 <= i < s.len() && !('A' <= s[i] <= 'Z') ==> #[trigger] lower(s)[i] == s[i],
{
}

/// White space is what Unicode counts as such.
pub proof fn law_white_space(c: char)
    ensures
        is_white(c) <==> c == ' ' || c == '\t' || c == '\n' || c == '\u{b}' || c == '\u{c}' || c == '\r'
            || c == '\u{85}' || c == '\u{a0}' || c == '\u{1680}' || '\u{2000}' <= c <= '\u{200a}' || c
            == '\u{2028}' || c == '\u{2029}' || c == '\u{202f}' || c == '\u{205f}' || c == '\u{3000}',
{
}

/// The pieces of a text hold no separator, and with separators between them they
/// are the text.
pub proof fn law_pieces_make_text(s: Seq<char>, c: char)
    ensures
        ({
            let pieces = split_on(s, c);
            &&& pieces.len() > 0
            &&& forall|i: int| 0 <= i < pieces.len() ==> !(#[trigger] pieces[i]).contains(c)
            &&& pieces[0] + pieces.skip(1).map_values(|p: Seq<char>| seq![c] + p).flatten() == s
        }),
    decreases s.len(),
{
    let pieces = split_on(s, c);
    let f = |p: Seq<char>| seq![c] + p;
    if s.len() == 0 {
        assert(pieces.skip(1).map_values(f) =~= Seq::empty());
        assert(pieces[0] + pieces.skip(1).map_values(f).flatten() =~= s);
    } else {
        law_pieces_make_text(s.drop_last(), c);
        let before = split_on(s.drop_last(), c);
        let rest = before.skip(1).map_values(f);
        if s.last() == c {
            assert(pieces.skip(1).map_values(f) =~= rest.push(f(Seq::empty())));
            rest.lemma_flatten_push(f(Seq::empty()));
            assert(before[0] + rest.flatten() == s.drop_last());
            assert(f(Seq::empty()) =~= seq![c]);
            assert(pieces[0] == before[0]);
            assert(s =~= s.drop_last().push(c));
            assert(pieces[0] + pieces.skip(1).map_values(f).flatten() =~= s);
        } else {
            let last = before.last().push(s.last());
            assert(!last.contains(c)) by {
                if last.contains(c) {
                    let k = choose|k: int| 0 <= k < last.len() && last[k] == c;
                    assert(before.last()[k] == c);
                    assert(before[before.len() - 1].contains(c));
                }
            }
            if before.len() == 1 {
                assert(rest =~= Seq::empty());
                assert(pieces.skip(1).map_values(f) =~= Seq::empty());
                assert(pieces[0] + pieces.skip(1).map_values(f).flatten() =~= s);
            } else {
                let front = rest.drop_last();
                assert(rest =~= front.push(f(before.last())));
                assert(pieces.skip(1).map_values(f) =~= front.push(f(last)));
                front.lemma_flatten_push(f(before.last()));
                front.lemma_flatten_push(f(last));
                assert(before[0] + rest.flatten() == s.drop_last());
                assert(f(last) =~= f(before.last()).push(s.last()));
                assert(pieces[0] == before[0]);
                assert(s =~= s.drop_last().push(s.last()));
                assert(pieces[0] + pieces.skip(1).map_values(f).flatten() =~= s);
            }
        }
    }
}

/// Padding puts zeros in front, and only as many as are needed.
pub proof fn law_padding(s: Seq<char>, width: int)
    ensures
        s.len() >= width ==> zero_padded(s, width) == s,
        s.len() < width ==> {
            let front = zero_padded(s, width).take(width - s.len());
            &&& zero_padded(s, width).len() == width
            &&& zero_padded(s, width) == front + s
            &&& forall|i: int| 0 <= i < front.len() ==> #[trigger] front[i] == '0'
        },
{
    if s.len() < width {
        assert(zero_padded(s, width) =~= zero_padded(s, width).take(width - s.len()) + s);
    }
}

/// A text comes before every longer one that begins with it, and of two texts
/// that part somewhere the one with the smaller character there comes first.
pub proof fn law_order_of_texts(s: Seq<char>, x: char, y: char, a: Seq<char>, b: Seq<char>)
    ensures
        comes_before(s, s + seq![x] + a),
        (x as int) < (y as int) ==> comes_before(s + seq![x] + a, s + seq![y] + b),
{
    let n = s.len() as int;
    let l = s + seq![x] + a;
    let r = s + seq![y] + b;
    assert(l.take(n) =~= s);
    assert(r.take(n) =~= s);
    assert(s.take(n) =~= s);
    assert(parts_at(s, l, n));
    if (x as int) < (y as int) {
        assert(parts_at(l, r, n));
    }
}

/// A text begins with another one where it is that one with something behind it.
pub proof fn law_beginnings(s: Seq<char>, p: Seq<char>)
    ensures
        begins_with(s, p) <==> exists|rest: Seq<char>| s == #[trigger] (p + rest),
{
    if begins_with(s, p) {
        assert(s =~= p + s.skip(p.len() as int));
    }
    if exists|rest: Seq<char>| s == #[trigger] (p + rest) {
        let rest = choose|rest: Seq<char>| s == #[trigger] (p + rest);
        assert(s.take(p.len() as int) =~= p);
    }
}

} // verus!
