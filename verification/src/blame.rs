//! Who last changed a line: what `git blame --porcelain` says of it, and a
//! cache of the answers.
use crate::dates::{format_unix_date, is_date_of};
use crate::paths::{same_path, same_way};
use crate::text::{
    begins_with, chars_of, dec, dec_int, full_lines, is_white, is_white_exec, law_lines_are_read,
    lines_with_ends, starts, string_models,
};
use vstd::prelude::*;
use vstd::string::*;

verus! {

/// How long one `git blame` may take, in milliseconds.
pub const BLAME_TIMEOUT: u64 = 500;

/// What the header of an occurrence shows of the last change.
#[derive(Debug, PartialEq, Eq)]
pub struct BlameInfo {
    /// The author, or `?`.
    pub author: String,
    /// The first eight digits of the commit's hash.
    pub short_sha: String,
    /// The day of the commit in UTC, or `?`.
    pub date: String,
    /// The first line of the commit's message.
    pub summary: String,
}

/// What a [`BlameInfo`] holds.
pub struct BlameModel {
    pub author: Seq<char>,
    pub short_sha: Seq<char>,
    pub date: Seq<char>,
    pub summary: Seq<char>,
}

impl View for BlameInfo {
    type V = BlameModel;

    open spec fn view(&self) -> BlameModel {
        BlameModel {
            author: self.author@,
            short_sha: self.short_sha@,
            date: self.date@,
            summary: self.summary@,
        }
    }
}

impl Clone for BlameInfo {
    fn clone(&self) -> (r: Self)
        ensures
            r@ == self@,
    {
        BlameInfo {
            author: self.author.clone(),
            short_sha: self.short_sha.clone(),
            date: self.date.clone(),
            summary: self.summary.clone(),
        }
    }
}

impl BlameInfo {
    /// Author, hash and day, with dots between them.
    pub fn overlay_text(&self) -> (r: String)
        ensures
            r@ == self.author@ + " · "@ + self.short_sha@ + " · "@ + self.date@,
    {
        let mut out: String = self.author.clone();
        out.append(" · ");
        out.append(self.short_sha.as_str());
        out.append(" · ");
        out.append(self.date.as_str());
        out
    }
}

/// A line without what ends it: a line feed, or a carriage return and a line
/// feed.
pub open spec fn bare(line: Seq<char>) -> Seq<char> {
    if line.len() > 0 && line.last() == '\n' {
        let l = line.drop_last();
        if l.len() > 0 && l.last() == '\r' {
            l.drop_last()
        } else {
            l
        }
    } else {
        line
    }
}

/// The lines of a text without what ends them.
pub open spec fn lines(s: Seq<char>) -> Seq<Seq<char>> {
    Seq::new(full_lines(s).len(), |i: int| bare(full_lines(s)[i]))
}

/// `s` without the white space at its front.
pub open spec fn trim_front(s: Seq<char>) -> Seq<char>
    decreases s.len(),
{
    if s.len() > 0 && is_white(s[0]) {
        trim_front(s.drop_first())
    } else {
        s
    }
}

/// `s` without the white space at its end.
pub open spec fn trim_back(s: Seq<char>) -> Seq<char>
    decreases s.len(),
{
    if s.len() > 0 && is_white(s.last()) {
        trim_back(s.drop_last())
    } else {
        s
    }
}

/// `s` without the white space at both ends.
pub open spec fn trimmed(s: Seq<char>) -> Seq<char> {
    trim_back(trim_front(s))
}

/// The part of `s` before its first white space.
pub open spec fn first_word(s: Seq<char>) -> Seq<char>
    decreases s.len(),
{
    if s.len() == 0 || is_white(s[0]) {
        Seq::empty()
    } else {
        seq![s[0]] + first_word(s.drop_first())
    }
}

/// A hexadecimal digit.
pub open spec fn is_hex(c: char) -> bool {
    ('0' <= c && c <= '9') || ('a' <= c && c <= 'f') || ('A' <= c && c <= 'F')
}

/// A word that can be the hash of a commit: eight or more hexadecimal digits.
pub open spec fn is_sha(word: Seq<char>) -> bool {
    word.len() >= 8 && forall|i: int| 0 <= i < word.len() ==> is_hex(#[trigger] word[i])
}

/// The hash that a porcelain block begins with.
pub open spec fn header_sha(raw: Seq<char>) -> Option<Seq<char>> {
    if lines(raw).len() == 0 {
        None
    } else {
        let word = first_word(trimmed(lines(raw)[0]));
        if is_sha(word) {
            Some(word)
        } else {
            None
        }
    }
}

/// The rest of the last line, among the lines from `from` on, that begins with
/// `key`. A line that begins with a tab holds code and ends the search.
pub open spec fn field(list: Seq<Seq<char>>, from: int, key: Seq<char>) -> Option<Seq<char>>
    decreases list.len() - from,
{
    if from < 0 || from >= list.len() || begins_with(list[from], seq!['\t']) {
        None
    } else {
        match field(list, from + 1, key) {
            Some(rest) => Some(rest),
            None => if begins_with(list[from], key) {
                Some(list[from].skip(key.len() as int))
            } else {
                None
            },
        }
    }
}

/// The number that decimal digits stand for.
pub open spec fn digits_value(s: Seq<char>) -> nat
    decreases s.len(),
{
    if s.len() == 0 {
        0
    } else {
        digits_value(s.drop_last()) * 10 + (s.last() as u32 - 48) as nat
    }
}

/// One or more decimal digits.
pub open spec fn are_digits(s: Seq<char>) -> bool {
    s.len() > 0 && forall|i: int| 0 <= i < s.len() ==> '0' <= #[trigger] s[i] && s[i] <= '9'
}

/// A number of 64 bits with an optional sign, in decimal.
pub open spec fn number_of(s: Seq<char>) -> Option<int> {
    let signed = s.len() > 0 && (s[0] == '-' || s[0] == '+');
    let digits = if signed {
        s.skip(1)
    } else {
        s
    };
    let n = if signed && s[0] == '-' {
        -(digits_value(digits) as int)
    } else {
        digits_value(digits) as int
    };
    if are_digits(digits) && i64::MIN <= n <= i64::MAX {
        Some(n)
    } else {
        None
    }
}

/// `info` is what a porcelain block says. Where a field comes twice the last
/// one holds; the date is that of the author's time, if that is a number.
pub open spec fn says(raw: Seq<char>, info: BlameModel) -> bool {
    let list = lines(raw);
    let time = match field(list, 1, "author-time "@) {
        Some(rest) => number_of(trimmed(rest)),
        None => None,
    };
    &&& header_sha(raw) is Some
    &&& info.short_sha == header_sha(raw)->0.take(8)
    &&& info.author == match field(list, 1, "author "@) {
        Some(rest) if rest.len() > 0 => rest,
        _ => "?"@,
    }
    &&& info.summary == match field(list, 1, "summary "@) {
        Some(rest) => rest,
        None => Seq::empty(),
    }
    &&& match time {
        Some(secs) => is_date_of(secs, info.date),
        None => info.date == "?"@,
    }
}

/// More digits make no smaller number.
proof fn lemma_digits_grow(s: Seq<char>, n: int)
    requires
        0 <= n <= s.len(),
    ensures
        digits_value(s.take(n)) <= digits_value(s),
    decreases s.len(),
{
    if n == s.len() {
        assert(s.take(n) =~= s);
    } else {
        lemma_digits_grow(s.drop_last(), n);
        assert(s.drop_last().take(n) =~= s.take(n));
    }
}

/// Reads a number of 64 bits with an optional sign.
pub fn parse_i64(s: &Vec<char>) -> (r: Option<i64>)
    ensures
        match r {
            Some(n) => number_of(s@) == Some(n as int),
            None => number_of(s@) is None,
        },
{
    if s.len() == 0 {
        return None;
    }
    let signed: bool = s[0] == '-' || s[0] == '+';
    let negative: bool = s[0] == '-';
    let from: usize = if signed {
        1
    } else {
        0
    };
    let ghost digits = if signed {
        s@.skip(1)
    } else {
        s@
    };
    if s.len() == from {
        return None;
    }
    let limit: u64 = if negative {
        0x8000_0000_0000_0000
    } else {
        0x7fff_ffff_ffff_ffff
    };
    let mut v: u64 = 0;
    let mut i: usize = from;
    assert(digits.take(0) =~= Seq::<char>::empty());
    while i < s.len()
        invariant
            from <= i <= s.len(),
            from <= 1,
            digits == s@.skip(from as int),
            v == digits_value(digits.take(i - from)),
            v <= limit <= 0x8000_0000_0000_0000,
            limit == if negative {
                0x8000_0000_0000_0000u64
            } else {
                0x7fff_ffff_ffff_ffffu64
            },
            negative == (s@[0] == '-'),
            signed == (s@[0] == '-' || s@[0] == '+'),
            from == if signed {
                1int
            } else {
                0int
            },
            forall|k: int| 0 <= k < i - from ==> '0' <= #[trigger] digits[k] && digits[k] <= '9',
        decreases s.len() - i,
    {
        let c: char = s[i];
        assert(digits[i - from] == c);
        if c < '0' || c > '9' {
            return None;
        }
        let d: u64 = (c as u32 - 48) as u64;
        proof {
            assert(digits.take(i - from + 1).drop_last() =~= digits.take(i - from));
            assert(digits.take(i - from + 1).last() == c);
            lemma_digits_grow(digits, i - from + 1);
            assert(digits_value(digits) >= v * 10 + d);
            assert(s@.skip(0) =~= s@);
        }
        if v > 0x0ccc_cccc_cccc_cccc {
            return None;
        }
        let next: u64 = v * 10 + d;
        if next > limit {
            return None;
        }
        v = next;
        i += 1;
    }
    assert(digits.take(i - from) =~= digits);
    if negative {
        if v == 0x8000_0000_0000_0000 {
            Some(i64::MIN)
        } else {
            Some(-(v as i64))
        }
    } else {
        Some(v as i64)
    }
}

/// Where the part of `s` without white space at its ends lies.
fn trim_bounds(s: &Vec<char>) -> (r: (usize, usize))
    ensures
        r.0 <= r.1 <= s.len(),
        trimmed(s@) == s@.subrange(r.0 as int, r.1 as int),
{
    let mut from: usize = 0;
    assert(s@.skip(0) =~= s@);
    while from < s.len() && is_white_exec(s[from])
        invariant
            from <= s.len(),
            trim_front(s@) == trim_front(s@.skip(from as int)),
        decreases s.len() - from,
    {
        assert(s@.skip(from as int).drop_first() =~= s@.skip(from + 1));
        from += 1;
    }
    let ghost front = s@.skip(from as int);
    assert(trim_front(s@) == front);
    let mut to: usize = s.len();
    assert(s@.subrange(from as int, to as int) =~= front);
    while to > from && is_white_exec(s[to - 1])
        invariant
            from <= to <= s.len(),
            trim_back(front) == trim_back(s@.subrange(from as int, to as int)),
        decreases to,
    {
        assert(s@.subrange(from as int, to as int).drop_last() =~= s@.subrange(
            from as int,
            to - 1,
        ));
        to -= 1;
    }
    (from, to)
}

/// The part of `s` without white space at its ends.
fn trim(s: &Vec<char>) -> (r: Vec<char>)
    ensures
        r@ == trimmed(s@),
{
    let (from, to): (usize, usize) = trim_bounds(s);
    let mut out: Vec<char> = Vec::new();
    let mut i: usize = from;
    while i < to
        invariant
            from <= i <= to <= s.len(),
            out@ == s@.subrange(from as int, i as int),
        decreases to - i,
    {
        out.push(s[i]);
        assert(out@ =~= s@.subrange(from as int, i + 1));
        i += 1;
    }
    out
}

/// The first word is what comes before the first white space.
proof fn lemma_first_word(s: Seq<char>, n: int)
    requires
        0 <= n <= s.len(),
        forall|k: int| 0 <= k < n ==> !is_white(#[trigger] s[k]),
        n < s.len() ==> is_white(s[n]),
    ensures
        first_word(s) == s.take(n),
    decreases s.len(),
{
    if s.len() > 0 && !is_white(s[0]) {
        let t = s.drop_first();
        assert forall|k: int| 0 <= k < n - 1 implies !is_white(#[trigger] t[k]) by {
            assert(t[k] == s[k + 1]);
        }
        lemma_first_word(t, n - 1);
        assert(s.take(n) =~= seq![s[0]] + t.take(n - 1));
    } else {
        assert(s.take(n) =~= Seq::empty());
    }
}

/// The characters of a line without what ends it.
fn bare_chars(line: &String) -> (r: Vec<char>)
    ensures
        r@ == bare(line@),
{
    let mut out: Vec<char> = chars_of(line.as_str());
    if out.len() > 0 && out[out.len() - 1] == '\n' {
        let _ = out.pop();
        assert(out@ =~= line@.drop_last());
        if out.len() > 0 && out[out.len() - 1] == '\r' {
            let _ = out.pop();
            assert(out@ =~= line@.drop_last().drop_last());
        }
    }
    out
}

/// The first eight digits of the hash that a line begins with.
fn short_sha_of(line: &Vec<char>) -> (r: Option<String>)
    ensures
        match r {
            Some(sha) => is_sha(first_word(trimmed(line@))) && sha@ == first_word(
                trimmed(line@),
            ).take(8),
            None => !is_sha(first_word(trimmed(line@))),
        },
{
    let t: Vec<char> = trim(line);
    let mut n: usize = 0;
    let mut sha: String = String::new();
    let mut hex: bool = true;
    while n < t.len() && !is_white_exec(t[n])
        invariant
            n <= t.len(),
            forall|k: int| 0 <= k < n ==> !is_white(#[trigger] t@[k]),
            hex == (forall|k: int| 0 <= k < n ==> is_hex(#[trigger] t@[k])),
            sha@ == t@.take(if n < 8 {
                n as int
            } else {
                8
            }),
        decreases t.len() - n,
    {
        let c: char = t[n];
        if !(('0' <= c && c <= '9') || ('a' <= c && c <= 'f') || ('A' <= c && c <= 'F')) {
            assert(!is_hex(t@[n as int]));
            hex = false;
        }
        if n < 8 {
            sha.push(c);
            assert(sha@ =~= t@.take(n + 1));
        }
        n += 1;
    }
    proof {
        lemma_first_word(t@, n as int);
    }
    let ghost word = first_word(trimmed(line@));
    if n >= 8 && hex {
        assert forall|i: int| 0 <= i < word.len() implies is_hex(#[trigger] word[i]) by {
            assert(word[i] == t@[i]);
        }
        assert(sha@ =~= word.take(8));
        Some(sha)
    } else {
        proof {
            if n >= 8 {
                let k = choose|k: int| 0 <= k < n && !is_hex(#[trigger] t@[k]);
                assert(word[k] == t@[k]);
            }
        }
        None
    }
}

/// `rest` is what follows `key` in a line that begins with it.
fn after_key(line: &Vec<char>, key: &str) -> (r: Option<String>)
    ensures
        match r {
            Some(rest) => begins_with(line@, key@) && rest@ == line@.skip(key@.len() as int),
            None => !begins_with(line@, key@),
        },
{
    if !starts(line, key) {
        return None;
    }
    let n: usize = key.unicode_len();
    let mut out: String = String::new();
    let mut i: usize = n;
    while i < line.len()
        invariant
            n <= i <= line.len(),
            out@ == line@.subrange(n as int, i as int),
        decreases line.len() - i,
    {
        out.push(line[i]);
        assert(out@ =~= line@.subrange(n as int, i + 1));
        i += 1;
    }
    assert(out@ =~= line@.skip(n as int));
    Some(out)
}

/// The search for a field, from the front: `best` is the rest of the last line
/// before `i` that begins with the key.
spec fn found(list: Seq<Seq<char>>, i: int, key: Seq<char>, best: Option<Seq<char>>) -> bool {
    field(list, 1, key) == match field(list, i, key) {
        Some(rest) => Some(rest),
        None => best,
    }
}

/// The rest of the last line of a block that begins with `key`.
fn last_field(list: &Vec<String>, key: &str) -> (r: Option<String>)
    ensures
        match r {
            Some(rest) => field(bare_lines(list@), 1, key@) == Some(rest@),
            None => field(bare_lines(list@), 1, key@) is None,
        },
{
    let ghost all = bare_lines(list@);
    let mut best: Option<String> = None;
    let ghost mut best_text: Option<Seq<char>> = None;
    let mut i: usize = 1;
    while i < list.len()
        invariant
            1 <= i,
            all == bare_lines(list@),
            found(all, i as int, key@, best_text),
            match best {
                Some(rest) => best_text == Some(rest@),
                None => best_text is None,
            },
        decreases list.len() - i,
    {
        let line: Vec<char> = bare_chars(&list[i]);
        assert(all[i as int] == line@);
        proof {
            reveal_strlit("\t");
            assert("\t"@ =~= seq!['\t']);
        }
        if starts(&line, "\t") {
            return best;
        }
        if let Some(rest) = after_key(&line, key) {
            proof {
                best_text = Some(rest@);
            }
            best = Some(rest);
        }
        i += 1;
    }
    best
}

/// Lines without what ends them.
pub open spec fn bare_lines(list: Seq<String>) -> Seq<Seq<char>> {
    Seq::new(list.len(), |i: int| bare(list[i]@))
}

/// Reads what `git blame --porcelain` prints for one line.
pub fn parse_porcelain(raw: &str) -> (r: Option<BlameInfo>)
    ensures
        match r {
            Some(info) => says(raw@, info@),
            None => header_sha(raw@) is None,
        },
{
    let list: Vec<String> = lines_with_ends(raw);
    proof {
        assert(string_models(list@).len() == list@.len());
        assert forall|i: int| 0 <= i < list@.len() implies #[trigger] bare_lines(list@)[i] == lines(
            raw@,
        )[i] by {
            assert(string_models(list@)[i] == list@[i]@);
        }
        assert(bare_lines(list@) =~= lines(raw@));
    }
    if list.len() == 0 {
        return None;
    }
    let header: Vec<char> = bare_chars(&list[0]);
    assert(bare_lines(list@)[0] == header@);
    match short_sha_of(&header) {
        Some(short_sha) => {
            let author: String = match last_field(&list, "author ") {
                Some(rest) => if rest.as_str().is_empty() {
                    "?".to_owned()
                } else {
                    rest
                },
                None => "?".to_owned(),
            };
            let date: String = match last_field(&list, "author-time ") {
                Some(rest) => {
                    let chars: Vec<char> = chars_of(rest.as_str());
                    let digits: Vec<char> = trim(&chars);
                    match parse_i64(&digits) {
                        Some(secs) => format_unix_date(secs),
                        None => "?".to_owned(),
                    }
                },
                None => "?".to_owned(),
            };
            let summary: String = match last_field(&list, "summary ") {
                Some(rest) => rest,
                None => String::new(),
            };
            Some(BlameInfo { author, short_sha, date, summary })
        },
        None => None,
    }
}

/// What an answer of `git blame` is stored under. A file that changed has
/// another time, so its old answers are not found.
#[derive(Debug, Clone)]
pub struct BlameCacheKey {
    /// The file.
    pub path: String,
    /// The line.
    pub start_line: u32,
    /// When the file was last changed, in nanoseconds since 1970, if that is
    /// known.
    pub mtime: Option<i128>,
}

impl BlameCacheKey {
    /// The key for a line of a file that was last changed at `mtime`.
    pub fn new(path: String, start_line: u32, mtime: Option<i128>) -> (r: Self)
        ensures
            r.path@ == path@,
            r.start_line == start_line,
            r.mtime == mtime,
    {
        BlameCacheKey { path, start_line, mtime }
    }

    /// Whether two keys stand for the same line of the same version of a file.
    pub fn same(&self, other: &BlameCacheKey) -> (r: bool)
        ensures
            r == same_key(*self, *other),
    {
        let times: bool = match (self.mtime, other.mtime) {
            (Some(a), Some(b)) => a == b,
            (None, None) => true,
            _ => false,
        };
        self.start_line == other.start_line && times && same_path(
            self.path.as_str(),
            other.path.as_str(),
        )
    }
}

/// Two keys stand for the same line of the same version of a file.
pub open spec fn same_key(a: BlameCacheKey, b: BlameCacheKey) -> bool {
    a.start_line == b.start_line && a.mtime == b.mtime && same_way(a.path@, b.path@)
}

/// The answer to a blame: what is known of the line, or nothing.
pub type BlameResult = Result<Option<BlameInfo>, ()>;

/// What can say who last changed a line.
pub trait BlameProvider {
    /// Blames one line of a file below a folder.
    fn blame(&self, folder: &str, rel_path: &str, start_line: u32) -> BlameResult;
}

/// The answers so far.
#[derive(Debug, Clone)]
pub struct BlameCache {
    /// Keys and answers, in the order in which they came.
    pub entries: Vec<(BlameCacheKey, Option<BlameInfo>)>,
}

/// What an optional answer holds.
pub open spec fn opt_blame(info: Option<BlameInfo>) -> Option<BlameModel> {
    match info {
        Some(i) => Some(i@),
        None => None,
    }
}

/// The answer stored under a key, if there is one.
pub open spec fn stored(
    entries: Seq<(BlameCacheKey, Option<BlameInfo>)>,
    key: BlameCacheKey,
) -> Option<Option<BlameModel>>
    decreases entries.len(),
{
    if entries.len() == 0 {
        None
    } else {
        match stored(entries.drop_last(), key) {
            Some(value) => Some(value),
            None => if same_key(entries.last().0, key) {
                Some(opt_blame(entries.last().1))
            } else {
                None
            },
        }
    }
}

/// The value that an answer gives: an error counts as no answer.
pub open spec fn answered(result: BlameResult) -> Option<BlameModel> {
    match result {
        Ok(info) => opt_blame(info),
        Err(_) => None,
    }
}

/// A copy of an optional answer.
fn copy_blame(info: &Option<BlameInfo>) -> (r: Option<BlameInfo>)
    ensures
        opt_blame(r) == opt_blame(*info),
{
    match info {
        Some(i) => Some(i.clone()),
        None => None,
    }
}

impl BlameCache {
    /// A cache without answers.
    pub fn new() -> (r: Self)
        ensures
            r.entries@.len() == 0,
    {
        BlameCache { entries: Vec::new() }
    }

    /// The answer stored under a key, if there is one.
    pub fn lookup(&self, key: &BlameCacheKey) -> (r: Option<Option<BlameInfo>>)
        ensures
            match r {
                Some(value) => stored(self.entries@, *key) == Some(opt_blame(value)),
                None => stored(self.entries@, *key) is None,
            },
    {
        let mut i: usize = 0;
        let ghost all = self.entries@;
        while i < self.entries.len()
            invariant
                i <= self.entries.len(),
                all == self.entries@,
                stored(all.take(i as int), *key) is None,
            decreases self.entries.len() - i,
        {
            proof {
                assert(all.take(i + 1).drop_last() =~= all.take(i as int));
                assert(all.take(i + 1).last() == all[i as int]);
            }
            if self.entries[i].0.same(key) {
                proof {
                    lemma_stored_first(all, i + 1, *key);
                }
                return Some(copy_blame(&self.entries[i].1));
            }
            i += 1;
        }
        assert(all.take(i as int) =~= all);
        None
    }

    /// Stores an answer under a key that has none, and returns it.
    pub fn remember(&mut self, key: BlameCacheKey, result: BlameResult) -> (r: Option<BlameInfo>)
        requires
            stored(old(self).entries@, key) is None,
        ensures
            opt_blame(r) == answered(result),
            stored(final(self).entries@, key) == Some(answered(result)),
            forall|k: BlameCacheKey|
                !same_key(key, k) ==> #[trigger] stored(final(self).entries@, k) == stored(
                    old(self).entries@,
                    k,
                ),
            final(self).entries@.len() == old(self).entries@.len() + 1,
    {
        let value: Option<BlameInfo> = match result {
            Ok(info) => info,
            Err(_) => None,
        };
        let out: Option<BlameInfo> = copy_blame(&value);
        self.entries.push((key, value));
        assert(self.entries@.drop_last() =~= old(self).entries@);
        out
    }
}

/// An answer that is found among the first entries is the answer.
proof fn lemma_stored_first(
    entries: Seq<(BlameCacheKey, Option<BlameInfo>)>,
    n: int,
    key: BlameCacheKey,
)
    requires
        0 <= n <= entries.len(),
        stored(entries.take(n), key) is Some,
    ensures
        stored(entries, key) == stored(entries.take(n), key),
    decreases entries.len(),
{
    if n < entries.len() {
        assert(entries.drop_last().take(n) =~= entries.take(n));
        lemma_stored_first(entries.drop_last(), n, key);
    } else {
        assert(entries.take(n) =~= entries);
    }
}

/// The time that lies `secs` seconds after the start of 1970, as cache keys
/// count it.
pub fn system_time_from_secs(secs: u64) -> (r: i128)
    ensures
        r == secs * 1_000_000_000,
{
    secs as i128 * 1_000_000_000
}

/// The stored answer for a line, or else the answer of `provider`, which is
/// stored. That there is no answer is stored too, so it is asked for once.
pub fn fetch_with_cache<P: BlameProvider>(
    provider: &P,
    cache: &mut BlameCache,
    folder: &str,
    rel_path: &str,
    start_line: u32,
    abs_path: &str,
    mtime: Option<i128>,
) -> (r: Option<BlameInfo>)
    ensures
        forall|key: BlameCacheKey|
            key.path@ == abs_path@ && key.start_line == start_line && key.mtime == mtime ==> {
                let before = #[trigger] stored(old(cache).entries@, key);
                &&& stored(final(cache).entries@, key) == Some(opt_blame(r))
                &&& before is Some ==> {
                    &&& final(cache).entries@ == old(cache).entries@
                    &&& before == Some(opt_blame(r))
                }
                &&& before is None ==> {
                    &&& exists|result: BlameResult|
                        call_ensures(P::blame, (provider, folder, rel_path, start_line), result)
                            && opt_blame(r) == #[trigger] answered(result)
                    &&& forall|k: BlameCacheKey|
                        !same_key(key, k) ==> #[trigger] stored(final(cache).entries@, k) == stored(
                            old(cache).entries@,
                            k,
                        )
                }
            },
{
    let key: BlameCacheKey = BlameCacheKey::new(abs_path.to_owned(), start_line, mtime);
    proof {
        assert forall|k: BlameCacheKey|
            k.path@ == abs_path@ && k.start_line == start_line && k.mtime == mtime implies forall|
            entries: Seq<(BlameCacheKey, Option<BlameInfo>)>,
        | #[trigger] stored(entries, k) == stored(entries, key) by {
            assert forall|entries: Seq<(BlameCacheKey, Option<BlameInfo>)>| #[trigger]
                stored(entries, k) == stored(entries, key) by {
                lemma_same_key(entries, k, key);
            }
        }
    }
    if let Some(hit) = cache.lookup(&key) {
        return hit;
    }
    let result: BlameResult = provider.blame(folder, rel_path, start_line);
    let ghost came = result;
    let out: Option<BlameInfo> = cache.remember(key, result);
    assert(call_ensures(P::blame, (provider, folder, rel_path, start_line), came));
    assert(opt_blame(out) == answered(came));
    out
}

/// Keys that stand for the same line find the same answer.
proof fn lemma_same_key(
    entries: Seq<(BlameCacheKey, Option<BlameInfo>)>,
    a: BlameCacheKey,
    b: BlameCacheKey,
)
    requires
        same_key(a, b),
    ensures
        stored(entries, a) == stored(entries, b),
    decreases entries.len(),
{
    if entries.len() > 0 {
        lemma_same_key(entries.drop_last(), a, b);
    }
}

/// The lines of a block are those that it was written from, each with a line
/// feed.
pub proof fn law_block_lines(list: Seq<Seq<char>>)
    requires
        forall|i: int| 0 <= i < list.len() ==> !(#[trigger] list[i]).contains('\n'),
        forall|i: int|
            0 <= i < list.len() && (#[trigger] list[i]).len() > 0 ==> list[i].last() != '\r',
    ensures
        lines(list.map_values(|l: Seq<char>| l.push('\n')).flatten()) == list,
{
    let raw = list.map_values(|l: Seq<char>| l.push('\n')).flatten();
    law_lines_are_read(list, Seq::empty());
    assert(raw + Seq::<char>::empty() =~= raw);
    assert forall|i: int| 0 <= i < list.len() implies #[trigger] lines(raw)[i] == list[i] by {
        assert(full_lines(raw)[i] == list[i].push('\n'));
        assert(list[i].push('\n').drop_last() =~= list[i]);
    }
    assert(lines(raw) =~= list);
}

/// Trimming leaves what comes before white space at the end.
proof fn lemma_trim_back(s: Seq<char>, n: int) -> (m: int)
    requires
        0 < n <= s.len(),
        !is_white(s[n - 1]),
    ensures
        n <= m <= s.len(),
        trim_back(s) == s.take(m),
    decreases s.len(),
{
    if is_white(s.last()) {
        let m = lemma_trim_back(s.drop_last(), n);
        assert(s.drop_last().take(m) =~= s.take(m));
        m
    } else {
        assert(s.take(s.len() as int) =~= s);
        s.len() as int
    }
}

/// A block is of the commit whose hash its first line begins with, however long
/// the hash is and whatever follows it.
pub proof fn law_hash_is_read(list: Seq<Seq<char>>, sha: Seq<char>, more: Seq<char>)
    requires
        list.len() > 0,
        forall|i: int| 0 <= i < list.len() ==> !(#[trigger] list[i]).contains('\n'),
        forall|i: int|
            0 <= i < list.len() && (#[trigger] list[i]).len() > 0 ==> list[i].last() != '\r',
        list[0] == sha + seq![' '] + more,
        sha.len() >= 8,
        forall|i: int|
            0 <= i < sha.len() ==> '0' <= #[trigger] sha[i] <= '9' || 'a' <= sha[i] <= 'f' || 'A'
                <= sha[i] <= 'F',
    ensures
        header_sha(list.map_values(|l: Seq<char>| l.push('\n')).flatten()) == Some(sha),
{
    let raw = list.map_values(|l: Seq<char>| l.push('\n')).flatten();
    law_block_lines(list);
    let line = list[0];
    let n = sha.len() as int;
    assert(forall|i: int| 0 <= i < n ==> line[i] == sha[i]);
    assert(line[n] == ' ');
    assert(!is_white(line[0]));
    assert(trim_front(line) == line);
    assert(!is_white(line[n - 1]));
    let m = lemma_trim_back(line, n);
    let t = line.take(m);
    assert(trimmed(line) == t);
    assert forall|k: int| 0 <= k < n implies !is_white(#[trigger] t[k]) by {
        assert(t[k] == sha[k]);
    }
    lemma_first_word(t, n);
    assert(t.take(n) =~= sha);
    assert forall|i: int| 0 <= i < sha.len() implies is_hex(#[trigger] sha[i]) by {}
}

/// A first word that holds anything but hexadecimal digits, or fewer than eight
/// of them, is no hash, so that nothing is read from the block.
pub proof fn law_no_hash_no_blame(list: Seq<Seq<char>>, word: Seq<char>, more: Seq<char>)
    requires
        list.len() > 0,
        forall|i: int| 0 <= i < list.len() ==> !(#[trigger] list[i]).contains('\n'),
        forall|i: int|
            0 <= i < list.len() && (#[trigger] list[i]).len() > 0 ==> list[i].last() != '\r',
        list[0] == word + seq![' '] + more,
        word.len() > 0,
        forall|i: int| 0 <= i < word.len() ==> !is_white(#[trigger] word[i]),
        word.len() < 8 || exists|i: int|
            0 <= i < word.len() && !('0' <= #[trigger] word[i] <= '9' || 'a' <= word[i] <= 'f' || 'A'
                <= word[i] <= 'F'),
    ensures
        header_sha(list.map_values(|l: Seq<char>| l.push('\n')).flatten()) is None,
{
    law_block_lines(list);
    let line = list[0];
    let n = word.len() as int;
    assert(forall|i: int| 0 <= i < n ==> line[i] == word[i]);
    assert(trim_front(line) == line);
    let m = lemma_trim_back(line, n);
    let t = line.take(m);
    assert forall|k: int| 0 <= k < n implies !is_white(#[trigger] t[k]) by {
        assert(t[k] == word[k]);
    }
    if m > n {
        assert(t[n] == ' ');
    }
    lemma_first_word(t, n);
    assert(t.take(n) =~= word);
    if is_sha(word) {
        let i = choose|i: int|
            0 <= i < word.len() && !('0' <= #[trigger] word[i] <= '9' || 'a' <= word[i] <= 'f' || 'A'
                <= word[i] <= 'F');
        assert(is_hex(word[i]));
    }
}

/// The field of a line that no later line before the code has too.
proof fn lemma_field_at(
    list: Seq<Seq<char>>,
    from: int,
    p: int,
    end: int,
    key: Seq<char>,
    value: Seq<char>,
)
    requires
        0 <= from <= p < end <= list.len(),
        list[p] == key + value,
        forall|i: int|
            from <= i < end ==> !((#[trigger] list[i]).len() > 0 && list[i][0] == '\t'),
        end < list.len() ==> list[end].len() > 0 && list[end][0] == '\t',
        forall|i: int| p < i < end ==> !key.is_prefix_of(#[trigger] list[i]),
    ensures
        field(list, from, key) == Some(value),
    decreases end - from,
{
    assert(!begins_with(list[from], seq!['\t'])) by {
        if begins_with(list[from], seq!['\t']) {
            assert(list[from].take(1)[0] == '\t');
        }
    }
    if from < p {
        lemma_field_at(list, from + 1, p, end, key, value);
    } else {
        lemma_no_field(list, p + 1, end, key);
        assert(list[p].take(key.len() as int) =~= key);
        assert(list[p].skip(key.len() as int) =~= value);
    }
}

/// There is no field where no line before the code has it.
proof fn lemma_no_field(list: Seq<Seq<char>>, from: int, end: int, key: Seq<char>)
    requires
        0 <= from <= end <= list.len(),
        end < list.len() ==> list[end].len() > 0 && list[end][0] == '\t',
        forall|i: int| from <= i < end ==> !key.is_prefix_of(#[trigger] list[i]),
    ensures
        field(list, from, key) is None,
    decreases end - from,
{
    if from < list.len() {
        if from == end {
            assert(list[end].take(1) =~= seq!['\t']);
        } else {
            lemma_no_field(list, from + 1, end, key);
            if begins_with(list[from], key) {
                assert(key =~= list[from].subrange(0, key.len() as int));
            }
        }
    }
}

/// A block that says who the author is names that author, whatever else it says,
/// of the committer too. The block is made of the lines before `end`, where the
/// code begins with a tab, or the text ends.
pub proof fn law_author_is_read(
    list: Seq<Seq<char>>,
    p: int,
    end: int,
    name: Seq<char>,
    info: BlameModel,
)
    requires
        forall|i: int| 0 <= i < list.len() ==> !(#[trigger] list[i]).contains('\n'),
        forall|i: int|
            0 <= i < list.len() && (#[trigger] list[i]).len() > 0 ==> list[i].last() != '\r',
        1 <= p < end <= list.len(),
        list[p] == "author "@ + name,
        name.len() > 0,
        forall|i: int| 1 <= i < end ==> !((#[trigger] list[i]).len() > 0 && list[i][0] == '\t'),
        end < list.len() ==> list[end].len() > 0 && list[end][0] == '\t',
        forall|i: int| p < i < end ==> !"author "@.is_prefix_of(#[trigger] list[i]),
        says(list.map_values(|l: Seq<char>| l.push('\n')).flatten(), info),
    ensures
        info.author == name,
{
    law_block_lines(list);
    lemma_field_at(list, 1, p, end, "author "@, name);
}

/// A block that names no author has a question mark in its place.
pub proof fn law_no_author(list: Seq<Seq<char>>, end: int, info: BlameModel)
    requires
        forall|i: int| 0 <= i < list.len() ==> !(#[trigger] list[i]).contains('\n'),
        forall|i: int|
            0 <= i < list.len() && (#[trigger] list[i]).len() > 0 ==> list[i].last() != '\r',
        1 <= end <= list.len(),
        end < list.len() ==> list[end].len() > 0 && list[end][0] == '\t',
        forall|i: int| 1 <= i < end ==> !"author "@.is_prefix_of(#[trigger] list[i]),
        says(list.map_values(|l: Seq<char>| l.push('\n')).flatten(), info),
    ensures
        info.author == "?"@,
{
    law_block_lines(list);
    lemma_no_field(list, 1, end, "author "@);
}

/// A block that has a summary gives it as it stands.
pub proof fn law_summary_is_read(
    list: Seq<Seq<char>>,
    p: int,
    end: int,
    summary: Seq<char>,
    info: BlameModel,
)
    requires
        forall|i: int| 0 <= i < list.len() ==> !(#[trigger] list[i]).contains('\n'),
        forall|i: int|
            0 <= i < list.len() && (#[trigger] list[i]).len() > 0 ==> list[i].last() != '\r',
        1 <= p < end <= list.len(),
        list[p] == "summary "@ + summary,
        forall|i: int| 1 <= i < end ==> !((#[trigger] list[i]).len() > 0 && list[i][0] == '\t'),
        end < list.len() ==> list[end].len() > 0 && list[end][0] == '\t',
        forall|i: int| p < i < end ==> !"summary "@.is_prefix_of(#[trigger] list[i]),
        says(list.map_values(|l: Seq<char>| l.push('\n')).flatten(), info),
    ensures
        info.summary == summary,
{
    law_block_lines(list);
    lemma_field_at(list, 1, p, end, "summary "@, summary);
}

/// A number in decimal is read as that number.
pub proof fn law_numbers_are_read(n: int)
    requires
        i64::MIN <= n <= i64::MAX,
    ensures
        number_of(dec_int(n)) == Some(n),
{
    let digits = dec(if n < 0 {
        -n
    } else {
        n
    } as nat);
    lemma_dec_read(if n < 0 {
        -n
    } else {
        n
    } as nat);
    if n < 0 {
        assert(dec_int(n).skip(1) =~= digits);
    } else {
        assert(dec_int(n)[0] == digits[0]);
    }
}

/// The digits of a number stand for it.
proof fn lemma_dec_read(n: nat)
    ensures
        digits_value(dec(n)) == n,
        are_digits(dec(n)),
        forall|i: int| 0 <= i < dec(n).len() ==> !is_white(#[trigger] dec(n)[i]),
    decreases n,
{
    if n >= 10 {
        lemma_dec_read(n / 10);
        assert(dec(n).drop_last() =~= dec(n / 10));
        assert forall|i: int| 0 <= i < dec(n).len() implies '0' <= #[trigger] dec(n)[i] && dec(n)[i]
            <= '9' && !is_white(dec(n)[i]) by {
            if i < dec(n).len() - 1 {
                assert(dec(n)[i] == dec(n / 10)[i]);
            }
        }
    } else {
        assert(dec(n).drop_last() =~= Seq::empty());
        assert(digits_value(Seq::empty()) == 0);
    }
}

/// The date of a block is that of the author's time, not of the committer's.
pub proof fn law_date_is_read(
    list: Seq<Seq<char>>,
    p: int,
    end: int,
    secs: int,
    info: BlameModel,
)
    requires
        forall|i: int| 0 <= i < list.len() ==> !(#[trigger] list[i]).contains('\n'),
        forall|i: int|
            0 <= i < list.len() && (#[trigger] list[i]).len() > 0 ==> list[i].last() != '\r',
        1 <= p < end <= list.len(),
        i64::MIN <= secs <= i64::MAX,
        list[p] == "author-time "@ + dec_int(secs),
        forall|i: int| 1 <= i < end ==> !((#[trigger] list[i]).len() > 0 && list[i][0] == '\t'),
        end < list.len() ==> list[end].len() > 0 && list[end][0] == '\t',
        forall|i: int| p < i < end ==> !"author-time "@.is_prefix_of(#[trigger] list[i]),
        says(list.map_values(|l: Seq<char>| l.push('\n')).flatten(), info),
    ensures
        is_date_of(secs, info.date),
{
    law_block_lines(list);
    let s = dec_int(secs);
    lemma_field_at(list, 1, p, end, "author-time "@, s);
    law_numbers_are_read(secs);
    let size = if secs < 0 {
        -secs
    } else {
        secs
    } as nat;
    lemma_dec_read(size);
    assert(!is_white(s[0]));
    assert(!is_white(s.last())) by {
        assert(s.last() == dec(size).last());
        assert(dec(size)[dec(size).len() - 1] == dec(size).last());
    }
    assert(trimmed(s) == s);
}

/// The short hash is the first eight digits of the hash.
pub proof fn law_short_hash(raw: Seq<char>, info: BlameModel)
    requires
        says(raw, info),
    ensures
        header_sha(raw) is Some,
        info.short_sha.len() == 8,
        info.short_sha.is_prefix_of(header_sha(raw)->0),
{
    assert(header_sha(raw)->0.take(8) =~= header_sha(raw)->0.subrange(0, 8));
}

/// What was stored first under a key is what is found under it, and under every
/// key with the same line and time whose path leads the same way.
pub proof fn law_stored_is_found(
    entries: Seq<(BlameCacheKey, Option<BlameInfo>)>,
    key: BlameCacheKey,
    n: int,
)
    requires
        0 <= n < entries.len(),
        forall|k: int|
            0 <= k < n ==> !((#[trigger] entries[k]).0.start_line == key.start_line
                && entries[k].0.mtime == key.mtime && same_way(entries[k].0.path@, key.path@)),
        entries[n].0.start_line == key.start_line,
        entries[n].0.mtime == key.mtime,
        same_way(entries[n].0.path@, key.path@),
    ensures
        stored(entries, key) == Some(
            match entries[n].1 {
                Some(info) => Some(info@),
                None => None,
            },
        ),
    decreases entries.len(),
{
    let before = entries.drop_last();
    assert forall|k: int| 0 <= k < n && k < before.len() implies !((
    #[trigger] before[k]).0.start_line == key.start_line && before[k].0.mtime == key.mtime
        && same_way(before[k].0.path@, key.path@)) by {
        assert(before[k] == entries[k]);
    }
    if n == entries.len() - 1 {
        law_other_keys_are_not_found(before, key);
    } else {
        assert(before[n] == entries[n]);
        law_stored_is_found(before, key, n);
    }
}

/// Nothing is found under a key where all that was stored is for another line,
/// another time or another path.
pub proof fn law_other_keys_are_not_found(
    entries: Seq<(BlameCacheKey, Option<BlameInfo>)>,
    key: BlameCacheKey,
)
    requires
        forall|k: int|
            0 <= k < entries.len() ==> !((#[trigger] entries[k]).0.start_line == key.start_line
                && entries[k].0.mtime == key.mtime && same_way(entries[k].0.path@, key.path@)),
    ensures
        stored(entries, key) is None,
    decreases entries.len(),
{
    if entries.len() > 0 {
        let before = entries.drop_last();
        assert forall|k: int| 0 <= k < before.len() implies !((
        #[trigger] before[k]).0.start_line == key.start_line && before[k].0.mtime == key.mtime
            && same_way(before[k].0.path@, key.path@)) by {
            assert(before[k] == entries[k]);
        }
        law_other_keys_are_not_found(before, key);
        let last = entries[entries.len() - 1];
        assert(!same_key(last.0, key));
    }
}

/// An answer gives what it says, and a failure gives nothing.
pub proof fn law_answers(info: BlameInfo)
    ensures
        answered(Ok(Some(info))) == Some(info@),
        answered(Ok(None)) is None,
        answered(Err(())) is None,
{
}

/// Trimming takes off the white space at both ends, and nothing else.
pub proof fn law_trimming(before: Seq<char>, s: Seq<char>, after: Seq<char>)
    requires
        forall|i: int| 0 <= i < before.len() ==> is_white(#[trigger] before[i]),
        forall|i: int| 0 <= i < after.len() ==> is_white(#[trigger] after[i]),
        s.len() > 0 ==> !is_white(s[0]) && !is_white(s.last()),
    ensures
        trimmed(before + s + after) == s,
{
    lemma_trimmed_front(before, s + after);
    assert(before + s + after =~= before + (s + after));
    if s.len() > 0 {
        assert((s + after)[0] == s[0]);
        lemma_trimmed_back(s, after);
    } else {
        assert(s + after =~= after + Seq::empty());
        lemma_trimmed_front(after, Seq::empty());
        lemma_trimmed_front(before + after, Seq::empty());
        assert(before + after + Seq::<char>::empty() =~= before + (s + after));
        assert(s =~= Seq::empty());
    }
}

/// White space in front is taken off.
proof fn lemma_trimmed_front(before: Seq<char>, s: Seq<char>)
    requires
        forall|i: int| 0 <= i < before.len() ==> is_white(#[trigger] before[i]),
    ensures
        trim_front(before + s) == trim_front(s),
    decreases before.len(),
{
    if before.len() == 0 {
        assert(before + s =~= s);
    } else {
        let rest = before.drop_first();
        assert((before + s).drop_first() =~= rest + s);
        assert((before + s)[0] == before[0]);
        assert forall|i: int| 0 <= i < rest.len() implies is_white(#[trigger] rest[i]) by {
            assert(rest[i] == before[i + 1]);
        }
        lemma_trimmed_front(rest, s);
    }
}

/// White space at the end is taken off.
proof fn lemma_trimmed_back(s: Seq<char>, after: Seq<char>)
    requires
        forall|i: int| 0 <= i < after.len() ==> is_white(#[trigger] after[i]),
        s.len() > 0,
        !is_white(s.last()),
    ensures
        trim_back(s + after) == s,
    decreases after.len(),
{
    if after.len() == 0 {
        assert(s + after =~= s);
    } else {
        let rest = after.drop_last();
        assert((s + after).drop_last() =~= s + rest);
        assert((s + after).last() == after[after.len() - 1]);
        lemma_trimmed_back(s, rest);
    }
}

/// Only decimal digits, one or more of them, with a sign before them or without,
/// are read as a number, and only where the number has at most 64 bits.
pub proof fn law_other_texts_are_no_numbers(s: Seq<char>)
    requires
        number_of(s) is Some,
    ensures
        i64::MIN <= number_of(s)->0 <= i64::MAX,
        s.len() > 0,
        '0' <= s.last() <= '9',
        forall|i: int| 0 < i < s.len() ==> '0' <= #[trigger] s[i] <= '9',
        '0' <= s[0] <= '9' || s[0] == '-' || s[0] == '+',
{
    if s[0] == '-' || s[0] == '+' {
        assert forall|i: int| 0 < i < s.len() implies '0' <= #[trigger] s[i] <= '9' by {
            assert(s.skip(1)[i - 1] == s[i]);
        }
    }
}

/// A number of more than 64 bits is not read, and a plus sign makes no difference.
pub proof fn law_large_numbers_are_not_read(n: nat)
    ensures
        n > i64::MAX ==> number_of(dec(n)) is None,
        n <= i64::MAX ==> number_of(seq!['+'] + dec(n)) == Some(n as int),
{
    lemma_dec_read(n);
    let d = dec(n);
    assert('0' <= d[0] <= '9');
    assert((seq!['+'] + d).skip(1) =~= d);
}

/// A block without a summary gives an empty one.
pub proof fn law_no_summary(list: Seq<Seq<char>>, end: int, info: BlameModel)
    requires
        forall|i: int| 0 <= i < list.len() ==> !(#[trigger] list[i]).contains('\n'),
        forall|i: int|
            0 <= i < list.len() && (#[trigger] list[i]).len() > 0 ==> list[i].last() != '\r',
        1 <= end <= list.len(),
        end < list.len() ==> list[end].len() > 0 && list[end][0] == '\t',
        forall|i: int| 1 <= i < end ==> !"summary "@.is_prefix_of(#[trigger] list[i]),
        says(list.map_values(|l: Seq<char>| l.push('\n')).flatten(), info),
    ensures
        info.summary.len() == 0,
{
    law_block_lines(list);
    lemma_no_field(list, 1, end, "summary "@);
}

/// A block that says nothing of the author's time has a question mark in place of
/// the date.
pub proof fn law_no_date(list: Seq<Seq<char>>, end: int, info: BlameModel)
    requires
        forall|i: int| 0 <= i < list.len() ==> !(#[trigger] list[i]).contains('\n'),
        forall|i: int|
            0 <= i < list.len() && (#[trigger] list[i]).len() > 0 ==> list[i].last() != '\r',
        1 <= end <= list.len(),
        end < list.len() ==> list[end].len() > 0 && list[end][0] == '\t',
        forall|i: int| 1 <= i < end ==> !"author-time "@.is_prefix_of(#[trigger] list[i]),
        says(list.map_values(|l: Seq<char>| l.push('\n')).flatten(), info),
    ensures
        info.date == "?"@,
{
    law_block_lines(list);
    lemma_no_field(list, 1, end, "author-time "@);
}

/// A line ends with a line feed, which may have a carriage return before it, and
/// neither is part of what it says.
pub proof fn law_line_ends(line: Seq<char>)
    requires
        line.len() > 0 ==> line.last() != '\r' && line.last() != '\n',
    ensures
        bare(line) == line,
        bare(line.push('\n')) == line,
        bare(line.push('\r').push('\n')) == line,
{
    assert(line.push('\n').drop_last() =~= line);
    assert(line.push('\r').push('\n').drop_last() =~= line.push('\r'));
    assert(line.push('\r').drop_last() =~= line);
}

/// A digit stands for its number, and one more digit for ten times what stands
/// before it and itself, whatever the first digits are. A minus sign turns the
/// number round.
pub proof fn law_digits_are_read(s: Seq<char>, c: char)
    requires
        s.len() > 0,
        forall|i: int| 0 <= i < s.len() ==> '0' <= #[trigger] s[i] <= '9',
        '0' <= c <= '9',
    ensures
        number_of(seq![c]) == Some(c as int - '0' as int),
        number_of(s) is Some && number_of(s)->0 * 10 + (c as int - '0' as int) <= i64::MAX
            ==> number_of(s.push(c)) == Some(number_of(s)->0 * 10 + (c as int - '0' as int)),
        number_of(s) is Some && number_of(s)->0 * 10 + (c as int - '0' as int) > i64::MAX
            ==> number_of(s.push(c)) is None,
        number_of(s) is None ==> number_of(s.push(c)) is None,
        number_of(s) is Some ==> number_of(seq!['-'] + s) == Some(-number_of(s)->0),
{
    assert('0' <= s[0] <= '9');
    assert(are_digits(s));
    assert(s.push(c).drop_last() =~= s);
    assert(s.push(c)[0] == s[0]);
    assert(are_digits(s.push(c))) by {
        assert forall|i: int| 0 <= i < s.push(c).len() implies '0' <= #[trigger] s.push(c)[i]
            && s.push(c)[i] <= '9' by {
            if i < s.len() {
                assert(s.push(c)[i] == s[i]);
            }
        }
    }
    assert(seq![c].drop_last() =~= Seq::empty());
    assert(digits_value(seq![c].drop_last()) == 0);
    assert((seq!['-'] + s).skip(1) =~= s);
    assert((seq!['-'] + s)[0] == '-');
}

/// White space around the author's time makes no difference to the date.
pub proof fn law_padded_date_is_read(
    list: Seq<Seq<char>>,
    p: int,
    end: int,
    before: Seq<char>,
    secs: int,
    after: Seq<char>,
    info: BlameModel,
)
    requires
        forall|i: int| 0 <= i < list.len() ==> !(#[trigger] list[i]).contains('\n'),
        forall|i: int|
            0 <= i < list.len() && (#[trigger] list[i]).len() > 0 ==> list[i].last() != '\r',
        1 <= p < end <= list.len(),
        i64::MIN <= secs <= i64::MAX,
        list[p] == "author-time "@ + (before + dec_int(secs) + after),
        forall|i: int| 0 <= i < before.len() ==> is_white(#[trigger] before[i]),
        forall|i: int| 0 <= i < after.len() ==> is_white(#[trigger] after[i]),
        forall|i: int| 1 <= i < end ==> !((#[trigger] list[i]).len() > 0 && list[i][0] == '\t'),
        end < list.len() ==> list[end].len() > 0 && list[end][0] == '\t',
        forall|i: int| p < i < end ==> !"author-time "@.is_prefix_of(#[trigger] list[i]),
        says(list.map_values(|l: Seq<char>| l.push('\n')).flatten(), info),
    ensures
        is_date_of(secs, info.date),
{
    law_block_lines(list);
    let s = dec_int(secs);
    lemma_field_at(list, 1, p, end, "author-time "@, before + s + after);
    law_numbers_are_read(secs);
    let size = if secs < 0 {
        -secs
    } else {
        secs
    } as nat;
    lemma_dec_read(size);
    assert(!is_white(s[0]));
    assert(!is_white(s.last())) by {
        assert(s.last() == dec(size).last());
        assert(dec(size)[dec(size).len() - 1] == dec(size).last());
    }
    law_trimming(before, s, after);
}

/// An author's time that is no number gives a question mark in place of the date.
pub proof fn law_unread_date(
    list: Seq<Seq<char>>,
    p: int,
    end: int,
    text: Seq<char>,
    info: BlameModel,
)
    requires
        forall|i: int| 0 <= i < list.len() ==> !(#[trigger] list[i]).contains('\n'),
        forall|i: int|
            0 <= i < list.len() && (#[trigger] list[i]).len() > 0 ==> list[i].last() != '\r',
        1 <= p < end <= list.len(),
        list[p] == "author-time "@ + text,
        number_of(trimmed(text)) is None,
        forall|i: int| 1 <= i < end ==> !((#[trigger] list[i]).len() > 0 && list[i][0] == '\t'),
        end < list.len() ==> list[end].len() > 0 && list[end][0] == '\t',
        forall|i: int| p < i < end ==> !"author-time "@.is_prefix_of(#[trigger] list[i]),
        says(list.map_values(|l: Seq<char>| l.push('\n')).flatten(), info),
    ensures
        info.date == "?"@,
{
    law_block_lines(list);
    lemma_field_at(list, 1, p, end, "author-time "@, text);
}

/// An author without a name has a question mark in place of it.
pub proof fn law_nameless_author(list: Seq<Seq<char>>, p: int, end: int, info: BlameModel)
    requires
        forall|i: int| 0 <= i < list.len() ==> !(#[trigger] list[i]).contains('\n'),
        forall|i: int|
            0 <= i < list.len() && (#[trigger] list[i]).len() > 0 ==> list[i].last() != '\r',
        1 <= p < end <= list.len(),
        list[p] == "author "@,
        forall|i: int| 1 <= i < end ==> !((#[trigger] list[i]).len() > 0 && list[i][0] == '\t'),
        end < list.len() ==> list[end].len() > 0 && list[end][0] == '\t',
        forall|i: int| p < i < end ==> !"author "@.is_prefix_of(#[trigger] list[i]),
        says(list.map_values(|l: Seq<char>| l.push('\n')).flatten(), info),
    ensures
        info.author == "?"@,
{
    law_block_lines(list);
    assert("author "@ + Seq::<char>::empty() =~= "author "@);
    lemma_field_at(list, 1, p, end, "author "@, Seq::empty());
}

/// White space in front of the hash makes no difference, nor does it where
/// nothing follows the hash.
pub proof fn law_padded_hash_is_read(
    list: Seq<Seq<char>>,
    before: Seq<char>,
    sha: Seq<char>,
    more: Seq<char>,
)
    requires
        list.len() > 0,
        forall|i: int| 0 <= i < list.len() ==> !(#[trigger] list[i]).contains('\n'),
        forall|i: int|
            0 <= i < list.len() && (#[trigger] list[i]).len() > 0 ==> list[i].last() != '\r',
        list[0] == before + (sha + more),
        forall|i: int| 0 <= i < before.len() ==> is_white(#[trigger] before[i]),
        more.len() > 0 ==> is_white(more[0]),
        sha.len() >= 8,
        forall|i: int|
            0 <= i < sha.len() ==> '0' <= #[trigger] sha[i] <= '9' || 'a' <= sha[i] <= 'f' || 'A'
                <= sha[i] <= 'F',
    ensures
        header_sha(list.map_values(|l: Seq<char>| l.push('\n')).flatten()) == Some(sha),
{
    law_block_lines(list);
    let line = sha + more;
    let n = sha.len() as int;
    lemma_trimmed_front(before, line);
    assert(forall|i: int| 0 <= i < n ==> line[i] == sha[i]);
    assert(!is_white(line[0]));
    assert(trim_front(line) == line);
    assert(!is_white(line[n - 1]));
    let m = lemma_trim_back(line, n);
    let t = line.take(m);
    assert(trimmed(list[0]) == t);
    assert forall|k: int| 0 <= k < n implies !is_white(#[trigger] t[k]) by {
        assert(t[k] == sha[k]);
    }
    if m > n {
        assert(t[n] == more[0]);
    }
    lemma_first_word(t, n);
    assert(t.take(n) =~= sha);
    assert forall|i: int| 0 <= i < sha.len() implies is_hex(#[trigger] sha[i]) by {}
}

} // verus!
