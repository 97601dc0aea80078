//! Text, seen as a sequence of characters.
//!
//! The specification functions here say what the usual string operations
//! compute; the executable ones are proved against them. Unicode tables and
//! UTF-8 repair are the standard library's, and are stated without proof.
use vstd::prelude::*;
use vstd::utf8::{decode_utf8, is_ascii_chars, valid_utf8};

verus! {

// ---------------------------------------------------------------------------
// What the standard library supplies
// ---------------------------------------------------------------------------

/// `String::push`: the character is added at the end.
pub assume_specification[ String::push ](s: &mut String, c: char)
    ensures
        final(s)@ == old(s)@.push(c),
;

/// The lowercase form of `s`, as `str::to_lowercase` gives it.
pub uninterp spec fn lowercase(s: Seq<char>) -> Seq<char>;

/// Whether `c` has the Unicode property `White_Space`.
pub open spec fn white_space(c: char) -> bool {
    ||| '\t' <= c <= '\r'
    ||| c == ' '
    ||| c == '\u{85}'
    ||| c == '\u{a0}'
    ||| c == '\u{1680}'
    ||| '\u{2000}' <= c <= '\u{200a}'
    ||| c == '\u{2028}'
    ||| c == '\u{2029}'
    ||| c == '\u{202f}'
    ||| c == '\u{205f}'
    ||| c == '\u{3000}'
}

/// The text that `String::from_utf8_lossy` makes of `bytes`.
pub uninterp spec fn utf8_lossy(bytes: Seq<u8>) -> Seq<char>;

/// `c` with an ASCII capital made small.
pub open spec fn ascii_lower(c: char) -> char {
    if 'A' <= c <= 'Z' {
        (c as u32 + 32) as char
    } else {
        c
    }
}

/// `s` with its ASCII capitals made small.
pub open spec fn ascii_lowered(s: Seq<char>) -> Seq<char> {
    s.map_values(|c: char| ascii_lower(c))
}

/// Whether `dir` is ASCII text that ends in a slash, as the name of a directory
/// before a path does.
pub open spec fn is_directory(dir: Seq<char>) -> bool {
    is_ascii_chars(dir) && dir.len() > 0 && dir.last() == '/'
}

/// `str::to_lowercase`. On ASCII text it replaces the capitals and keeps the
/// rest; on other text it follows the Unicode tables, which are not restated. It
/// makes no difference whether ASCII letters are capitals. The form of a letter
/// depends on the word that it is in at most, so a directory before the text leaves
/// the lowercase form of the text as it is.
#[verifier::external_body]
pub(crate) fn to_lowercase(s: &str) -> (r: String)
    ensures
        r@ == lowercase(s@),
        is_ascii_chars(s@) ==> r@ == ascii_lowered(s@),
        r@ == lowercase(ascii_lowered(s@)),
        forall|dir: Seq<char>| #[trigger]
            is_directory(dir) ==> lowercase(dir + s@) == ascii_lowered(dir) + r@,
{
    s.to_lowercase()
}

/// `char::is_whitespace`: whether `c` has the Unicode property `White_Space`.
#[verifier::external_body]
fn is_whitespace(c: char) -> (r: bool)
    ensures
        r == white_space(c),
{
    c.is_whitespace()
}

/// `String::from_utf8_lossy`. Valid UTF-8 is decoded as it stands; how invalid
/// parts are replaced is not restated.
#[verifier::external_body]
pub(crate) fn from_utf8_lossy(bytes: &[u8]) -> (r: String)
    ensures
        r@ == utf8_lossy(bytes@),
        valid_utf8(bytes@) ==> r@ == decode_utf8(bytes@),
{
    String::from_utf8_lossy(bytes).into_owned()
}

/// `str::from_utf8`: the decoded text of valid UTF-8, and nothing otherwise.
#[verifier::external_body]
pub(crate) fn from_utf8(bytes: &[u8]) -> (r: Option<&str>)
    ensures
        r is Some <==> valid_utf8(bytes@),
        r matches Some(s) ==> s@ == decode_utf8(bytes@),
{
    match std::str::from_utf8(bytes) {
        Ok(s) => Some(s),
        Err(_) => None,
    }
}

// ---------------------------------------------------------------------------
// Characters and strings
// ---------------------------------------------------------------------------

/// The characters of `s`, in order.
pub fn to_chars(s: &str) -> (r: Vec<char>)
    ensures
        r@ == s@,
{
    let mut r: Vec<char> = Vec::new();
    for c in it: s.chars()
        invariant
            r@ == it.seq().take(it.index() as int),
            it.seq() == s@,
    {
        r.push(c);
    }
    r
}

/// The string made of the characters `from..to` of `chars`.
pub fn substring(chars: &Vec<char>, from: usize, to: usize) -> (r: String)
    requires
        from <= to <= chars@.len(),
    ensures
        r@ == chars@.subrange(from as int, to as int),
{
    let mut r: String = String::new();
    let mut i: usize = from;
    while i < to
        invariant
            from <= i <= to <= chars@.len(),
            r@ == chars@.subrange(from as int, i as int),
        decreases to - i,
    {
        r.push(chars[i]);
        i += 1;
    }
    r
}

/// A copy of `s`.
pub fn copy_str(s: &str) -> (r: String)
    ensures
        r@ == s@,
{
    let mut r: String = String::new();
    r.append(s);
    proof {
        assert(r@ =~= s@);
    }
    r
}

/// `a` followed by `b`.
pub fn concat2(a: &str, b: &str) -> (r: String)
    ensures
        r@ == a@ + b@,
{
    let mut r: String = copy_str(a);
    r.append(b);
    r
}

/// `a`, `b` and `c`, one after the other.
pub fn concat3(a: &str, b: &str, c: &str) -> (r: String)
    ensures
        r@ == a@ + b@ + c@,
{
    let mut r: String = concat2(a, b);
    r.append(c);
    r
}

/// `a`, `b`, `c` and `d`, one after the other.
pub fn concat4(a: &str, b: &str, c: &str, d: &str) -> (r: String)
    ensures
        r@ == a@ + b@ + c@ + d@,
{
    let mut r: String = concat3(a, b, c);
    r.append(d);
    r
}

/// Whether the two texts are the same.
pub fn same_text(a: &str, b: &str) -> (r: bool)
    ensures
        r == (a@ == b@),
{
    let x: Vec<char> = to_chars(a);
    let y: Vec<char> = to_chars(b);
    if x.len() != y.len() {
        return false;
    }
    let mut i: usize = 0;
    while i < x.len()
        invariant
            i <= x@.len() == y@.len(),
            x@ == a@,
            y@ == b@,
            forall|j: int| 0 <= j < i ==> x@[j] == y@[j],
        decreases x@.len() - i,
    {
        if x[i] != y[i] {
            proof {
                assert(a@[i as int] != b@[i as int]);
            }
            return false;
        }
        i += 1;
    }
    proof {
        assert(a@ =~= b@);
    }
    true
}

/// Whether `s` begins with `prefix`.
pub fn starts_with(s: &str, prefix: &str) -> (r: bool)
    ensures
        r == prefix@.is_prefix_of(s@),
{
    let x: Vec<char> = to_chars(s);
    let p: Vec<char> = to_chars(prefix);
    if p.len() > x.len() {
        return false;
    }
    let mut i: usize = 0;
    while i < p.len()
        invariant
            i <= p@.len() <= x@.len(),
            x@ == s@,
            p@ == prefix@,
            forall|j: int| 0 <= j < i ==> p@[j] == x@[j],
        decreases p@.len() - i,
    {
        if p[i] != x[i] {
            proof {
                assert(prefix@[i as int] != s@.subrange(0, prefix@.len() as int)[i as int]);
            }
            return false;
        }
        i += 1;
    }
    true
}

/// Whether `s` ends with `suffix`.
pub fn ends_with(s: &str, suffix: &str) -> (r: bool)
    ensures
        r == suffix@.is_suffix_of(s@),
{
    let x: Vec<char> = to_chars(s);
    let p: Vec<char> = to_chars(suffix);
    if p.len() > x.len() {
        return false;
    }
    let n: usize = x.len();
    let off: usize = n - p.len();
    let mut i: usize = 0;
    while i < p.len()
        invariant
            i <= p@.len() <= x@.len() == n,
            off == n - p@.len(),
            x@ == s@,
            p@ == suffix@,
            forall|j: int| 0 <= j < i ==> p@[j] == x@[off + j],
        decreases p@.len() - i,
    {
        if p[i] != x[off + i] {
            proof {
                assert(suffix@[i as int] != s@.subrange(off as int, s@.len() as int)[i as int]);
            }
            return false;
        }
        i += 1;
    }
    true
}

// ---------------------------------------------------------------------------
// Searching and splitting
// ---------------------------------------------------------------------------

/// The texts held by a list of strings.
pub open spec fn texts(v: Seq<String>) -> Seq<Seq<char>> {
    v.map_values(|s: String| s@)
}

/// The position of the first `c` in `s`, or the length of `s` where there is
/// none.
pub open spec fn find<T>(s: Seq<T>, c: T) -> int
    decreases s.len(),
{
    if s.len() == 0 || s[0] == c {
        0
    } else {
        1 + find(s.drop_first(), c)
    }
}

/// `find` stops at the first occurrence, and only there.
pub proof fn lemma_find<T>(s: Seq<T>, c: T)
    ensures
        0 <= find(s, c) <= s.len(),
        forall|j: int| 0 <= j < find(s, c) ==> s[j] != c,
        find(s, c) < s.len() ==> s[find(s, c)] == c,
    decreases s.len(),
{
    if s.len() > 0 && s[0] != c {
        lemma_find(s.drop_first(), c);
        assert forall|j: int| 0 <= j < find(s, c) implies s[j] != c by {
            if j > 0 {
                assert(s.drop_first()[j - 1] != c);
            }
        }
    }
}

/// A position before which `c` does not occur, and at which it does or `s` ends,
/// is what `find` gives.
pub proof fn lemma_find_at<T>(s: Seq<T>, c: T, k: int)
    requires
        0 <= k <= s.len(),
        forall|j: int| 0 <= j < k ==> s[j] != c,
        k < s.len() ==> s[k] == c,
    ensures
        find(s, c) == k,
    decreases s.len(),
{
    if k > 0 {
        assert forall|j: int| 0 <= j < k - 1 implies s.drop_first()[j] != c by {
            assert(s[j + 1] != c);
        }
        lemma_find_at(s.drop_first(), c, k - 1);
    }
}

/// The position of the first `c` among the characters `from..to`, or `to` where
/// there is none.
pub fn find_in(chars: &Vec<char>, c: char, from: usize, to: usize) -> (r: usize)
    requires
        from <= to <= chars@.len(),
    ensures
        from <= r <= to,
        r == from + find(chars@.subrange(from as int, to as int), c),
{
    let ghost s = chars@.subrange(from as int, to as int);
    let mut i: usize = from;
    while i < to && chars[i] != c
        invariant
            from <= i <= to <= chars@.len(),
            s == chars@.subrange(from as int, to as int),
            forall|j: int| 0 <= j < i - from ==> s[j] != c,
        decreases to - i,
    {
        i += 1;
    }
    proof {
        lemma_find_at(s, c, i - from);
    }
    i
}

/// The pieces of `s` between the occurrences of `c`.
pub open spec fn split(s: Seq<char>, c: char) -> Seq<Seq<char>>
    decreases s.len(),
{
    let k = find(s, c);
    if 0 <= k < s.len() {
        seq![s.take(k)] + split(s.skip(k + 1), c)
    } else {
        seq![s]
    }
}

/// The pieces of `s` between the occurrences of `c`.
pub fn split_text(s: &str, c: char) -> (r: Vec<String>)
    ensures
        texts(r@) == split(s@, c),
{
    let chars: Vec<char> = to_chars(s);
    let n: usize = chars.len();
    let mut r: Vec<String> = Vec::new();
    let mut from: usize = 0;
    proof {
        assert(s@.skip(0) =~= s@);
        assert(texts(r@) + split(s@, c) =~= split(s@, c));
    }
    loop
        invariant
            n == chars@.len(),
            chars@ == s@,
            from <= n,
            texts(r@) + split(s@.skip(from as int), c) == split(s@, c),
        decreases n - from,
    {
        let ghost rest = s@.skip(from as int);
        let k: usize = find_in(&chars, c, from, n);
        proof {
            assert(chars@.subrange(from as int, n as int) =~= rest);
            lemma_find(rest, c);
        }
        let piece: String = substring(&chars, from, k);
        let ghost before = r@;
        r.push(piece);
        proof {
            assert(piece@ =~= rest.take(k - from));
            assert(texts(r@) =~= texts(before).push(piece@));
        }
        if k == n {
            proof {
                assert(piece@ =~= rest);
                assert(texts(r@) =~= texts(before) + split(rest, c));
            }
            return r;
        }
        proof {
            assert(rest.skip(k - from + 1) =~= s@.skip(k + 1));
            assert(texts(before) + (seq![piece@] + split(s@.skip(k + 1), c)) =~= texts(r@) + split(
                s@.skip(k + 1),
                c,
            ));
        }
        from = k + 1;
    }
}

/// `s` without a carriage return at its end.
pub open spec fn strip_cr<T>(s: Seq<T>, cr: T) -> Seq<T> {
    if s.len() > 0 && s.last() == cr {
        s.drop_last()
    } else {
        s
    }
}

/// The lines of `s`. A line ends at `nl`, which is not part of it, nor is a `cr`
/// directly before that; the last line may lack the terminator.
pub open spec fn lines<T>(s: Seq<T>, nl: T, cr: T) -> Seq<Seq<T>>
    decreases s.len(),
{
    let k = find(s, nl);
    if s.len() == 0 {
        Seq::empty()
    } else if 0 <= k < s.len() {
        seq![strip_cr(s.take(k), cr)] + lines(s.skip(k + 1), nl, cr)
    } else {
        seq![s]
    }
}

/// The part of `s` behind its last `c`; all of it where there is none.
pub open spec fn after_last(s: Seq<char>, c: char) -> Seq<char>
    decreases s.len(),
{
    if s.len() == 0 || s.last() == c {
        Seq::empty()
    } else {
        after_last(s.drop_last(), c).push(s.last())
    }
}

/// `after_last` is the suffix that begins behind the last `c`.
pub proof fn lemma_after_last_at(s: Seq<char>, c: char, k: int)
    requires
        0 <= k <= s.len(),
        forall|j: int| k <= j < s.len() ==> s[j] != c,
        k > 0 ==> s[k - 1] == c,
    ensures
        after_last(s, c) == s.skip(k),
    decreases s.len(),
{
    if k == s.len() {
        assert(s.skip(k) =~= Seq::empty());
    } else {
        lemma_after_last_at(s.drop_last(), c, k);
        assert(s.drop_last().skip(k).push(s.last()) =~= s.skip(k));
    }
}

/// The part of `s` behind its last `c`; all of it where there is none.
pub fn text_after_last(s: &str, c: char) -> (r: String)
    ensures
        r@ == after_last(s@, c),
{
    let chars: Vec<char> = to_chars(s);
    let n: usize = chars.len();
    let mut k: usize = n;
    while k > 0 && chars[k - 1] != c
        invariant
            k <= n == chars@.len(),
            forall|j: int| k <= j < n ==> chars@[j] != c,
        decreases k,
    {
        k -= 1;
    }
    proof {
        lemma_after_last_at(s@, c, k as int);
    }
    substring(&chars, k, n)
}

/// The lines of `text`, without their terminators.
pub fn text_lines(text: &str) -> (r: Vec<String>)
    ensures
        texts(r@) == lines(text@, '\n', '\r'),
{
    let chars: Vec<char> = to_chars(text);
    let n: usize = chars.len();
    let mut r: Vec<String> = Vec::new();
    let mut from: usize = 0;
    proof {
        assert(text@.skip(0) =~= text@);
        assert(texts(r@) + lines(text@, '\n', '\r') =~= lines(text@, '\n', '\r'));
    }
    while from < n
        invariant
            n == chars@.len(),
            chars@ == text@,
            from <= n,
            texts(r@) + lines(text@.skip(from as int), '\n', '\r') == lines(text@, '\n', '\r'),
        decreases n - from,
    {
        let ghost rest = text@.skip(from as int);
        let k: usize = find_in(&chars, '\n', from, n);
        proof {
            assert(chars@.subrange(from as int, n as int) =~= rest);
            lemma_find(rest, '\n');
        }
        let to: usize = if k < n && k > from && chars[k - 1] == '\r' {
            k - 1
        } else {
            k
        };
        let line: String = substring(&chars, from, to);
        let ghost before = r@;
        r.push(line);
        proof {
            assert(texts(r@) =~= texts(before).push(line@));
            if k < n {
                assert(rest.take(k - from).len() > 0 ==> rest.take(k - from).last() == chars@[k - 1]);
                assert(line@ =~= strip_cr(rest.take(k - from), '\r'));
                assert(rest.skip(k - from + 1) =~= text@.skip(k + 1));
                assert(texts(before) + (seq![line@] + lines(text@.skip(k + 1), '\n', '\r'))
                    =~= texts(r@) + lines(text@.skip(k + 1), '\n', '\r'));
            } else {
                assert(line@ =~= rest);
                assert(text@.skip(n as int) =~= Seq::empty());
                assert(texts(before) + seq![line@] =~= texts(r@) + lines(
                    text@.skip(n as int),
                    '\n',
                    '\r',
                ));
            }
        }
        from = if k < n {
            k + 1
        } else {
            n
        };
    }
    proof {
        assert(text@.skip(n as int) =~= Seq::empty());
        assert(texts(r@) + lines(text@.skip(n as int), '\n', '\r') =~= texts(r@));
    }
    r
}

/// `s` without the occurrences of `c`.
pub open spec fn without(s: Seq<char>, c: char) -> Seq<char> {
    s.filter(|x: char| x != c)
}

/// `s` without the occurrences of `c`.
pub fn text_without(s: &str, c: char) -> (r: String)
    ensures
        r@ == without(s@, c),
{
    let chars: Vec<char> = to_chars(s);
    let mut r: String = String::new();
    let mut i: usize = 0;
    proof {
        reveal(Seq::filter);
        assert(s@.take(0) =~= Seq::empty());
    }
    while i < chars.len()
        invariant
            i <= chars@.len(),
            chars@ == s@,
            r@ == without(s@.take(i as int), c),
        decreases chars@.len() - i,
    {
        proof {
            reveal(Seq::filter);
            assert(s@.take(i + 1).drop_last() =~= s@.take(i as int));
        }
        if chars[i] != c {
            r.push(chars[i]);
        }
        i += 1;
    }
    proof {
        assert(s@.take(i as int) =~= s@);
    }
    r
}

// ---------------------------------------------------------------------------
// White space
// ---------------------------------------------------------------------------

/// `s` without white space at its start.
pub open spec fn trim_start(s: Seq<char>) -> Seq<char>
    decreases s.len(),
{
    if s.len() > 0 && white_space(s[0]) {
        trim_start(s.drop_first())
    } else {
        s
    }
}

/// `s` without white space at its end.
pub open spec fn trim_end(s: Seq<char>) -> Seq<char>
    decreases s.len(),
{
    if s.len() > 0 && white_space(s.last()) {
        trim_end(s.drop_last())
    } else {
        s
    }
}

/// `s` without white space at either end.
pub open spec fn trim(s: Seq<char>) -> Seq<char> {
    trim_end(trim_start(s))
}

/// The characters of `s` up to the first white space.
pub open spec fn word(s: Seq<char>) -> Seq<char>
    decreases s.len(),
{
    if s.len() > 0 && !white_space(s[0]) {
        seq![s[0]] + word(s.drop_first())
    } else {
        Seq::empty()
    }
}

/// The second of the words that `s`, which begins with one, is made of; empty
/// where there is only one.
pub open spec fn second_word(s: Seq<char>) -> Seq<char> {
    word(trim_start(s.skip(word(s).len() as int)))
}

/// The number of characters from `from` on that are white space, if `blank`, or
/// that are not, otherwise; added to `from`.
fn run_end(chars: &Vec<char>, from: usize, blank: bool) -> (r: usize)
    requires
        from <= chars@.len(),
    ensures
        from <= r <= chars@.len(),
        blank ==> trim_start(chars@.skip(from as int)) == chars@.skip(r as int),
        !blank ==> word(chars@.skip(from as int)) == chars@.subrange(from as int, r as int),
{
    let mut i: usize = from;
    proof {
        assert(chars@.subrange(from as int, from as int) + word(chars@.skip(from as int)) =~= word(
            chars@.skip(from as int),
        ));
    }
    while i < chars.len() && is_whitespace(chars[i]) == blank
        invariant
            from <= i <= chars@.len(),
            blank ==> trim_start(chars@.skip(from as int)) == trim_start(chars@.skip(i as int)),
            !blank ==> word(chars@.skip(from as int)) == chars@.subrange(from as int, i as int)
                + word(chars@.skip(i as int)),
        decreases chars@.len() - i,
    {
        proof {
            let rest = chars@.skip(i as int);
            assert(rest.drop_first() =~= chars@.skip(i + 1));
            assert(chars@.subrange(from as int, i as int) + (seq![rest[0]] + word(chars@.skip(i + 1)))
                =~= chars@.subrange(from as int, i + 1) + word(chars@.skip(i + 1)));
        }
        i += 1;
    }
    proof {
        assert(chars@.subrange(from as int, i as int) + Seq::<char>::empty() =~= chars@.subrange(
            from as int,
            i as int,
        ));
    }
    i
}

/// `s` without white space at either end.
pub fn trim_text(s: &str) -> (r: String)
    ensures
        r@ == trim(s@),
{
    let chars: Vec<char> = to_chars(s);
    let from: usize = run_end(&chars, 0, true);
    let mut to: usize = chars.len();
    proof {
        assert(s@.skip(0) =~= s@);
        assert(chars@.subrange(from as int, to as int) =~= chars@.skip(from as int));
    }
    while to > from && is_whitespace(chars[to - 1])
        invariant
            from <= to <= chars@.len(),
            trim_end(chars@.subrange(from as int, to as int)) == trim(s@),
        decreases to,
    {
        proof {
            let t = chars@.subrange(from as int, to as int);
            assert(t.last() == chars@[to - 1]);
            assert(t.drop_last() =~= chars@.subrange(from as int, to - 1));
        }
        to -= 1;
    }
    proof {
        let t = chars@.subrange(from as int, to as int);
        assert(t.len() > 0 ==> t.last() == chars@[to - 1]);
    }
    substring(&chars, from, to)
}

/// The second word of `s`, which begins with one; empty where there is only one.
pub fn text_second_word(s: &str) -> (r: String)
    ensures
        r@ == second_word(s@),
{
    let chars: Vec<char> = to_chars(s);
    let first_end: usize = run_end(&chars, 0, false);
    let from: usize = run_end(&chars, first_end, true);
    let to: usize = run_end(&chars, from, false);
    proof {
        assert(s@.skip(0) =~= s@);
        assert(word(s@).len() == first_end);
    }
    substring(&chars, from, to)
}

// ---------------------------------------------------------------------------
// ASCII case, numbers, padding
// ---------------------------------------------------------------------------

/// `c` with an ASCII capital made small.
fn char_lower(c: char) -> (r: char)
    ensures
        r == ascii_lower(c),
{
    if 'A' <= c && c <= 'Z' {
        (c as u8 + 32) as char
    } else {
        c
    }
}

/// Whether the two texts differ at most in the case of ASCII letters.
pub fn same_ignoring_case(a: &str, b: &str) -> (r: bool)
    ensures
        r == (ascii_lowered(a@) == ascii_lowered(b@)),
{
    let x: Vec<char> = to_chars(a);
    let y: Vec<char> = to_chars(b);
    if x.len() != y.len() {
        proof {
            assert(ascii_lowered(a@).len() != ascii_lowered(b@).len());
        }
        return false;
    }
    let mut i: usize = 0;
    while i < x.len()
        invariant
            i <= x@.len() == y@.len(),
            x@ == a@,
            y@ == b@,
            forall|j: int| 0 <= j < i ==> ascii_lower(x@[j]) == ascii_lower(y@[j]),
        decreases x@.len() - i,
    {
        if char_lower(x[i]) != char_lower(y[i]) {
            proof {
                assert(ascii_lowered(a@)[i as int] != ascii_lowered(b@)[i as int]);
            }
            return false;
        }
        i += 1;
    }
    proof {
        assert(ascii_lowered(a@) =~= ascii_lowered(b@));
    }
    true
}

/// The decimal digit `d`.
pub open spec fn digit(d: nat) -> char {
    (48 + d) as char
}

/// `n` in decimal notation.
pub open spec fn decimal(n: nat) -> Seq<char>
    decreases n,
{
    if n < 10 {
        seq![digit(n)]
    } else {
        decimal(n / 10).push(digit(n % 10))
    }
}

/// `n` in decimal notation, with a leading zero where there is one digit only.
pub open spec fn two_digits(n: nat) -> Seq<char> {
    if n < 10 {
        seq!['0', digit(n)]
    } else {
        decimal(n)
    }
}

/// `n` in decimal notation.
pub fn decimal_text(n: u128) -> (r: String)
    ensures
        r@ == decimal(n as nat),
    decreases n,
{
    let mut r: String = if n < 10 {
        String::new()
    } else {
        decimal_text(n / 10)
    };
    let ghost head = r@;
    let d: u8 = (n % 10) as u8;
    r.push((48u8 + d) as char);
    proof {
        if n < 10 {
            assert(r@ =~= seq![digit(n as nat)]);
        }
    }
    r
}

/// `n` in decimal notation, with a leading zero where there is one digit only.
pub fn two_digit_text(n: u64) -> (r: String)
    ensures
        r@ == two_digits(n as nat),
{
    if n < 10 {
        let mut r: String = String::new();
        r.push('0');
        r.push((48u8 + n as u8) as char);
        proof {
            assert(r@ =~= two_digits(n as nat));
        }
        r
    } else {
        decimal_text(n as u128)
    }
}

/// `s`, filled up with spaces to a length of `width`.
pub open spec fn padded(s: Seq<char>, width: nat) -> Seq<char> {
    if s.len() < width {
        s + Seq::new((width - s.len()) as nat, |i: int| ' ')
    } else {
        s
    }
}

/// `s`, filled up with spaces to a length of `width`.
pub fn pad_text(s: &str, width: usize) -> (r: String)
    ensures
        r@ == padded(s@, width as nat),
{
    let n: usize = s.unicode_len();
    let mut r: String = copy_str(s);
    let mut i: usize = n;
    proof {
        assert(r@ =~= s@ + Seq::new(0, |j: int| ' '));
    }
    while i < width
        invariant
            n == s@.len(),
            n <= i,
            n < width ==> i <= width,
            n >= width ==> i == n,
            r@ == s@ + Seq::new((i - n) as nat, |j: int| ' '),
        decreases width - i,
    {
        r.push(' ');
        i += 1;
        proof {
            assert(r@ =~= s@ + Seq::new((i - n) as nat, |j: int| ' '));
        }
    }
    proof {
        if n >= width {
            assert(r@ =~= s@);
        }
    }
    r
}

} // verus!
