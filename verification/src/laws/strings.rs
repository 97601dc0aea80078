//! Laws of the operations on text, and of the order of keys.
use crate::list::vanilla_set;
use crate::paths::{extension_dot, has_extension, install_path, is_extension_char, normalized};
use crate::paths::{slashed, unrooted};
use crate::table::{bytes_before, lemma_listed, lemma_map_of_at, listable, listing, precedes};
use crate::text::{after_last, ascii_lowered, decimal, find, lemma_after_last_at, lemma_find};
use crate::text::{lemma_find_at, lines, lowercase, padded, second_word, split, trim};
use crate::text::{trim_end, trim_start, two_digits, without, word};
use vstd::prelude::*;
use vstd::utf8::encode_utf8;

verus! {

// ---------------------------------------------------------------------------
// Splitting
// ---------------------------------------------------------------------------

/// The texts `parts`, with `c` between them.
pub open spec fn glued(parts: Seq<Seq<char>>, c: char) -> Seq<char>
    decreases parts.len(),
{
    if parts.len() == 0 {
        Seq::empty()
    } else if parts.len() == 1 {
        parts[0]
    } else {
        parts[0] + seq![c] + glued(parts.drop_first(), c)
    }
}

/// The pieces of a text make up the text again with the separator between them, and
/// none of them holds it.
pub proof fn law_pieces_make_up_the_text(s: Seq<char>, c: char)
    ensures
        split(s, c).len() > 0,
        glued(split(s, c), c) == s,
        forall|i: int| 0 <= i < split(s, c).len() ==> !(#[trigger] split(s, c)[i]).contains(c),
    decreases s.len(),
{
    lemma_find(s, c);
    let k = find(s, c);
    let all = split(s, c);
    if k < s.len() {
        let rest = s.skip(k + 1);
        law_pieces_make_up_the_text(rest, c);
        assert(all.drop_first() =~= split(rest, c));
        assert(all.len() >= 2);
        assert(s =~= s.take(k) + seq![c] + rest);
        assert forall|i: int| 0 <= i < all.len() implies !(#[trigger] all[i]).contains(c) by {
            if i > 0 {
                assert(all[i] == split(rest, c)[i - 1]);
            }
        }
    }
}

/// Of a line and what follows its line feed the line comes first, without a carriage
/// return at its end.
pub proof fn law_first_line_comes_first(line: Seq<char>, rest: Seq<char>)
    requires
        !line.contains('\n'),
    ensures
        lines(line + seq!['\n'] + rest, '\n', '\r') == seq![
            if line.len() > 0 && line[line.len() - 1] == '\r' {
                line.subrange(0, line.len() - 1)
            } else {
                line
            },
        ] + lines(rest, '\n', '\r'),
{
    let s = line + seq!['\n'] + rest;
    let k = line.len() as int;
    assert forall|j: int| 0 <= j < k implies s[j] != '\n' by {
        assert(s[j] == line[j]);
        assert(line.contains(line[j]));
    }
    lemma_find_at(s, '\n', k);
    assert(s.take(k) =~= line);
    assert(s.skip(k + 1) =~= rest);
    if line.len() > 0 {
        assert(line.drop_last() =~= line.subrange(0, line.len() - 1));
    }
}

/// A text without a line feed is a line as it stands, unless it is empty.
pub proof fn law_last_line_needs_no_end(line: Seq<char>)
    requires
        !line.contains('\n'),
    ensures
        lines(line, '\n', '\r') == if line.len() == 0 {
            Seq::empty()
        } else {
            seq![line]
        },
{
    lemma_find(line, '\n');
    if find(line, '\n') < line.len() {
        assert(line.contains(line[find(line, '\n')]));
    }
}

/// The same holds of the lines of bytes.
pub proof fn law_first_line_of_bytes(line: Seq<u8>, rest: Seq<u8>)
    requires
        !line.contains(10u8),
    ensures
        lines(line + seq![10u8] + rest, 10u8, 13u8) == seq![
            if line.len() > 0 && line[line.len() - 1] == 13 {
                line.subrange(0, line.len() - 1)
            } else {
                line
            },
        ] + lines(rest, 10u8, 13u8),
        lines(line, 10u8, 13u8) == if line.len() == 0 {
            Seq::empty()
        } else {
            seq![line]
        },
{
    let s = line + seq![10u8] + rest;
    let k = line.len() as int;
    assert forall|j: int| 0 <= j < k implies s[j] != 10u8 by {
        assert(s[j] == line[j]);
        assert(line.contains(line[j]));
    }
    lemma_find_at(s, 10u8, k);
    assert(s.take(k) =~= line);
    assert(s.skip(k + 1) =~= rest);
    if line.len() > 0 {
        assert(line.drop_last() =~= line.subrange(0, line.len() - 1));
    }
    lemma_find(line, 10u8);
    if find(line, 10u8) < line.len() {
        assert(line.contains(line[find(line, 10u8)]));
    }
}

/// Behind the last separator stands what holds none.
pub proof fn law_after_the_last_separator(before: Seq<char>, c: char, end: Seq<char>)
    requires
        !end.contains(c),
    ensures
        after_last(before + seq![c] + end, c) == end,
        after_last(end, c) == end,
{
    let s = before + seq![c] + end;
    let k = before.len() + 1;
    assert forall|j: int| k <= j < s.len() implies s[j] != c by {
        assert(s[j] == end[j - k]);
        assert(end.contains(end[j - k]));
    }
    lemma_after_last_at(s, c, k as int);
    assert(s.skip(k as int) =~= end);
    assert forall|j: int| 0 <= j < end.len() implies end[j] != c by {
        assert(end.contains(end[j]));
    }
    lemma_after_last_at(end, c, 0);
    assert(end.skip(0) =~= end);
}

/// Leaving a character out goes from place to place: where it stands nothing is left,
/// and any other stays.
pub proof fn law_left_out_everywhere(s: Seq<char>, x: char, c: char)
    ensures
        without(s.push(x), c) == if x == c {
            without(s, c)
        } else {
            without(s, c).push(x)
        },
        without(Seq::empty(), c) == Seq::<char>::empty(),
{
    reveal(Seq::filter);
    assert(s.push(x).drop_last() =~= s);
}

// ---------------------------------------------------------------------------
// White space
// ---------------------------------------------------------------------------

/// Whether `c` is white space, ASCII or other.
pub open spec fn is_blank(c: char) -> bool {
    ||| c == ' ' || c == '\t' || c == '\n' || c == '\u{b}' || c == '\u{c}' || c == '\r'
    ||| c == '\u{85}' || c == '\u{a0}' || c == '\u{1680}'
    ||| '\u{2000}' <= c <= '\u{200a}'
    ||| c == '\u{2028}' || c == '\u{2029}' || c == '\u{202f}' || c == '\u{205f}'
    ||| c == '\u{3000}'
}

/// Whether all of `s` is white space.
pub open spec fn all_blank(s: Seq<char>) -> bool {
    forall|i: int| 0 <= i < s.len() ==> is_blank(#[trigger] s[i])
}

/// Whether none of `s` is white space.
pub open spec fn none_blank(s: Seq<char>) -> bool {
    forall|i: int| 0 <= i < s.len() ==> !is_blank(#[trigger] s[i])
}

proof fn lemma_trim_start(gap: Seq<char>, s: Seq<char>)
    requires
        all_blank(gap),
        s.len() > 0 ==> !is_blank(s[0]),
    ensures
        trim_start(gap + s) == s,
    decreases gap.len(),
{
    if gap.len() == 0 {
        assert(gap + s =~= s);
    } else {
        let rest = gap.drop_first();
        assert forall|i: int| 0 <= i < rest.len() implies is_blank(#[trigger] rest[i]) by {
            assert(rest[i] == gap[i + 1]);
        }
        lemma_trim_start(rest, s);
        assert(is_blank(gap[0]));
        assert((gap + s).drop_first() =~= rest + s);
    }
}

proof fn lemma_trim_end(s: Seq<char>, gap: Seq<char>)
    requires
        all_blank(gap),
        s.len() > 0 ==> !is_blank(s[s.len() - 1]),
    ensures
        trim_end(s + gap) == s,
    decreases gap.len(),
{
    if gap.len() == 0 {
        assert(s + gap =~= s);
    } else {
        let rest = gap.drop_last();
        assert forall|i: int| 0 <= i < rest.len() implies is_blank(#[trigger] rest[i]) by {
            assert(rest[i] == gap[i]);
        }
        lemma_trim_end(s, rest);
        assert(is_blank(gap[gap.len() - 1]));
        assert((s + gap).drop_last() =~= s + rest);
    }
}

/// Trimming takes the white space off both ends, and nothing else.
pub proof fn law_both_ends_are_trimmed(a: Seq<char>, s: Seq<char>, b: Seq<char>)
    requires
        all_blank(a),
        all_blank(b),
        s.len() > 0 ==> !is_blank(s[0]) && !is_blank(s[s.len() - 1]),
    ensures
        trim(a + s + b) == s,
{
    if s.len() == 0 {
        let gap = a + b;
        assert forall|i: int| 0 <= i < gap.len() implies is_blank(#[trigger] gap[i]) by {
            if i >= a.len() {
                assert(gap[i] == b[i - a.len()]);
            } else {
                assert(gap[i] == a[i]);
            }
        }
        lemma_trim_start(gap, s);
        assert(a + s + b =~= gap + s);
    } else {
        lemma_trim_start(a, s + b);
        assert(a + s + b =~= a + (s + b));
        lemma_trim_end(s, b);
    }
}

proof fn lemma_word(w: Seq<char>, rest: Seq<char>)
    requires
        none_blank(w),
        rest.len() > 0 ==> is_blank(rest[0]),
    ensures
        word(w + rest) == w,
    decreases w.len(),
{
    if w.len() == 0 {
        assert(w + rest =~= rest);
        assert(word(rest) =~= w);
    } else {
        let tail = w.drop_first();
        assert forall|i: int| 0 <= i < tail.len() implies !is_blank(#[trigger] tail[i]) by {
            assert(tail[i] == w[i + 1]);
        }
        lemma_word(tail, rest);
        assert(!is_blank(w[0]));
        assert((w + rest).drop_first() =~= tail + rest);
        assert(seq![w[0]] + tail =~= w);
    }
}

/// The second word stands behind the first and the white space that follows it, and
/// ends where white space follows.
pub proof fn law_second_word_follows_the_first(
    first: Seq<char>,
    gap: Seq<char>,
    second: Seq<char>,
    rest: Seq<char>,
)
    requires
        none_blank(first),
        none_blank(second),
        all_blank(gap),
        gap.len() > 0,
        second.len() > 0,
        rest.len() > 0 ==> is_blank(rest[0]),
    ensures
        second_word(first + gap + second + rest) == second,
        second_word(first) == Seq::<char>::empty(),
        second_word(first + gap) == Seq::<char>::empty(),
{
    let s = first + gap + second + rest;
    let tail = gap + (second + rest);
    assert(s =~= first + tail);
    assert(is_blank(gap[0]));
    assert(tail[0] == gap[0]);
    lemma_word(first, tail);
    assert(s.skip(first.len() as int) =~= tail);
    lemma_trim_start(gap, second + rest);
    lemma_word(second, rest);
    let none = Seq::<char>::empty();
    lemma_word(first, none);
    assert(first + none =~= first);
    assert(first.skip(first.len() as int) =~= none);
    lemma_word(first, gap);
    assert((first + gap).skip(first.len() as int) =~= gap);
    lemma_trim_start(gap, none);
    assert(gap + none =~= gap);
}

// ---------------------------------------------------------------------------
// Numbers and padding
// ---------------------------------------------------------------------------

/// The number that `digits` tell in decimal notation.
pub open spec fn told(digits: Seq<char>) -> int
    decreases digits.len(),
{
    if digits.len() == 0 {
        0
    } else {
        10 * told(digits.drop_last()) + (digits[digits.len() - 1] as int - '0' as int)
    }
}

/// A number is told by the digits that it is written in, and the first of several is
/// not zero.
pub proof fn law_numbers_are_told_in_decimal(n: nat)
    ensures
        told(decimal(n)) == n,
        decimal(n).len() > 0,
        decimal(n).len() > 1 ==> decimal(n)[0] != '0',
        forall|i: int| 0 <= i < decimal(n).len() ==> '0' <= #[trigger] decimal(n)[i] <= '9',
    decreases n,
{
    reveal_with_fuel(told, 2);
    if n >= 10 {
        law_numbers_are_told_in_decimal(n / 10);
        let head = decimal(n / 10);
        assert(decimal(n).drop_last() =~= head);
        if head.len() == 1 {
            assert(told(head.drop_last()) == 0);
            assert(head[0] as int - '0' as int == n / 10);
        }
    } else {
        assert(decimal(n).drop_last() =~= Seq::empty());
    }
}

/// With two digits at least, a number is told as well, and a zero stands only before
/// a single digit.
pub proof fn law_two_digits_at_least(n: nat)
    ensures
        told(two_digits(n)) == n,
        two_digits(n).len() >= 2,
        two_digits(n)[0] == '0' ==> two_digits(n).len() == 2 && n < 10,
        forall|i: int| 0 <= i < two_digits(n).len() ==> '0' <= #[trigger] two_digits(n)[i] <= '9',
{
    law_numbers_are_told_in_decimal(n);
    if n < 10 {
        reveal_with_fuel(told, 3);
        let s = two_digits(n);
        assert(s.drop_last() =~= seq!['0']);
        assert(s.drop_last().drop_last() =~= Seq::empty());
    } else {
        law_numbers_are_told_in_decimal(n / 10);
        assert(decimal(n).len() == decimal(n / 10).len() + 1);
    }
}

/// A padded text begins with the text, goes on with spaces, and has the given width
/// unless the text is longer.
pub proof fn law_padding_adds_spaces(s: Seq<char>, width: nat)
    ensures
        padded(s, width).len() == if s.len() < width {
            width
        } else {
            s.len()
        },
        padded(s, width).subrange(0, s.len() as int) == s,
        forall|i: int| s.len() <= i < padded(s, width).len() ==> padded(s, width)[i] == ' ',
{
    assert(padded(s, width).subrange(0, s.len() as int) =~= s);
}

/// Of ASCII letters the capitals are made small, and nothing else is changed.
pub proof fn law_capitals_are_made_small(s: Seq<char>, i: int)
    requires
        0 <= i < s.len(),
    ensures
        ascii_lowered(s).len() == s.len(),
        'A' <= s[i] <= 'Z' ==> ascii_lowered(s)[i] as int == s[i] as int + ('a' as int
            - 'A' as int),
        !('A' <= s[i] <= 'Z') ==> ascii_lowered(s)[i] == s[i],
{
}

// ---------------------------------------------------------------------------
// Paths
// ---------------------------------------------------------------------------

/// Whether `s` is made of slashes, in either direction.
pub open spec fn only_slashes(s: Seq<char>) -> bool {
    forall|i: int| 0 <= i < s.len() ==> (#[trigger] s[i] == '/' || s[i] == '\\')
}

/// An install path is the path without the slashes before it, and with each backslash
/// turned; nothing else is changed.
pub proof fn law_install_path_keeps_the_rest(lead: Seq<char>, path: Seq<char>, i: int)
    requires
        only_slashes(lead),
        path.len() > 0 ==> path[0] != '/' && path[0] != '\\',
    ensures
        install_path(lead + path).len() == path.len(),
        0 <= i < path.len() ==> install_path(lead + path)[i] == if path[i] == '\\' {
            '/'
        } else {
            path[i]
        },
    decreases lead.len(),
{
    if lead.len() == 0 {
        assert(lead + path =~= path);
    } else {
        let rest = lead.drop_first();
        assert forall|k: int| 0 <= k < rest.len() implies (#[trigger] rest[k] == '/' || rest[k]
            == '\\') by {
            assert(rest[k] == lead[k + 1]);
        }
        law_install_path_keeps_the_rest(rest, path, i);
        let s = slashed(lead + path);
        assert(lead[0] == '/' || lead[0] == '\\');
        assert(s[0] == '/');
        assert(s.drop_first() =~= slashed(rest + path));
        assert(unrooted(s) == unrooted(s.drop_first()));
    }
}

/// Whether `e` is made of ASCII letters, digits and underscores.
pub open spec fn word_chars(e: Seq<char>) -> bool {
    forall|i: int|
        0 <= i < e.len() ==> ('a' <= #[trigger] e[i] <= 'z' || 'A' <= e[i] <= 'Z' || '0' <= e[i]
            <= '9' || e[i] == '_')
}

/// A path has an extension exactly where it ends in a dot and one or more ASCII
/// letters, digits or underscores.
pub proof fn law_extensions(name: Seq<char>, e: Seq<char>)
    ensures
        e.len() > 0 && word_chars(e) ==> has_extension(name + seq!['.'] + e),
        e.len() == 0 ==> !has_extension(name + seq!['.'] + e),
        !e.contains('.') && !word_chars(e) ==> !has_extension(name + seq!['.'] + e),
        !name.contains('.') ==> !has_extension(name),
{
    let s = name + seq!['.'] + e;
    let n = name.len() as int;
    assert(forall|i: int| n < i < s.len() ==> s[i] == e[i - n - 1]);
    if e.len() > 0 && word_chars(e) {
        assert(extension_dot(s, n));
    }
    if has_extension(s) {
        let dot = choose|dot: int| extension_dot(s, dot);
        assert(extension_dot(s, dot));
        if e.len() == 0 {
            assert(is_extension_char(s[n]));
        } else if !e.contains('.') && !word_chars(e) {
            if dot > n {
                assert(e[dot - n - 1] == '.');
            }
            let i = choose|i: int|
                0 <= i < e.len() && !('a' <= #[trigger] e[i] <= 'z' || 'A' <= e[i] <= 'Z' || '0'
                    <= e[i] <= '9' || e[i] == '_');
            assert(s[n + 1 + i] == e[i]);
            assert(is_extension_char(s[n + 1 + i]));
        }
    }
    if has_extension(name) {
        let dot = choose|dot: int| extension_dot(name, dot);
        assert(extension_dot(name, dot));
        assert(name.contains(name[dot]));
    }
}

/// `val` with each backslash turned.
pub open spec fn turned(val: Seq<char>) -> Seq<char> {
    Seq::new(
        val.len(),
        |i: int|
            if val[i] == '\\' {
                '/'
            } else {
                val[i]
            },
    )
}

/// A sound is placed below `sound` unless it is there; a model or a sprite without a
/// directory below `models` or `sprites`; and anything else stays where it is.
pub proof fn law_values_are_placed(val: Seq<char>)
    ensures
        ({
            let s = turned(val);
            let low = lowercase(s);
            let wav = ".wav"@.is_suffix_of(low);
            let bare = forall|i: int| 0 <= i < s.len() ==> s[i] != '/';
            &&& wav && !"sound/"@.is_prefix_of(low) ==> normalized(val) == "sound/"@ + s
            &&& wav && "sound/"@.is_prefix_of(low) ==> normalized(val) == s
            &&& !wav && bare && ".mdl"@.is_suffix_of(low) ==> normalized(val) == "models/"@ + s
            &&& !wav && bare && ".spr"@.is_suffix_of(low) ==> normalized(val) == "sprites/"@ + s
            &&& !wav && !bare ==> normalized(val) == s
            &&& !wav && !".mdl"@.is_suffix_of(low) && !".spr"@.is_suffix_of(low) ==> normalized(val)
                == s
        }),
{
    reveal_strlit(".wav");
    reveal_strlit(".mdl");
    reveal_strlit(".spr");
    let s = turned(val);
    let low = lowercase(s);
    assert(slashed(val) =~= s);
    if ".wav"@.is_suffix_of(low) {
        assert(low.last() == ".wav"@[3]);
    }
    if ".mdl"@.is_suffix_of(low) {
        assert(low.last() == ".mdl"@[3]);
    }
    if ".spr"@.is_suffix_of(low) {
        assert(low.last() == ".spr"@[3]);
    }
    if s.contains('/') {
        let i = choose|i: int| 0 <= i < s.len() && s[i] == '/';
        assert(s[i] == '/');
    } else {
        assert forall|i: int| 0 <= i < s.len() implies s[i] != '/' by {
            assert(s.contains(s[i]));
        }
    }
}

// ---------------------------------------------------------------------------
// Files that come with the game
// ---------------------------------------------------------------------------

/// The files that come with the game are the lines of the list but the empty ones:
/// each of them, and nothing else.
pub proof fn law_every_line_is_vanilla(list: Seq<char>, name: Seq<char>, i: int)
    ensures
        0 <= i < lines(list, '\n', '\r').len() && lines(list, '\n', '\r')[i].len() > 0
            ==> vanilla_set(list).contains(lines(list, '\n', '\r')[i]),
        vanilla_set(list).contains(name) ==> name.len() > 0 && exists|k: int|
            0 <= k < lines(list, '\n', '\r').len() && #[trigger] lines(list, '\n', '\r')[k] == name,
{
    let all = lines(list, '\n', '\r');
    if 0 <= i < all.len() {
        assert(all.contains(all[i]));
    }
}

proof fn lemma_lines_concat(a: Seq<char>, b: Seq<char>)
    requires
        a.len() > 0 ==> a[a.len() - 1] == '\n',
    ensures
        lines(a + b, '\n', '\r') == lines(a, '\n', '\r') + lines(b, '\n', '\r'),
    decreases a.len(),
{
    if a.len() == 0 {
        assert(a + b =~= b);
        assert(lines(a, '\n', '\r') + lines(b, '\n', '\r') =~= lines(b, '\n', '\r'));
    } else {
        lemma_find(a, '\n');
        let k = find(a, '\n');
        if k == a.len() {
            assert(a[a.len() - 1] != '\n');
        }
        let line = a.take(k);
        let rest = a.skip(k + 1);
        assert(!line.contains('\n')) by {
            if line.contains('\n') {
                let i = choose|i: int| 0 <= i < line.len() && line[i] == '\n';
                assert(a[i] != '\n');
            }
        }
        assert(a =~= line + seq!['\n'] + rest);
        assert(a + b =~= line + seq!['\n'] + (rest + b));
        law_first_line_comes_first(line, rest);
        law_first_line_comes_first(line, rest + b);
        if rest.len() > 0 {
            assert(rest[rest.len() - 1] == a[a.len() - 1]);
        }
        lemma_lines_concat(rest, b);
        let first = lines(line + seq!['\n'] + rest, '\n', '\r')[0];
        assert(lines(a, '\n', '\r') =~= seq![first] + lines(rest, '\n', '\r'));
        assert(seq![first] + (lines(rest, '\n', '\r') + lines(b, '\n', '\r')) =~= lines(
            a,
            '\n',
            '\r',
        ) + lines(b, '\n', '\r'));
    }
}

/// A name that has a line of its own anywhere in the list comes with the game,
/// whatever it is and wherever it stands.
pub proof fn law_name_on_a_line_is_vanilla(before: Seq<char>, name: Seq<char>, after: Seq<char>)
    requires
        before.len() > 0 ==> before[before.len() - 1] == '\n',
        name.len() > 0,
        !name.contains('\n'),
        name[name.len() - 1] != '\r',
    ensures
        vanilla_set(before + name + seq!['\n'] + after).contains(name),
        vanilla_set(before + name + seq!['\r', '\n'] + after).contains(name),
        vanilla_set(before + name).contains(name),
{
    let head = lines(before, '\n', '\r');
    let one = name + seq!['\n'] + after;
    lemma_lines_concat(before, one);
    law_first_line_comes_first(name, after);
    assert(before + name + seq!['\n'] + after =~= before + one);
    let all = lines(before + one, '\n', '\r');
    assert(all[head.len() as int] == name);
    assert(all.contains(name));
    let longer = name.push('\r');
    let two = longer + seq!['\n'] + after;
    assert(!longer.contains('\n')) by {
        if longer.contains('\n') {
            let i = choose|i: int| 0 <= i < longer.len() && longer[i] == '\n';
            assert(name[i] == '\n');
        }
    }
    lemma_lines_concat(before, two);
    law_first_line_comes_first(longer, after);
    assert(longer.subrange(0, longer.len() - 1) =~= name);
    assert(before + name + seq!['\r', '\n'] + after =~= before + two);
    let more = lines(before + two, '\n', '\r');
    assert(more[head.len() as int] == name);
    assert(more.contains(name));
    lemma_lines_concat(before, name);
    law_last_line_needs_no_end(name);
    let last = lines(before + name, '\n', '\r');
    assert(last[head.len() as int] == name);
    assert(last.contains(name));
}

// ---------------------------------------------------------------------------
// The order of keys
// ---------------------------------------------------------------------------

/// Whether `a` and `b` are the same up to `k`, where `a` ends or has the smaller byte.
pub open spec fn smaller_at(a: Seq<u8>, b: Seq<u8>, k: int) -> bool {
    &&& 0 <= k < b.len()
    &&& k <= a.len()
    &&& forall|j: int| 0 <= j < k ==> a[j] == b[j]
    &&& k == a.len() || a[k] < b[k]
}

proof fn lemma_smaller(a: Seq<u8>, b: Seq<u8>)
    ensures
        bytes_before(a, b) <==> exists|k: int| smaller_at(a, b, k),
    decreases a.len(),
{
    if a.len() == 0 || b.len() == 0 {
        if a.len() < b.len() {
            assert(smaller_at(a, b, 0));
        }
    } else if a[0] == b[0] {
        let x = a.drop_first();
        let y = b.drop_first();
        lemma_smaller(x, y);
        if exists|k: int| smaller_at(x, y, k) {
            let k = choose|k: int| smaller_at(x, y, k);
            assert forall|j: int| 0 <= j < k + 1 implies a[j] == b[j] by {
                if j > 0 {
                    assert(x[j - 1] == y[j - 1]);
                }
            }
            assert(smaller_at(a, b, k + 1));
        }
        if exists|k: int| smaller_at(a, b, k) {
            let k = choose|k: int| smaller_at(a, b, k);
            assert(k > 0);
            assert forall|j: int| 0 <= j < k - 1 implies x[j] == y[j] by {
                assert(a[j + 1] == b[j + 1]);
            }
            assert(smaller_at(x, y, k - 1));
        }
    } else if a[0] < b[0] {
        assert(smaller_at(a, b, 0));
    } else if exists|k: int| smaller_at(a, b, k) {
        let k = choose|k: int| smaller_at(a, b, k);
        assert(smaller_at(a, b, k));
        if k > 0 {
            assert(a[0] == b[0]);
        }
    }
}

/// One key comes before another where its bytes are the first of the other's, or
/// where at the first difference its byte is the smaller.
pub proof fn law_keys_are_ordered_by_bytes(a: Seq<char>, b: Seq<char>)
    ensures
        precedes(a, b) <==> exists|k: int| smaller_at(encode_utf8(a), encode_utf8(b), k),
{
    lemma_smaller(encode_utf8(a), encode_utf8(b));
}

/// The listing of a map holds each key once, with its value, in order, and nothing
/// else.
pub proof fn law_listing_is_the_map_in_order(m: Map<Seq<char>, Seq<char>>, key: Seq<char>)
    requires
        listable(m),
    ensures
        m.contains_key(key) ==> exists|i: int|
            0 <= i < listing(m).len() && #[trigger] listing(m)[i] == (key, m[key]),
        forall|i: int|
            0 <= i < listing(m).len() ==> m.contains_key((#[trigger] listing(m)[i]).0)
                && m[listing(m)[i].0] == listing(m)[i].1,
        forall|i: int, j: int|
            0 <= i < j < listing(m).len() ==> precedes(
                (#[trigger] listing(m)[i]).0,
                (#[trigger] listing(m)[j]).0,
            ),
{
    let pairs = listing(m);
    assert forall|i: int| 0 <= i < pairs.len() implies m.contains_key((#[trigger] pairs[i]).0)
        && m[pairs[i].0] == pairs[i].1 by {
        lemma_map_of_at(pairs, i);
    }
    if m.contains_key(key) {
        let i = lemma_listed(m, key);
        assert(pairs[i] == (key, m[key]));
    }
}

} // verus!
