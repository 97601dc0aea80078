//! Laws of reading a map: its entities, the references in its bytes, and the list
//! of its detail textures.
use crate::details::{details_of_lines, named_before};
use crate::entities::{entities_of, entity_of_block, entity_of_pieces, EntityMap};
use crate::paths::{normalized, placed, slashed};
use crate::references::{ascii_text, extension_at, is_resource, lemma_run_end, path_byte};
use crate::references::{raw_paths, run_end};
use crate::text::{ascii_lowered, find, lemma_find, lemma_find_at, lowercase, split};
use vstd::prelude::*;

verus! {

// ---------------------------------------------------------------------------
// Entities
// ---------------------------------------------------------------------------

proof fn lemma_no_empty_key(pieces: Seq<Seq<char>>, n: int)
    ensures
        !entity_of_pieces(pieces, n).contains_key(Seq::empty()),
    decreases n,
{
    if n > 0 {
        lemma_no_empty_key(pieces, n - 1);
    }
}

/// Every entity that is read has a key, and none of its keys is empty.
pub proof fn law_entities_have_keys(text: Seq<char>, i: int)
    requires
        0 <= i < entities_of(text).len(),
    ensures
        entities_of(text)[i] != EntityMap::empty(),
        !entities_of(text)[i].contains_key(Seq::empty()),
    decreases text.len(),
{
    let open = find(text, '{');
    let rest = text.skip(open + 1);
    let close = find(rest, '}');
    lemma_find(text, '{');
    lemma_find(rest, '}');
    let block = rest.take(close);
    let entity = entity_of_block(block);
    let pieces = split(block, '"');
    lemma_no_empty_key(pieces, (pieces.len() - 1) / 4);
    if entity == EntityMap::empty() {
        law_entities_have_keys(rest.skip(close + 1), i);
    } else if i > 0 {
        law_entities_have_keys(rest.skip(close + 1), i - 1);
        assert(entities_of(text)[i] == entities_of(rest.skip(close + 1))[i - 1]);
    } else {
        assert(entities_of(text)[0] == entity);
    }
}

/// Entities are read block by block: what stands before an opening brace does not
/// matter, the block makes one entity or none, and what follows its closing brace
/// is read by itself.
pub proof fn law_entities_are_read_block_by_block(
    before: Seq<char>,
    block: Seq<char>,
    after: Seq<char>,
)
    requires
        !before.contains('{'),
        !block.contains('}'),
    ensures
        entities_of(before + seq!['{'] + block + seq!['}'] + after) == (if entity_of_block(block)
            == EntityMap::empty() {
            Seq::empty()
        } else {
            seq![entity_of_block(block)]
        }) + entities_of(after),
{
    let text = before + seq!['{'] + block + seq!['}'] + after;
    let open = before.len() as int;
    assert forall|j: int| 0 <= j < open implies text[j] != '{' by {
        assert(text[j] == before[j]);
        assert(before.contains(before[j]));
    }
    lemma_find_at(text, '{', open);
    let rest = text.skip(open + 1);
    assert(rest =~= block + seq!['}'] + after);
    let close = block.len() as int;
    assert forall|j: int| 0 <= j < close implies rest[j] != '}' by {
        assert(rest[j] == block[j]);
        assert(block.contains(block[j]));
    }
    lemma_find_at(rest, '}', close);
    assert(rest.take(close) =~= block);
    assert(rest.skip(close + 1) =~= after);
    assert(Seq::<EntityMap>::empty() + entities_of(after) =~= entities_of(after));
}

/// The pieces of two texts with `c` between them are the pieces of the one and
/// those of the other.
proof fn lemma_split_concat(a: Seq<char>, c: char, b: Seq<char>)
    ensures
        split(a + seq![c] + b, c) == split(a, c) + split(b, c),
    decreases a.len(),
{
    let s = a + seq![c] + b;
    let k = find(a, c);
    lemma_find(a, c);
    assert forall|j: int| 0 <= j < k implies s[j] != c by {
        assert(s[j] == a[j]);
    }
    assert(s[k] == c);
    lemma_find_at(s, c, k);
    assert(s.take(k) =~= a.take(k));
    if k < a.len() {
        let rest = a.skip(k + 1);
        assert(s.skip(k + 1) =~= rest + seq![c] + b);
        lemma_split_concat(rest, c, b);
        assert(seq![a.take(k)] + (split(rest, c) + split(b, c)) =~= (seq![a.take(k)] + split(
            rest,
            c,
        )) + split(b, c));
    } else {
        assert(a.take(k) =~= a);
        assert(s.skip(k + 1) =~= b);
    }
}

/// A text without `c` is a piece by itself.
proof fn lemma_split_whole(s: Seq<char>, c: char)
    requires
        !s.contains(c),
    ensures
        split(s, c) == seq![s],
{
    lemma_find(s, c);
    if find(s, c) < s.len() {
        assert(s.contains(s[find(s, c)]));
    }
}

proof fn lemma_same_pieces(a: Seq<Seq<char>>, b: Seq<Seq<char>>, n: int)
    requires
        4 * n <= a.len(),
        4 * n <= b.len(),
        forall|i: int| 0 <= i < 4 * n ==> a[i] == b[i],
    ensures
        entity_of_pieces(a, n) == entity_of_pieces(b, n),
    decreases n,
{
    if n > 0 {
        lemma_same_pieces(a, b, n - 1);
    }
}

/// A pair is read back: behind pairs that are complete, a quoted key and a quoted
/// value add the value under the lowercase form of the key, in place of any value
/// that it had. An empty key adds nothing.
pub proof fn law_pair_is_read(
    pairs: Seq<char>,
    key: Seq<char>,
    between: Seq<char>,
    value: Seq<char>,
    end: Seq<char>,
)
    requires
        split(pairs, '"').len() % 4 == 1,
        !key.contains('"'),
        !between.contains('"'),
        !value.contains('"'),
        !end.contains('"'),
    ensures
        entity_of_block(
            pairs + seq!['"'] + key + seq!['"'] + between + seq!['"'] + value + seq!['"'] + end,
        ) == (if lowercase(key).len() == 0 {
            entity_of_block(pairs)
        } else {
            entity_of_block(pairs).insert(lowercase(key), value)
        }),
{
    let a = pairs + seq!['"'] + key;
    let b = a + seq!['"'] + between;
    let c = b + seq!['"'] + value;
    let block = c + seq!['"'] + end;
    lemma_split_concat(pairs, '"', key);
    lemma_split_concat(a, '"', between);
    lemma_split_concat(b, '"', value);
    lemma_split_concat(c, '"', end);
    lemma_split_whole(key, '"');
    lemma_split_whole(between, '"');
    lemma_split_whole(value, '"');
    lemma_split_whole(end, '"');
    let p = split(pairs, '"');
    let q = split(block, '"');
    assert(q =~= p + seq![key, between, value, end]);
    let n = (p.len() - 1) / 4;
    assert((q.len() - 1) / 4 == n + 1);
    assert(q[4 * (n + 1) - 3] == key);
    assert(q[4 * (n + 1) - 1] == value);
    lemma_same_pieces(p, q, n);
}

/// What follows the last complete pair of a block adds nothing, where it is not a whole
/// pair itself; and a block without quotes has no pairs.
pub proof fn law_incomplete_pair_adds_nothing(pairs: Seq<char>, tail: Seq<char>)
    requires
        split(pairs, '"').len() % 4 == 1,
        split(tail, '"').len() <= 3,
    ensures
        entity_of_block(pairs + seq!['"'] + tail) == entity_of_block(pairs),
        !tail.contains('"') ==> entity_of_block(tail) == EntityMap::empty(),
{
    lemma_split_concat(pairs, '"', tail);
    let p = split(pairs, '"');
    let q = split(pairs + seq!['"'] + tail, '"');
    let n = (p.len() - 1) / 4;
    assert((q.len() - 1) / 4 == n);
    lemma_same_pieces(p, q, n);
    if !tail.contains('"') {
        lemma_split_whole(tail, '"');
    }
}

/// Without an opening brace, or without a closing brace behind the first one, a text
/// holds no entity.
pub proof fn law_no_block_is_no_entity(before: Seq<char>, after: Seq<char>)
    requires
        !before.contains('{'),
        !after.contains('}'),
    ensures
        entities_of(before) == Seq::<EntityMap>::empty(),
        entities_of(before + seq!['{'] + after) == Seq::<EntityMap>::empty(),
{
    lemma_find(before, '{');
    if find(before, '{') < before.len() {
        assert(before.contains(before[find(before, '{')]));
    }
    let text = before + seq!['{'] + after;
    let k = before.len() as int;
    assert forall|j: int| 0 <= j < k implies text[j] != '{' by {
        assert(text[j] == before[j]);
        assert(before.contains(before[j]));
    }
    lemma_find_at(text, '{', k);
    assert(text.skip(k + 1) =~= after);
    lemma_find(after, '}');
    if find(after, '}') < after.len() {
        assert(after.contains(after[find(after, '}')]));
    }
}

// ---------------------------------------------------------------------------
// References in the bytes of the map
// ---------------------------------------------------------------------------

/// A path in the bytes of the map is found wherever it begins: at the start of the
/// map, or behind a byte that can neither be part of a path nor begins the
/// extension of another one.
pub proof fn law_paths_in_bytes_are_found(data: Seq<u8>, from: int, i: int)
    requires
        0 <= from <= i < data.len(),
        i > 0 ==> !path_byte(data[i - 1]) && !extension_at(data, i - 1),
        run_end(data, i) - i >= 2,
        extension_at(data, run_end(data, i)),
        run_end(data, i) + 4 < data.len() ==> !path_byte(data[run_end(data, i) + 4]),
    ensures
        raw_paths(data, from).contains(
            normalized(ascii_text(data.subrange(i, run_end(data, i) + 4))),
        ),
    decreases i - from,
{
    let found = normalized(ascii_text(data.subrange(i, run_end(data, i) + 4)));
    let end = run_end(data, from);
    lemma_run_end(data, from);
    if from == i {
        assert(raw_paths(data, from)[0] == found);
    } else {
        if end >= i {
            assert(path_byte(data[i - 1]));
        }
        let next = if end == from {
            from + 1
        } else if end - from < 2 || !extension_at(data, end) {
            end
        } else {
            end + 4
        };
        if extension_at(data, end) {
            assert(path_byte(data[end + 1]) && path_byte(data[end + 2]) && path_byte(
                data[end + 3],
            ));
        }
        assert(next <= i);
        law_paths_in_bytes_are_found(data, next, i);
        let rest = raw_paths(data, next);
        let k = choose|k: int| 0 <= k < rest.len() && rest[k] == found;
        if raw_paths(data, from) != rest {
            assert(raw_paths(data, from)[k + 1] == found);
        }
    }
}

/// Whatever is found in the bytes of the map is a sound, a model or a sprite.
pub proof fn law_bytes_name_resources(data: Seq<u8>, from: int, k: int)
    requires
        0 <= from,
        0 <= k < raw_paths(data, from).len(),
    ensures
        is_resource(ascii_lowered(raw_paths(data, from)[k])),
    decreases data.len() - from,
{
    let end = run_end(data, from);
    if from < data.len() {
        lemma_run_end(data, from);
        if end == from {
            law_bytes_name_resources(data, from + 1, k);
        } else if end - from < 2 || !extension_at(data, end) {
            law_bytes_name_resources(data, end, k);
        } else if end + 4 < data.len() && path_byte(data[end + 4]) {
            law_bytes_name_resources(data, end + 4, k);
        } else if k > 0 {
            law_bytes_name_resources(data, end + 4, k - 1);
            assert(raw_paths(data, from)[k] == raw_paths(data, end + 4)[k - 1]);
        } else {
            lemma_found_is_resource(data, from, end);
        }
    }
}

#[verifier::spinoff_prover]
#[verifier::rlimit(40)]
proof fn lemma_found_is_resource(data: Seq<u8>, from: int, end: int)
    requires
        0 <= from <= end,
        extension_at(data, end),
    ensures
        is_resource(ascii_lowered(normalized(ascii_text(data.subrange(from, end + 4))))),
{
    reveal_strlit(".wav");
    reveal_strlit(".mdl");
    reveal_strlit(".spr");
    let text = ascii_text(data.subrange(from, end + 4));
    let r = normalized(text);
    let low = ascii_lowered(r);
    let n = low.len() as int;
    let s = slashed(text);
    assert(r == placed(s, lowercase(s)));
    let shift = r.len() - s.len();
    assert(forall|i: int| 0 <= i < s.len() ==> r[shift + i] == s[i]);
    let m = s.len() as int;
    assert(r[n - 4] == s[m - 4] && r[n - 3] == s[m - 3] && r[n - 2] == s[m - 2] && r[n - 1] == s[m
        - 1]);
    assert(text[m - 4] == data[end] as char && text[m - 3] == data[end + 1] as char && text[m - 2]
        == data[end + 2] as char && text[m - 1] == data[end + 3] as char);
    let tail = low.subrange(n - 4, n);
    assert(tail =~= ".wav"@ || tail =~= ".mdl"@ || tail =~= ".spr"@);
}

// ---------------------------------------------------------------------------
// Detail textures
// ---------------------------------------------------------------------------

/// Each detail texture is named once, whatever its case.
pub proof fn law_details_are_named_once(all: Seq<Seq<u8>>, i: int, j: int)
    requires
        0 <= i < j < details_of_lines(all).len(),
    ensures
        lowercase(details_of_lines(all)[i]) != lowercase(details_of_lines(all)[j]),
    decreases all.len(),
{
    let before = details_of_lines(all.drop_last());
    if j < before.len() {
        law_details_are_named_once(all.drop_last(), i, j);
    } else {
        assert(!named_before(before, details_of_lines(all)[j]));
        assert(before[i] == details_of_lines(all)[i]);
    }
}

} // verus!
