//! References to sounds, models and sprites: in the values of entities, and
//! anywhere in the bytes of the map.
use crate::entities::{entity_maps, Entity, EntityMap};
use crate::paths::{enqueue, enqueued_all, lemma_enqueued_concat, lemma_enqueued_push};
use crate::paths::{normalize_path, normalized, Queue};
use crate::table::listing;
use crate::text::{ends_with, from_utf8_lossy, lowercase, to_chars, to_lowercase};
use vstd::prelude::*;
use vstd::slice::slice_subrange;
use vstd::utf8::{decode_utf8, encode_utf8, encode_utf8_decode_utf8, encode_utf8_valid_utf8};
use vstd::utf8::{is_ascii_chars, is_ascii_chars_encode_utf8, valid_utf8};

verus! {

// ---------------------------------------------------------------------------
// Values of entities
// ---------------------------------------------------------------------------

/// Whether a path with the lowercase form `low` is a sound, a model or a sprite.
pub open spec fn is_resource(low: Seq<char>) -> bool {
    ".wav"@.is_suffix_of(low) || ".mdl"@.is_suffix_of(low) || ".spr"@.is_suffix_of(low)
}

/// Whether a value refers to a model inside the map itself, by its number.
pub open spec fn is_inner_model(value: Seq<char>) -> bool {
    value.len() >= 2 && value[0] == '*' && '0' <= value[1] <= '9'
}

/// The path that a value of an entity, with the lowercase form `low`, refers to.
pub open spec fn value_paths(value: Seq<char>, low: Seq<char>) -> Seq<Seq<char>> {
    if value.len() == 0 || is_inner_model(value) || !is_resource(low) {
        Seq::empty()
    } else {
        seq![normalized(value)]
    }
}

/// The paths that the values of `pairs` refer to.
pub open spec fn pair_paths(pairs: Seq<(Seq<char>, Seq<char>)>) -> Seq<Seq<char>>
    decreases pairs.len(),
{
    if pairs.len() == 0 {
        Seq::empty()
    } else {
        pair_paths(pairs.drop_last()) + value_paths(pairs.last().1, lowercase(pairs.last().1))
    }
}

/// The paths that the values of the entities refer to. The values of an entity
/// are taken in the order of their keys.
pub open spec fn entity_paths(entities: Seq<EntityMap>) -> Seq<Seq<char>>
    decreases entities.len(),
{
    if entities.len() == 0 {
        Seq::empty()
    } else {
        entity_paths(entities.drop_last()) + pair_paths(listing(entities.last()))
    }
}

/// Adds what the value refers to, told its lowercase form.
pub fn collect_value(value: &str, low: &str, queue: &mut Queue)
    ensures
        final(queue)@ == enqueued_all(old(queue)@, value_paths(value@, low@)),
{
    let chars: Vec<char> = to_chars(value);
    if chars.len() == 0 {
        return;
    }
    if chars.len() >= 2 && chars[0] == '*' && '0' <= chars[1] && chars[1] <= '9' {
        return;
    }
    if ends_with(low, ".wav") || ends_with(low, ".mdl") || ends_with(low, ".spr") {
        let path: String = normalize_path(value);
        enqueue(path.as_str(), queue);
        proof {
            let none = Seq::<Seq<char>>::empty();
            lemma_enqueued_push(old(queue)@, none, path@);
            assert(none.push(path@) =~= seq![path@]);
        }
    }
}

/// Adds what the values of an entity refer to.
fn collect_entity(entity: &Entity, queue: &mut Queue)
    ensures
        final(queue)@ == enqueued_all(old(queue)@, pair_paths(listing(entity@))),
{
    let n: usize = entity.len();
    let ghost pairs = listing(entity@);
    let mut i: usize = 0;
    proof {
        assert(pairs.take(0) =~= Seq::empty());
    }
    while i < n
        invariant
            i <= n == pairs.len(),
            pairs == listing(entity@),
            queue@ == enqueued_all(old(queue)@, pair_paths(pairs.take(i as int))),
        decreases n - i,
    {
        let value: &String = entity.value(i);
        let low: String = to_lowercase(value.as_str());
        collect_value(value.as_str(), low.as_str(), queue);
        proof {
            assert(pairs.take(i + 1).drop_last() =~= pairs.take(i as int));
            lemma_enqueued_concat(
                old(queue)@,
                pair_paths(pairs.take(i as int)),
                value_paths(value@, low@),
            );
        }
        i += 1;
    }
    proof {
        assert(pairs.take(i as int) =~= pairs);
    }
}

/// Adds what the values of the entities refer to.
pub fn collect_entity_resources(entities: &Vec<Entity>, queue: &mut Queue)
    ensures
        final(queue)@ == enqueued_all(old(queue)@, entity_paths(entity_maps(entities@))),
{
    let ghost all = entity_maps(entities@);
    let mut i: usize = 0;
    proof {
        assert(all.take(0) =~= Seq::empty());
    }
    while i < entities.len()
        invariant
            i <= entities@.len(),
            all == entity_maps(entities@),
            queue@ == enqueued_all(old(queue)@, entity_paths(all.take(i as int))),
        decreases entities@.len() - i,
    {
        collect_entity(&entities[i], queue);
        proof {
            assert(all.take(i + 1).drop_last() =~= all.take(i as int));
            assert(all.take(i + 1).last() == entities@[i as int]@);
            lemma_enqueued_concat(
                old(queue)@,
                entity_paths(all.take(i as int)),
                pair_paths(listing(entities@[i as int]@)),
            );
        }
        i += 1;
    }
    proof {
        assert(all.take(i as int) =~= all);
    }
}

// ---------------------------------------------------------------------------
// The bytes of the map
// ---------------------------------------------------------------------------

/// Whether `b` can be part of a path, apart from its extension.
pub open spec fn path_byte(b: u8) -> bool {
    65 <= b <= 90 || 97 <= b <= 122 || 48 <= b <= 57 || b == 95 || b == 45 || b == 47 || b == 92
}

/// The end of the run of path bytes that begins at `i`.
pub open spec fn run_end(data: Seq<u8>, i: int) -> int
    decreases data.len() - i,
{
    if 0 <= i < data.len() && path_byte(data[i]) {
        run_end(data, i + 1)
    } else {
        i
    }
}

/// `b` with an ASCII capital made small.
pub open spec fn lower_byte(b: u8) -> u8 {
    if 65 <= b <= 90 {
        (b + 32) as u8
    } else {
        b
    }
}

/// Whether the extension of a sound, a model or a sprite, in any case, begins
/// with its dot at `at`.
pub open spec fn extension_at(data: Seq<u8>, at: int) -> bool {
    &&& at + 4 <= data.len()
    &&& data[at] == 46
    &&& {
        let a = lower_byte(data[at + 1]);
        let b = lower_byte(data[at + 2]);
        let c = lower_byte(data[at + 3]);
        ||| a == 119 && b == 97 && c == 118
        ||| a == 109 && b == 100 && c == 108
        ||| a == 115 && b == 112 && c == 114
    }
}

/// The ASCII text of `bytes`.
pub open spec fn ascii_text(bytes: Seq<u8>) -> Seq<char> {
    bytes.map_values(|b: u8| b as char)
}

/// The paths found in `data` from `i` on. A path is a run of two or more path
/// bytes, with the extension of a sound, a model or a sprite directly behind it
/// and no further path byte behind that.
pub open spec fn raw_paths(data: Seq<u8>, i: int) -> Seq<Seq<char>>
    decreases data.len() - i,
    via raw_paths_decreases
{
    let end = run_end(data, i);
    if i < 0 || i >= data.len() {
        Seq::empty()
    } else if end == i {
        raw_paths(data, i + 1)
    } else if end - i < 2 || !extension_at(data, end) {
        raw_paths(data, end)
    } else if end + 4 < data.len() && path_byte(data[end + 4]) {
        raw_paths(data, end + 4)
    } else {
        seq![normalized(ascii_text(data.subrange(i, end + 4)))] + raw_paths(data, end + 4)
    }
}

#[via_fn]
proof fn raw_paths_decreases(data: Seq<u8>, i: int) {
    if 0 <= i < data.len() {
        lemma_run_end(data, i);
    }
}

/// Whether `b` can be part of a path, apart from its extension.
fn is_path_byte(b: u8) -> (r: bool)
    ensures
        r == path_byte(b),
{
    (65 <= b && b <= 90) || (97 <= b && b <= 122) || (48 <= b && b <= 57) || b == 95 || b == 45 || b
        == 47 || b == 92
}

/// `b` with an ASCII capital made small.
fn to_lower_byte(b: u8) -> (r: u8)
    ensures
        r == lower_byte(b),
{
    if 65 <= b && b <= 90 {
        b + 32
    } else {
        b
    }
}

/// Whether the extension of a sound, a model or a sprite begins with its dot at
/// `at`.
fn check_extension_at(data: &[u8], at: usize) -> (r: bool)
    ensures
        r == extension_at(data@, at as int),
{
    let n: usize = data.len();
    if n < 4 || at > n - 4 || data[at] != 46 {
        return false;
    }
    let a: u8 = to_lower_byte(data[at + 1]);
    let b: u8 = to_lower_byte(data[at + 2]);
    let c: u8 = to_lower_byte(data[at + 3]);
    (a == 119 && b == 97 && c == 118) || (a == 109 && b == 100 && c == 108) || (a == 115 && b == 112
        && c == 114)
}

/// The run reaches as far as path bytes do.
pub proof fn lemma_run_end(data: Seq<u8>, i: int)
    requires
        0 <= i <= data.len(),
    ensures
        i <= run_end(data, i) <= data.len(),
        forall|j: int| i <= j < run_end(data, i) ==> path_byte(#[trigger] data[j]),
    decreases data.len() - i,
{
    if i < data.len() && path_byte(data[i]) {
        lemma_run_end(data, i + 1);
    }
}

/// ASCII bytes are UTF-8, and decode to the characters of the same numbers.
proof fn lemma_ascii_decodes(bytes: Seq<u8>)
    requires
        forall|i: int| 0 <= i < bytes.len() ==> #[trigger] bytes[i] < 128,
    ensures
        valid_utf8(bytes),
        decode_utf8(bytes) == ascii_text(bytes),
{
    let chars = ascii_text(bytes);
    assert(is_ascii_chars(chars));
    is_ascii_chars_encode_utf8(chars);
    assert(encode_utf8(chars) =~= bytes);
    encode_utf8_valid_utf8(chars);
    encode_utf8_decode_utf8(chars);
}

/// Adds the paths found in the bytes of the map.
pub fn collect_raw_scan(data: &[u8], queue: &mut Queue)
    ensures
        final(queue)@ == enqueued_all(old(queue)@, raw_paths(data@, 0)),
{
    let n: usize = data.len();
    let ghost all = raw_paths(data@, 0);
    let ghost mut done = Seq::<Seq<char>>::empty();
    let mut i: usize = 0;
    proof {
        assert(done + all =~= all);
    }
    while i < n
        invariant
            i <= n == data@.len(),
            queue@ == enqueued_all(old(queue)@, done),
            done + raw_paths(data@, i as int) == all,
        decreases n - i,
    {
        let start: usize = i;
        let mut end: usize = i;
        while end < n && is_path_byte(data[end])
            invariant
                start <= end <= n == data@.len(),
                run_end(data@, end as int) == run_end(data@, start as int),
            decreases n - end,
        {
            end += 1;
        }
        proof {
            lemma_run_end(data@, start as int);
            assert(run_end(data@, start as int) == end);
        }
        if end == start {
            i = start + 1;
        } else if end - start < 2 || !check_extension_at(data, end) {
            i = end;
        } else {
            i = end + 4;
            if i < n && is_path_byte(data[i]) {
                continue;
            }
            let bytes: &[u8] = slice_subrange(data, start, i);
            let found: String = from_utf8_lossy(bytes);
            proof {
                assert forall|j: int| 0 <= j < bytes@.len() implies #[trigger] bytes@[j] < 128 by {
                    assert(bytes@[j] == data@[start + j]);
                }
                lemma_ascii_decodes(bytes@);
            }
            let path: String = normalize_path(found.as_str());
            enqueue(path.as_str(), queue);
            proof {
                lemma_enqueued_push(old(queue)@, done, path@);
                assert(done + (seq![path@] + raw_paths(data@, i as int)) =~= done.push(path@)
                    + raw_paths(data@, i as int));
                done = done.push(path@);
            }
        }
    }
    proof {
        assert(done + Seq::<Seq<char>>::empty() =~= done);
    }
}

} // verus!
