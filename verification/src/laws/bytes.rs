//! Laws of what is read from bytes: textures, entities and versions of a map, paths
//! anywhere in it, and headers of models.
//!
//! Positions and characters are written out here, so that each law says by itself
//! which bytes it means.
use crate::bsp::{bsp_complaint, lump_at, lump_text, scan_from, texture_scan};
use crate::bsp::{textures_addressable, BspLump, TextureScan};
use crate::laws::queue::{is_queue, law_queue_holds_what_is_named, names};
use crate::models::{all_siblings, contents, model_siblings, models_among, models_in};
use crate::models::{sibling_paths, stem};
use crate::pack_map::{external_textures, map_entities};
use crate::paths::{enqueued_all, extension_dot, has_extension, install_path, lemma_slashed_stable};
use crate::paths::{normalized, QueueMap};
use crate::references::{ascii_text, extension_at, lemma_run_end, path_byte, raw_paths, run_end};
use crate::server::{located, FileView, ServerMap};
use crate::table::{lemma_listed, lemma_map_of_at, listable, listing};
use crate::text::{decimal, lowercase, utf8_lossy, without};
use vstd::prelude::*;

verus! {

/// The number that the four bytes at `at` are the little-endian form of.
pub open spec fn number(s: Seq<u8>, at: int) -> int {
    s[at] + 256 * (s[at + 1] + 256 * (s[at + 2] + 256 * s[at + 3]))
}

// ---------------------------------------------------------------------------
// Textures
// ---------------------------------------------------------------------------

/// The entry of the texture `i` in the directory of the texture lump `tex`.
pub open spec fn entry_at(tex: Seq<u8>, i: int) -> int {
    number(tex, 4 + 4 * i)
}

/// Whether the directory of the texture lump `tex` has an entry for the texture `i`.
pub open spec fn has_texture(tex: Seq<u8>, i: int) -> bool {
    0 <= i < number(tex, 0) && 4 + 4 * i + 4 <= tex.len()
}

/// Whether the header of the texture `i`, of 40 bytes, lies inside the lump.
pub open spec fn inside(tex: Seq<u8>, i: int) -> bool {
    entry_at(tex, i) + 40 <= tex.len() && entry_at(tex, i) < 0x8000_0000
}

/// Whether the texture `i` is in the lump with its data.
pub open spec fn embedded(tex: Seq<u8>, i: int) -> bool {
    inside(tex, i) && number(tex, entry_at(tex, i) + 24) != 0
}

/// Whether the texture `i` is kept elsewhere: its entry is -1, or its header tells no
/// place of its first mip level.
pub open spec fn elsewhere(tex: Seq<u8>, i: int) -> bool {
    entry_at(tex, i) == 0xffff_ffff || (inside(tex, i) && number(tex, entry_at(tex, i) + 24) == 0)
}

proof fn lemma_scan(tex: Seq<u8>, i: int, n: int)
    requires
        0 <= i,
        tex.len() >= 4,
        n == number(tex, 0),
    ensures
        scan_from(tex, i, n) == TextureScan::External <==> exists|k: int|
            {
                &&& i <= k
                &&& #[trigger] has_texture(tex, k)
                &&& elsewhere(tex, k)
                &&& forall|j: int| i <= j < k ==> #[trigger] embedded(tex, j)
            },
        scan_from(tex, i, n) == TextureScan::Overflow <==> exists|k: int|
            {
                &&& i <= k
                &&& #[trigger] has_texture(tex, k)
                &&& 0xffff_ffd8 <= entry_at(tex, k) < 0xffff_ffff
                &&& forall|j: int| i <= j < k ==> #[trigger] embedded(tex, j)
            },
    decreases n - i,
{
    if i >= n || 8 + 4 * i > tex.len() {
        assert(forall|k: int| i <= k ==> !has_texture(tex, k));
    } else {
        assert(has_texture(tex, i));
        let e = entry_at(tex, i);
        assert(0 <= e <= 0xffff_ffff);
        if embedded(tex, i) {
            lemma_scan(tex, i + 1, n);
            assert(scan_from(tex, i, n) == scan_from(tex, i + 1, n));
            if exists|k: int|
                {
                    &&& i + 1 <= k
                    &&& #[trigger] has_texture(tex, k)
                    &&& elsewhere(tex, k)
                    &&& forall|j: int| i + 1 <= j < k ==> #[trigger] embedded(tex, j)
                } {
                let k = choose|k: int|
                    {
                        &&& i + 1 <= k
                        &&& #[trigger] has_texture(tex, k)
                        &&& elsewhere(tex, k)
                        &&& forall|j: int| i + 1 <= j < k ==> #[trigger] embedded(tex, j)
                    };
                assert forall|j: int| i <= j < k implies #[trigger] embedded(tex, j) by {}
                assert(has_texture(tex, k));
            }
            if exists|k: int|
                {
                    &&& i + 1 <= k
                    &&& #[trigger] has_texture(tex, k)
                    &&& 0xffff_ffd8 <= entry_at(tex, k) < 0xffff_ffff
                    &&& forall|j: int| i + 1 <= j < k ==> #[trigger] embedded(tex, j)
                } {
                let k = choose|k: int|
                    {
                        &&& i + 1 <= k
                        &&& #[trigger] has_texture(tex, k)
                        &&& 0xffff_ffd8 <= entry_at(tex, k) < 0xffff_ffff
                        &&& forall|j: int| i + 1 <= j < k ==> #[trigger] embedded(tex, j)
                    };
                assert forall|j: int| i <= j < k implies #[trigger] embedded(tex, j) by {}
                assert(has_texture(tex, k));
            }
        } else {
            assert forall|k: int| i < k && #[trigger] has_texture(tex, k) implies !(forall|j: int|
                i <= j < k ==> #[trigger] embedded(tex, j)) by {
                assert(!embedded(tex, i));
            }
        }
    }
}

/// A map uses textures kept outside exactly where there is a texture in the directory
/// that is kept elsewhere, and every one before it is in the map with its data.
pub proof fn law_external_textures(data: Seq<u8>, lump: BspLump)
    ensures
        ({
            let tex = data.subrange(lump.offset as int, lump.offset + lump.length);
            texture_scan(data, lump) == TextureScan::External <==> {
                &&& lump.offset + lump.length <= data.len()
                &&& lump.length >= 4
                &&& exists|i: int|
                    {
                        &&& #[trigger] has_texture(tex, i)
                        &&& elsewhere(tex, i)
                        &&& forall|j: int| 0 <= j < i ==> #[trigger] embedded(tex, j)
                    }
            }
        }),
{
    let tex = data.subrange(lump.offset as int, lump.offset + lump.length);
    if lump.offset + lump.length <= data.len() && lump.length >= 4 {
        lemma_scan(tex, 0, number(tex, 0));
    }
}

/// The walk through the textures is broken off exactly where there is one whose
/// entry lies between -40 and -2, and every one before it is in the map with its
/// data.
pub proof fn law_unaddressable_textures(data: Seq<u8>, lump: BspLump)
    ensures
        ({
            let tex = data.subrange(lump.offset as int, lump.offset + lump.length);
            texture_scan(data, lump) == TextureScan::Overflow <==> {
                &&& lump.offset + lump.length <= data.len()
                &&& lump.length >= 4
                &&& exists|i: int|
                    {
                        &&& #[trigger] has_texture(tex, i)
                        &&& 0xffff_ffd8 <= entry_at(tex, i) < 0xffff_ffff
                        &&& forall|j: int| 0 <= j < i ==> #[trigger] embedded(tex, j)
                    }
            }
        }),
{
    let tex = data.subrange(lump.offset as int, lump.offset + lump.length);
    if lump.offset + lump.length <= data.len() && lump.length >= 4 {
        lemma_scan(tex, 0, number(tex, 0));
    }
}

// ---------------------------------------------------------------------------
// The file
// ---------------------------------------------------------------------------

/// The directory tells place and length of the lump `i` in eight bytes from the byte
/// 4 + 8 * `i` on.
pub proof fn law_lumps_are_told_in_order(data: Seq<u8>, i: int)
    requires
        0 <= i < 15,
        data.len() >= 124,
    ensures
        lump_at(data, i).offset == number(data, 4 + 8 * i),
        lump_at(data, i).length == number(data, 8 + 8 * i),
{
}

/// A file is a map exactly where it begins with the number 30, has room for fifteen
/// lumps, and holds all of the first one.
pub proof fn law_maps_are_told_from_other_files(data: Seq<u8>)
    ensures
        bsp_complaint(data) is None <==> {
            &&& data.len() >= 124
            &&& data[0] == 30 && data[1] == 0 && data[2] == 0 && data[3] == 0
            &&& number(data, 4) + number(data, 8) <= data.len()
        },
{
}

/// The textures of a map can be walked through unless the walk meets an entry that
/// reaches beyond the largest offset.
pub proof fn law_textures_can_be_walked(data: Seq<u8>)
    ensures
        !textures_addressable(data) <==> {
            &&& data.len() >= 124
            &&& data[0] == 30 && data[1] == 0 && data[2] == 0 && data[3] == 0
            &&& texture_scan(
                data,
                (BspLump { offset: number(data, 20) as u32, length: number(data, 24) as u32 }),
            ) == TextureScan::Overflow
        },
{
    if data.len() >= 124 {
        law_lumps_are_told_in_order(data, 2);
    }
}

/// A file is refused for the first of four reasons that holds: it is shorter than a
/// version, has another one, is shorter than the directory of lumps, or than the text
/// of the entities reaches.
pub proof fn law_reasons_to_refuse_a_file(data: Seq<u8>)
    ensures
        bsp_complaint(data) == if data.len() < 4 {
            Some("Truncated BSP header"@)
        } else if number(data, 0) != 30 {
            Some("Not a GoldSrc BSP (version="@ + decimal(number(data, 0) as nat) + ", expected 30)"@)
        } else if data.len() < 124 {
            Some("BSP too small for lump directory"@)
        } else if number(data, 4) + number(data, 8) > data.len() {
            Some("Entity lump extends beyond BSP data"@)
        } else {
            None
        },
{
}

/// The entities of a map are those of the text in the first lump, without zeros; its
/// textures are in the third.
pub proof fn law_lumps_of_a_map(data: Seq<u8>)
    requires
        data.len() >= 124,
        number(data, 4) + number(data, 8) <= data.len(),
    ensures
        map_entities(data) == crate::entities::entities_of(
            without(
                utf8_lossy(data.subrange(number(data, 4), number(data, 4) + number(data, 8))),
                '\0',
            ),
        ),
        external_textures(data) == (texture_scan(
            data,
            (BspLump { offset: number(data, 20) as u32, length: number(data, 24) as u32 }),
        ) == TextureScan::External),
{
    assert(lump_at(data, 0).offset == number(data, 4));
    assert(lump_at(data, 0).length == number(data, 8));
    assert(lump_text(data, lump_at(data, 0)) == without(
        utf8_lossy(data.subrange(number(data, 4), number(data, 4) + number(data, 8))),
        '\0',
    ));
    assert(lump_at(data, 2) == (BspLump {
        offset: number(data, 20) as u32,
        length: number(data, 24) as u32,
    }));
}

// ---------------------------------------------------------------------------
// Paths in the bytes of the map
// ---------------------------------------------------------------------------

/// Whether `c` can be part of a path, apart from its extension.
pub open spec fn path_char(c: char) -> bool {
    ||| 'A' <= c <= 'Z'
    ||| 'a' <= c <= 'z'
    ||| '0' <= c <= '9'
    ||| c == '_'
    ||| c == '-'
    ||| c == '/'
    ||| c == '\\'
}

/// Whether the four characters are the extension of a sound, a model or a sprite.
pub open spec fn extension_chars(dot: char, a: char, b: char, c: char) -> bool {
    &&& dot == '.'
    &&& {
        ||| (a == 'w' || a == 'W') && (b == 'a' || b == 'A') && (c == 'v' || c == 'V')
        ||| (a == 'm' || a == 'M') && (b == 'd' || b == 'D') && (c == 'l' || c == 'L')
        ||| (a == 's' || a == 'S') && (b == 'p' || b == 'P') && (c == 'r' || c == 'R')
    }
}

/// Whether the bytes from `i` to before `j` are a path without its extension, which
/// follows, and no further character of a path follows that.
pub open spec fn path_between(data: Seq<u8>, i: int, j: int) -> bool {
    &&& 0 <= i && i + 2 <= j && j + 4 <= data.len()
    &&& forall|k: int| i <= k < j ==> path_char(#[trigger] data[k] as char)
    &&& extension_chars(
        data[j] as char,
        data[j + 1] as char,
        data[j + 2] as char,
        data[j + 3] as char,
    )
    &&& j + 4 < data.len() ==> !path_char(data[j + 4] as char)
}

/// The characters of the bytes from `i` to before `j`.
pub open spec fn chars_between(data: Seq<u8>, i: int, j: int) -> Seq<char> {
    Seq::new((j - i) as nat, |k: int| data[i + k] as char)
}

proof fn lemma_path_byte(b: u8)
    ensures
        path_byte(b) == path_char(b as char),
{
}

proof fn lemma_extension_at(data: Seq<u8>, at: int)
    requires
        0 <= at,
        at + 4 <= data.len(),
    ensures
        extension_at(data, at) == extension_chars(
            data[at] as char,
            data[at + 1] as char,
            data[at + 2] as char,
            data[at + 3] as char,
        ),
{
}

proof fn lemma_run_is(data: Seq<u8>, i: int, j: int)
    requires
        0 <= i <= j <= data.len(),
        forall|k: int| i <= k < j ==> path_char(#[trigger] data[k] as char),
        j < data.len() ==> !path_char(data[j] as char),
    ensures
        run_end(data, i) == j,
    decreases j - i,
{
    if i < data.len() {
        lemma_path_byte(data[i]);
    }
    if i < j {
        lemma_run_is(data, i + 1, j);
    }
}

proof fn lemma_found(data: Seq<u8>, from: int, i: int, j: int)
    requires
        0 <= from <= i,
        path_between(data, i, j),
        i > 0 ==> !path_char(data[i - 1] as char) && data[i - 1] as char != '.',
    ensures
        raw_paths(data, from).contains(normalized(chars_between(data, i, j + 4))),
    decreases i - from,
{
    let found = normalized(chars_between(data, i, j + 4));
    let end = run_end(data, from);
    lemma_run_end(data, from);
    if from == i {
        lemma_run_is(data, i, j);
        lemma_extension_at(data, j);
        if j + 4 < data.len() {
            lemma_path_byte(data[j + 4]);
        }
        assert(ascii_text(data.subrange(i, j + 4)) =~= chars_between(data, i, j + 4));
        assert(raw_paths(data, from)[0] == found);
    } else {
        lemma_path_byte(data[i - 1]);
        if end >= i {
            assert(path_byte(data[i - 1]));
        }
        let next = if end == from {
            from + 1
        } else if end - from < 2 || !extension_at(data, end) {
            end
        } else {
            end + 4
        };
        if extension_at(data, end) {
            assert(path_byte(data[end + 1]) && path_byte(data[end + 2]) && path_byte(
                data[end + 3],
            ));
            assert(data[end] as char == '.');
        }
        assert(next <= i);
        lemma_found(data, next, i, j);
        let rest = raw_paths(data, next);
        let k = choose|k: int| 0 <= k < rest.len() && rest[k] == found;
        if raw_paths(data, from) != rest {
            assert(raw_paths(data, from)[k + 1] == found);
        }
    }
}

/// Every path in the bytes of the map is found: two or more letters, digits,
/// underscores, hyphens or slashes, with the extension of a sound, a model or a
/// sprite, that begin the map or follow a byte that is neither part of a path nor a
/// dot, such as zero.
pub proof fn law_every_path_in_the_bytes_is_found(data: Seq<u8>, i: int, j: int)
    requires
        path_between(data, i, j),
        i > 0 ==> !path_char(data[i - 1] as char) && data[i - 1] as char != '.',
    ensures
        raw_paths(data, 0).contains(normalized(chars_between(data, i, j + 4))),
{
    lemma_found(data, 0, i, j);
}

/// Whether `path` is found between `i` and `j`.
pub open spec fn found_between(data: Seq<u8>, path: Seq<char>, i: int, j: int) -> bool {
    path_between(data, i, j) && path == normalized(chars_between(data, i, j + 4))
}

proof fn lemma_only_paths(data: Seq<u8>, from: int, k: int)
    requires
        0 <= from,
        0 <= k < raw_paths(data, from).len(),
    ensures
        exists|i: int, j: int| found_between(data, raw_paths(data, from)[k], i, j),
    decreases data.len() - from,
{
    let end = run_end(data, from);
    if from < data.len() {
        lemma_run_end(data, from);
        if end == from {
            lemma_only_paths(data, from + 1, k);
        } else if end - from < 2 || !extension_at(data, end) {
            lemma_only_paths(data, end, k);
        } else if end + 4 < data.len() && path_byte(data[end + 4]) {
            lemma_only_paths(data, end + 4, k);
        } else if k > 0 {
            lemma_only_paths(data, end + 4, k - 1);
            assert(raw_paths(data, from)[k] == raw_paths(data, end + 4)[k - 1]);
        } else {
            lemma_extension_at(data, end);
            assert forall|m: int| from <= m < end implies path_char(#[trigger] data[m] as char) by {
                lemma_path_byte(data[m]);
            }
            if end + 4 < data.len() {
                lemma_path_byte(data[end + 4]);
            }
            assert(ascii_text(data.subrange(from, end + 4)) =~= chars_between(data, from, end + 4));
            assert(found_between(data, raw_paths(data, from)[k], from, end));
        }
    }
}

/// Nothing else is found in the bytes of the map.
pub proof fn law_only_paths_in_the_bytes_are_found(data: Seq<u8>, k: int)
    requires
        0 <= k < raw_paths(data, 0).len(),
    ensures
        exists|i: int, j: int| found_between(data, raw_paths(data, 0)[k], i, j),
{
    lemma_only_paths(data, 0, k);
}

// ---------------------------------------------------------------------------
// Files that come with a model
// ---------------------------------------------------------------------------

/// Whether `h` is the header of a model.
pub open spec fn model_header(h: Seq<u8>) -> bool {
    &&& h.len() >= 184
    &&& h[0] as char == 'I' && h[1] as char == 'D' && h[2] as char == 'S' && h[3] as char == 'T'
}

/// `g` in decimal notation, with two digits at least.
pub open spec fn group_number(g: int) -> Seq<char> {
    if g < 10 {
        seq!['0', (48 + g) as char]
    } else {
        decimal(g as nat)
    }
}

/// `rel` without its last four characters, which are the extension of a model.
pub open spec fn model_name(rel: Seq<char>) -> Seq<char> {
    if rel.len() < 4 {
        Seq::empty()
    } else {
        rel.subrange(0, rel.len() - 4)
    }
}

/// Whether `path` comes with the model `rel` whose header is `h`: the file of its
/// textures, where it has none itself, or that of one of its sequence groups but the
/// first.
pub open spec fn comes_with(rel: Seq<char>, h: Seq<u8>, path: Seq<char>) -> bool {
    let name = model_name(rel);
    &&& model_header(h)
    &&& {
        ||| number(h, 180) == 0 && path == name + "T.mdl"@
        ||| exists|g: int|
            1 <= g < number(h, 172) < 0x8000_0000 && path == name + #[trigger] group_number(g)
                + ".mdl"@
    }
}

proof fn lemma_sibling_paths(rel: Seq<char>, h: Seq<u8>, path: Seq<char>)
    ensures
        sibling_paths(rel, h).contains(path) <==> comes_with(rel, h, path),
{
    assert(stem(rel) =~= model_name(rel));
    let all = sibling_paths(rel, h);
    let name = model_name(rel);
    if model_header(h) {
        let first: int = if number(h, 180) == 0 { 1 } else { 0 };
        let groups = number(h, 172);
        if comes_with(rel, h, path) {
            if number(h, 180) == 0 && path == name + "T.mdl"@ {
                assert(all[0] == path);
            } else {
                let g = choose|g: int|
                    1 <= g < number(h, 172) < 0x8000_0000 && path == name
                        + #[trigger] group_number(g) + ".mdl"@;
                assert(all[first + g - 1] == path);
            }
        }
        if all.contains(path) {
            let k = choose|k: int| 0 <= k < all.len() && all[k] == path;
            if k >= first {
                let g = k - first + 1;
                assert(path == name + group_number(g) + ".mdl"@);
                assert(1 <= g < groups < 0x8000_0000);
            }
        }
    }
}

/// Whether `path` comes with one of the models `rels` on the server.
pub open spec fn comes_with_one(
    rels: Seq<Seq<char>>,
    server: ServerMap,
    dirs: Seq<Seq<char>>,
    path: Seq<char>,
) -> bool {
    exists|i: int| 0 <= i < rels.len() && on_server_with(#[trigger] rels[i], server, dirs, path)
}

/// Whether the server has the model `rel`, and `path` comes with it.
pub open spec fn on_server_with(
    rel: Seq<char>,
    server: ServerMap,
    dirs: Seq<Seq<char>>,
    path: Seq<char>,
) -> bool {
    match located(rel, server, dirs) {
        Some(p) => server[p] matches FileView::Bytes(h) && comes_with(rel, h, path),
        None => false,
    }
}

proof fn lemma_all_siblings(
    rels: Seq<Seq<char>>,
    server: ServerMap,
    dirs: Seq<Seq<char>>,
    path: Seq<char>,
)
    ensures
        all_siblings(rels, server, dirs).contains(path) <==> comes_with_one(
            rels,
            server,
            dirs,
            path,
        ),
    decreases rels.len(),
{
    if rels.len() > 0 {
        let head = rels.drop_last();
        let n = rels.len() - 1;
        lemma_all_siblings(head, server, dirs, path);
        let before = all_siblings(head, server, dirs);
        let more = model_siblings(rels[n], server, dirs);
        let all = all_siblings(rels, server, dirs);
        assert(all == before + more);
        if let Some(h) = contents(rels[n], server, dirs) {
            lemma_sibling_paths(rels[n], h, path);
        }
        assert(more.contains(path) <==> on_server_with(rels[n], server, dirs, path));
        if all.contains(path) {
            let k = choose|k: int| 0 <= k < all.len() && all[k] == path;
            if k < before.len() {
                assert(before[k] == path);
                assert(before.contains(path));
                let i = choose|i: int|
                    0 <= i < head.len() && on_server_with(#[trigger] head[i], server, dirs, path);
                assert(rels[i] == head[i]);
            } else {
                assert(more[k - before.len()] == path);
            }
        }
        if comes_with_one(rels, server, dirs, path) {
            let i = choose|i: int|
                0 <= i < rels.len() && on_server_with(#[trigger] rels[i], server, dirs, path);
            if i < n {
                assert(head[i] == rels[i]);
                assert(before.contains(path));
                let k = choose|k: int| 0 <= k < before.len() && before[k] == path;
                assert(all[k] == path);
            } else {
                let k = choose|k: int| 0 <= k < more.len() && more[k] == path;
                assert(all[before.len() + k] == path);
            }
        }
    }
}

proof fn lemma_models_among(pairs: Seq<(Seq<char>, Seq<char>)>, rel: Seq<char>)
    ensures
        models_among(pairs).contains(rel) <==> ".mdl"@.is_suffix_of(lowercase(rel)) && exists|i: int|
            0 <= i < pairs.len() && (#[trigger] pairs[i]).1 == rel,
    decreases pairs.len(),
{
    if pairs.len() > 0 {
        let head = pairs.drop_last();
        let n = pairs.len() - 1;
        lemma_models_among(head, rel);
        let before = models_among(head);
        let all = models_among(pairs);
        if all.contains(rel) {
            let k = choose|k: int| 0 <= k < all.len() && all[k] == rel;
            if k < before.len() {
                assert(before[k] == rel);
                assert(before.contains(rel));
                let i = choose|i: int| 0 <= i < head.len() && (#[trigger] head[i]).1 == rel;
                assert(pairs[i] == head[i]);
            } else {
                assert(pairs[n].1 == rel);
            }
        }
        if ".mdl"@.is_suffix_of(lowercase(rel)) && exists|i: int|
            0 <= i < pairs.len() && (#[trigger] pairs[i]).1 == rel {
            let i = choose|i: int| 0 <= i < pairs.len() && (#[trigger] pairs[i]).1 == rel;
            if i < n {
                assert(head[i] == pairs[i]);
                assert(before.contains(rel));
                let k = choose|k: int| 0 <= k < before.len() && before[k] == rel;
                assert(all[k] == rel);
            } else {
                assert(all[before.len() as int] == rel);
            }
        }
    }
}

/// The models in the queue are the paths in it whose lowercase form ends in `.mdl`.
pub proof fn law_models_in_the_queue(queue: QueueMap, rel: Seq<char>)
    requires
        listable(queue),
    ensures
        models_in(queue).contains(rel) <==> ".mdl"@.is_suffix_of(lowercase(rel)) && exists|
            key: Seq<char>,
        | #[trigger] queue.contains_key(key) && queue[key] == rel,
{
    let pairs = listing(queue);
    lemma_models_among(pairs, rel);
    if exists|i: int| 0 <= i < pairs.len() && (#[trigger] pairs[i]).1 == rel {
        let i = choose|i: int| 0 <= i < pairs.len() && (#[trigger] pairs[i]).1 == rel;
        lemma_map_of_at(pairs, i);
        assert(queue.contains_key(pairs[i].0) && queue[pairs[i].0] == rel);
    }
    if exists|key: Seq<char>| #[trigger] queue.contains_key(key) && queue[key] == rel {
        let key = choose|key: Seq<char>| #[trigger] queue.contains_key(key) && queue[key] == rel;
        let i = lemma_listed(queue, key);
        assert(pairs[i].1 == rel);
    }
}

/// What a model in the queue comes with is in the queue afterwards, for every model
/// that the server has.
pub proof fn law_siblings_of_every_model_are_collected(
    queue: QueueMap,
    server: ServerMap,
    dirs: Seq<Seq<char>>,
    key: Seq<char>,
    path: Seq<char>,
)
    requires
        listable(queue),
        is_queue(queue),
        queue.contains_key(key),
        ".mdl"@.is_suffix_of(lowercase(queue[key])),
        on_server_with(queue[key], server, dirs, path),
    ensures
        enqueued_all(queue, all_siblings(models_in(queue), server, dirs)).contains_key(
            lowercase(path),
        ),
{
    let rel = queue[key];
    let rels = models_in(queue);
    let all = all_siblings(rels, server, dirs);
    law_models_in_the_queue(queue, rel);
    lemma_all_siblings(rels, server, dirs, path);
    let i = choose|i: int| 0 <= i < rels.len() && rels[i] == rel;
    assert(on_server_with(rels[i], server, dirs, path));
    assert(all.contains(path));
    let h = server[located(rel, server, dirs)->0]->Bytes_0;
    lemma_sibling_settled(rel, h, path);
    let k = choose|k: int| 0 <= k < all.len() && all[k] == path;
    assert(names(all[k], lowercase(path)));
    law_queue_holds_what_is_named(queue, all, lowercase(path));
}

/// Nothing else is added for the models in the queue.
pub proof fn law_only_siblings_are_collected(
    queue: QueueMap,
    server: ServerMap,
    dirs: Seq<Seq<char>>,
    path: Seq<char>,
)
    requires
        listable(queue),
        all_siblings(models_in(queue), server, dirs).contains(path),
    ensures
        exists|key: Seq<char>|
            {
                &&& #[trigger] queue.contains_key(key)
                &&& ".mdl"@.is_suffix_of(lowercase(queue[key]))
                &&& on_server_with(queue[key], server, dirs, path)
            },
{
    let rels = models_in(queue);
    lemma_all_siblings(rels, server, dirs, path);
    let i = choose|i: int|
        0 <= i < rels.len() && on_server_with(#[trigger] rels[i], server, dirs, path);
    assert(rels.contains(rels[i]));
    law_models_in_the_queue(queue, rels[i]);
    let key = choose|key: Seq<char>| #[trigger] queue.contains_key(key) && queue[key] == rels[i];
    assert(queue.contains_key(key));
}

/// What comes with a model has an install path as the model does.
proof fn lemma_sibling_settled(rel: Seq<char>, h: Seq<u8>, path: Seq<char>)
    requires
        rel.len() > 0,
        rel[0] != '/',
        !rel.contains('\\'),
        comes_with(rel, h, path),
    ensures
        install_path(path) == path,
        has_extension(path),
{
    reveal_strlit("T.mdl");
    reveal_strlit(".mdl");
    let name = model_name(rel);
    let n = path.len() as int;
    let tail = if number(h, 180) == 0 && path == name + "T.mdl"@ {
        "T.mdl"@
    } else {
        let g = choose|g: int|
            1 <= g < number(h, 172) < 0x8000_0000 && path == name + #[trigger] group_number(g)
                + ".mdl"@;
        lemma_decimal_digits(g as nat);
        assert forall|i: int| 0 <= i < group_number(g).len() implies '0' <= #[trigger] group_number(
            g,
        )[i] <= '9' by {
            if g >= 10 {
                assert('0' <= decimal(g as nat)[i] <= '9');
            }
        }
        assert(group_number(g).len() > 0);
        group_number(g) + ".mdl"@
    };
    assert(path =~= name + tail);
    assert(tail.len() >= 5);
    assert(forall|i: int| 0 <= i < tail.len() ==> tail[i] != '\\' && (i == 0 ==> tail[i] != '/'));
    assert(path[n - 4] == '.' && path[n - 3] == 'm' && path[n - 2] == 'd' && path[n - 1] == 'l');
    assert(extension_dot(path, n - 4));
    assert(!path.contains('\\')) by {
        if path.contains('\\') {
            let i = choose|i: int| 0 <= i < path.len() && path[i] == '\\';
            if i < name.len() {
                assert(rel[i] == '\\');
            } else {
                assert(tail[i - name.len()] == '\\');
            }
        }
    }
    lemma_slashed_stable(path);
    assert(path[0] != '/') by {
        if name.len() > 0 {
            assert(path[0] == rel[0]);
        } else {
            assert(path[0] == tail[0]);
        }
    }
}

proof fn lemma_decimal_digits(n: nat)
    ensures
        decimal(n).len() > 0,
        forall|i: int| 0 <= i < decimal(n).len() ==> '0' <= #[trigger] decimal(n)[i] <= '9',
    decreases n,
{
    if n >= 10 {
        lemma_decimal_digits(n / 10);
    }
}

} // verus!
