//! Laws of what entities, the world and lists of detail textures refer to.
use crate::collect::{companion_paths, map_paths, server_paths};
use crate::details::{detail_file, detail_of_line, detail_paths, details_of_lines, named_before};
use crate::entities::EntityMap;
use crate::laws::strings::turned;
use crate::models::{all_siblings, contents, models_in};
use crate::paths::{normalized, slashed, QueueMap};
use crate::references::{entity_paths, pair_paths, raw_paths, value_paths};
use crate::server::{located, FileView, ServerMap};
use crate::table::{lemma_listed, lemma_map_of_at, listable, listing};
use crate::text::{after_last, lines, lowercase, second_word, split, trim};
use crate::world::{sky_paths, wad_names, world, worldspawn_paths};
use vstd::prelude::*;
use vstd::utf8::{decode_utf8, valid_utf8};

verus! {

// ---------------------------------------------------------------------------
// Values of entities
// ---------------------------------------------------------------------------

/// Whether `low` ends in a dot and the three given characters.
pub open spec fn ends_in(low: Seq<char>, a: char, b: char, c: char) -> bool {
    let n = low.len();
    n >= 4 && low[n - 4] == '.' && low[n - 3] == a && low[n - 2] == b && low[n - 1] == c
}

/// Whether `value` names a sound, a model or a sprite in a file of its own: it has one
/// of their extensions, and is no number behind an asterisk.
pub open spec fn refers(value: Seq<char>) -> bool {
    let low = lowercase(value);
    &&& ends_in(low, 'w', 'a', 'v') || ends_in(low, 'm', 'd', 'l') || ends_in(low, 's', 'p', 'r')
    &&& !(value.len() >= 2 && value[0] == '*' && '0' <= value[1] <= '9')
    &&& value.len() > 0
}

proof fn lemma_ends_in(low: Seq<char>)
    ensures
        ends_in(low, 'w', 'a', 'v') <==> ".wav"@.is_suffix_of(low),
        ends_in(low, 'm', 'd', 'l') <==> ".mdl"@.is_suffix_of(low),
        ends_in(low, 's', 'p', 'r') <==> ".spr"@.is_suffix_of(low),
{
    reveal_strlit(".wav");
    reveal_strlit(".mdl");
    reveal_strlit(".spr");
    let n = low.len();
    if n >= 4 {
        let end = low.subrange(n - 4, n as int);
        assert(end[0] == low[n - 4] && end[1] == low[n - 3] && end[2] == low[n - 2] && end[3]
            == low[n - 1]);
        if ends_in(low, 'w', 'a', 'v') {
            assert(".wav"@ =~= end);
        }
        if ends_in(low, 'm', 'd', 'l') {
            assert(".mdl"@ =~= end);
        }
        if ends_in(low, 's', 'p', 'r') {
            assert(".spr"@ =~= end);
        }
    }
}

/// A value refers to the file that it names, where it names one, and to no other.
pub proof fn law_value_refers_to_its_file(value: Seq<char>)
    ensures
        value_paths(value, lowercase(value)) == if refers(value) {
            seq![normalized(value)]
        } else {
            Seq::empty()
        },
{
    lemma_ends_in(lowercase(value));
}

proof fn lemma_pair_paths(pairs: Seq<(Seq<char>, Seq<char>)>, path: Seq<char>)
    ensures
        pair_paths(pairs).contains(path) <==> exists|i: int|
            0 <= i < pairs.len() && refers((#[trigger] pairs[i]).1) && path == normalized(
                pairs[i].1,
            ),
    decreases pairs.len(),
{
    if pairs.len() > 0 {
        let init = pairs.drop_last();
        let value = pairs.last().1;
        let n = pairs.len() - 1;
        lemma_pair_paths(init, path);
        law_value_refers_to_its_file(value);
        let own = value_paths(value, lowercase(value));
        let before = pair_paths(init);
        if before.contains(path) {
            let k = choose|k: int| 0 <= k < before.len() && before[k] == path;
            assert((before + own)[k] == path);
            let i = choose|i: int|
                0 <= i < init.len() && refers((#[trigger] init[i]).1) && path == normalized(
                    init[i].1,
                );
            assert(pairs[i] == init[i]);
        }
        if own.contains(path) {
            assert(own[0] == path);
            assert((before + own)[before.len() as int] == path);
            assert(pairs[n].1 == value);
        }
        if (before + own).contains(path) && !before.contains(path) {
            let k = choose|k: int| 0 <= k < (before + own).len() && (before + own)[k] == path;
            if k < before.len() {
                assert(before[k] == path);
            }
            assert(own[k - before.len()] == path);
            assert(own.contains(path));
        }
        if exists|i: int|
            0 <= i < pairs.len() && refers((#[trigger] pairs[i]).1) && path == normalized(
                pairs[i].1,
            ) {
            let i = choose|i: int|
                0 <= i < pairs.len() && refers((#[trigger] pairs[i]).1) && path == normalized(
                    pairs[i].1,
                );
            if i < n {
                assert(init[i] == pairs[i]);
            } else {
                assert(own[0] == path);
            }
        }
    }
}

/// Whether one of the values of `entity` refers to `path`.
pub open spec fn entity_refers(entity: EntityMap, path: Seq<char>) -> bool {
    exists|key: Seq<char>| #[trigger]
        entity.contains_key(key) && refers(entity[key]) && path == normalized(entity[key])
}

proof fn lemma_entity_refers(entity: EntityMap, path: Seq<char>)
    requires
        listable(entity),
    ensures
        pair_paths(listing(entity)).contains(path) <==> entity_refers(entity, path),
{
    let pairs = listing(entity);
    lemma_pair_paths(pairs, path);
    if pair_paths(pairs).contains(path) {
        let i = choose|i: int|
            0 <= i < pairs.len() && refers((#[trigger] pairs[i]).1) && path == normalized(
                pairs[i].1,
            );
        lemma_map_of_at(pairs, i);
        assert(entity.contains_key(pairs[i].0));
    }
    if entity_refers(entity, path) {
        let key = choose|key: Seq<char>| #[trigger]
            entity.contains_key(key) && refers(entity[key]) && path == normalized(entity[key]);
        let i = lemma_listed(entity, key);
        assert(pairs[i].1 == entity[key]);
    }
}

/// Every value of every entity that names a file is collected, under whatever key it
/// stands; and every path that is collected is that of such a value.
pub proof fn law_every_value_is_collected(entities: Seq<EntityMap>, path: Seq<char>)
    requires
        forall|i: int| 0 <= i < entities.len() ==> listable(#[trigger] entities[i]),
    ensures
        entity_paths(entities).contains(path) <==> exists|i: int|
            0 <= i < entities.len() && entity_refers(#[trigger] entities[i], path),
    decreases entities.len(),
{
    if entities.len() > 0 {
        let init = entities.drop_last();
        let n = entities.len() - 1;
        assert forall|i: int| 0 <= i < init.len() implies listable(#[trigger] init[i]) by {
            assert(init[i] == entities[i]);
        }
        law_every_value_is_collected(init, path);
        lemma_entity_refers(entities[n], path);
        let before = entity_paths(init);
        let own = pair_paths(listing(entities[n]));
        if before.contains(path) {
            let k = choose|k: int| 0 <= k < before.len() && before[k] == path;
            assert((before + own)[k] == path);
            let i = choose|i: int| 0 <= i < init.len() && entity_refers(#[trigger] init[i], path);
            assert(entities[i] == init[i]);
        }
        if own.contains(path) {
            let k = choose|k: int| 0 <= k < own.len() && own[k] == path;
            assert((before + own)[before.len() + k] == path);
        }
        if (before + own).contains(path) && !before.contains(path) {
            let k = choose|k: int| 0 <= k < (before + own).len() && (before + own)[k] == path;
            if k < before.len() {
                assert(before[k] == path);
            }
            assert(own[k - before.len()] == path);
            assert(own.contains(path));
        }
        if exists|i: int| 0 <= i < entities.len() && entity_refers(#[trigger] entities[i], path) {
            let i = choose|i: int|
                0 <= i < entities.len() && entity_refers(#[trigger] entities[i], path);
            if i < n {
                assert(init[i] == entities[i]);
            }
        }
    }
}

// ---------------------------------------------------------------------------
// The world
// ---------------------------------------------------------------------------

/// Whether `entity` is of the class of the world.
pub open spec fn is_the_world(entity: EntityMap) -> bool {
    entity.contains_key("classname"@) && entity["classname"@] == "worldspawn"@
}

proof fn lemma_world(entities: Seq<EntityMap>, i: int)
    requires
        0 <= i < entities.len(),
        is_the_world(entities[i]),
        forall|j: int| 0 <= j < i ==> !is_the_world(#[trigger] entities[j]),
    ensures
        world(entities) == Some(entities[i]),
    decreases entities.len(),
{
    if i > 0 {
        let rest = entities.drop_first();
        assert(!is_the_world(entities[0]));
        assert(rest[i - 1] == entities[i]);
        assert forall|j: int| 0 <= j < i - 1 implies !is_the_world(#[trigger] rest[j]) by {
            assert(rest[j] == entities[j + 1]);
        }
        lemma_world(rest, i - 1);
    }
}

proof fn lemma_no_world(entities: Seq<EntityMap>)
    requires
        forall|j: int| 0 <= j < entities.len() ==> !is_the_world(#[trigger] entities[j]),
    ensures
        world(entities) is None,
    decreases entities.len(),
{
    if entities.len() > 0 {
        let rest = entities.drop_first();
        assert(!is_the_world(entities[0]));
        assert forall|j: int| 0 <= j < rest.len() implies !is_the_world(#[trigger] rest[j]) by {
            assert(rest[j] == entities[j + 1]);
        }
        lemma_no_world(rest);
    }
}

/// The names of the texture archives in `list`: of each piece between semicolons what
/// follows its last slash.
pub open spec fn archives(list: Seq<char>) -> Seq<Seq<char>> {
    Seq::new(
        split(list, ';').len(),
        |j: int| after_last(turned(trim(split(list, ';')[j])), '/'),
    )
}

/// The picture of a face of the sky: the BMP file where the server has that and has no
/// TGA file, and else the TGA file.
pub open spec fn face(
    sky: Seq<char>,
    side: Seq<char>,
    server: Option<ServerMap>,
    dirs: Seq<Seq<char>>,
) -> Seq<char> {
    let tga = "gfx/env/"@ + sky + side + ".tga"@;
    let bmp = "gfx/env/"@ + sky + side + ".bmp"@;
    if server is Some && located(tga, server->0, dirs) is None && located(
        bmp,
        server->0,
        dirs,
    ) is Some {
        bmp
    } else {
        tga
    }
}

/// The pictures of the six faces of the sky.
pub open spec fn six_faces(
    sky: Seq<char>,
    server: Option<ServerMap>,
    dirs: Seq<Seq<char>>,
) -> Seq<Seq<char>> {
    seq![
        face(sky, "ft"@, server, dirs),
        face(sky, "bk"@, server, dirs),
        face(sky, "lf"@, server, dirs),
        face(sky, "rt"@, server, dirs),
        face(sky, "up"@, server, dirs),
        face(sky, "dn"@, server, dirs),
    ]
}

/// The value under `key` without white space around it; empty where there is none.
pub open spec fn trimmed_at(entity: EntityMap, key: Seq<char>) -> Seq<char> {
    if entity.contains_key(key) {
        trim(entity[key])
    } else {
        Seq::empty()
    }
}

/// The first entity of the class of the world refers to every texture archive that it
/// names, where textures are kept outside the map, and to the six faces of its sky.
pub proof fn law_world_refers_to_archives_and_sky(
    external_tex: bool,
    entities: Seq<EntityMap>,
    server: Option<ServerMap>,
    dirs: Seq<Seq<char>>,
    i: int,
)
    requires
        0 <= i < entities.len(),
        is_the_world(entities[i]),
        forall|j: int| 0 <= j < i ==> !is_the_world(#[trigger] entities[j]),
    ensures
        ({
            let w = entities[i];
            let wads = if external_tex && w.contains_key("wad"@) {
                archives(w["wad"@])
            } else {
                Seq::empty()
            };
            let first = trimmed_at(w, "skyname"@);
            let second = trimmed_at(w, "sky"@);
            let sky = if first.len() > 0 {
                six_faces(first, server, dirs)
            } else if second.len() > 0 {
                six_faces(second, server, dirs)
            } else {
                Seq::empty()
            };
            worldspawn_paths(external_tex, entities, server, dirs) == wads + sky
        }),
{
    lemma_world(entities, i);
    let w = entities[i];
    if w.contains_key("wad"@) {
        let list = w["wad"@];
        assert forall|j: int| 0 <= j < split(list, ';').len() implies #[trigger] wad_names(list)[j]
            == archives(list)[j] by {
            let piece = trim(split(list, ';')[j]);
            assert(slashed(piece) =~= turned(piece));
        }
        assert(wad_names(list) =~= archives(list));
    }
    let first = trimmed_at(w, "skyname"@);
    let second = trimmed_at(w, "sky"@);
    assert(sky_paths(first, server, dirs) =~= six_faces(first, server, dirs));
    assert(sky_paths(second, server, dirs) =~= six_faces(second, server, dirs));
}

/// Entities without a world refer to no texture archive and to no sky.
pub proof fn law_no_world_refers_to_nothing(
    external_tex: bool,
    entities: Seq<EntityMap>,
    server: Option<ServerMap>,
    dirs: Seq<Seq<char>>,
)
    requires
        forall|j: int| 0 <= j < entities.len() ==> !is_the_world(#[trigger] entities[j]),
    ensures
        worldspawn_paths(external_tex, entities, server, dirs) == Seq::<Seq<char>>::empty(),
{
    lemma_no_world(entities);
}

// ---------------------------------------------------------------------------
// Detail textures
// ---------------------------------------------------------------------------

/// Whether `line` names the detail texture `texture`: its second word, below `detail`,
/// on a line that is no comment.
pub open spec fn line_names(line: Seq<u8>, texture: Seq<char>) -> bool {
    let entry = trim(decode_utf8(line));
    let low = lowercase(texture);
    &&& valid_utf8(line)
    &&& entry.len() > 0
    &&& !(entry.len() >= 2 && entry[0] == '/' && entry[1] == '/')
    &&& texture == second_word(entry)
    &&& texture.len() > 0
    &&& low.len() >= 7 && low[0] == 'd' && low[1] == 'e' && low[2] == 't' && low[3] == 'a' && low[4]
        == 'i' && low[5] == 'l' && low[6] == '/'
}

proof fn lemma_line_names(line: Seq<u8>, texture: Seq<char>)
    ensures
        line_names(line, texture) <==> detail_of_line(line) == Some(texture),
{
    reveal_strlit("//");
    reveal_strlit("detail/");
    let entry = trim(decode_utf8(line));
    let t = second_word(entry);
    let low = lowercase(t);
    if low.len() >= 7 {
        let head = low.subrange(0, 7);
        assert(head[0] == low[0] && head[1] == low[1] && head[2] == low[2] && head[3] == low[3]
            && head[4] == low[4] && head[5] == low[5] && head[6] == low[6]);
        if low[0] == 'd' && low[1] == 'e' && low[2] == 't' && low[3] == 'a' && low[4] == 'i'
            && low[5] == 'l' && low[6] == '/' {
            assert("detail/"@ =~= head);
        }
    }
    if entry.len() >= 2 {
        let head = entry.subrange(0, 2);
        assert(head[0] == entry[0] && head[1] == entry[1]);
        if entry[0] == '/' && entry[1] == '/' {
            assert("//"@ =~= head);
        }
    }
}

proof fn lemma_details(all: Seq<Seq<u8>>, i: int, texture: Seq<char>)
    requires
        0 <= i < all.len(),
        line_names(all[i], texture),
    ensures
        exists|k: int|
            0 <= k < details_of_lines(all).len() && lowercase(#[trigger] details_of_lines(all)[k])
                == lowercase(texture),
        (forall|j: int, other: Seq<char>|
            0 <= j < i && #[trigger] line_names(all[j], other) ==> lowercase(other) != lowercase(
                texture,
            )) ==> details_of_lines(all).contains(texture),
    decreases all.len(),
{
    let init = all.drop_last();
    let n = all.len() - 1;
    let before = details_of_lines(init);
    let now = details_of_lines(all);
    lemma_line_names(all[i], texture);
    assert(forall|k: int| 0 <= k < before.len() ==> now[k] == before[k]);
    if i < n {
        assert(init[i] == all[i]);
        lemma_details(init, i, texture);
        let k = choose|k: int|
            0 <= k < before.len() && lowercase(#[trigger] before[k]) == lowercase(texture);
        assert(now[k] == before[k]);
        if forall|j: int, other: Seq<char>|
            0 <= j < i && #[trigger] line_names(all[j], other) ==> lowercase(other) != lowercase(
                texture,
            ) {
            assert forall|j: int, other: Seq<char>|
                0 <= j < i && #[trigger] line_names(init[j], other) implies lowercase(other)
                != lowercase(texture) by {
                assert(init[j] == all[j]);
                assert(line_names(all[j], other));
            }
            assert(before.contains(texture));
            let m = choose|m: int| 0 <= m < before.len() && before[m] == texture;
            assert(now[m] == texture);
        }
    } else {
        if named_before(before, texture) {
            let k = choose|k: int|
                0 <= k < before.len() && lowercase(#[trigger] before[k]) == lowercase(texture);
            assert(now[k] == before[k]);
            lemma_only_details(init, k);
            let j = choose|j: int| 0 <= j < init.len() && line_names(#[trigger] init[j], before[k]);
            assert(init[j] == all[j]);
            assert(line_names(all[j], before[k]));
        } else {
            assert(now[before.len() as int] == texture);
        }
    }
}

proof fn lemma_only_details(all: Seq<Seq<u8>>, k: int)
    requires
        0 <= k < details_of_lines(all).len(),
    ensures
        exists|i: int| 0 <= i < all.len() && line_names(#[trigger] all[i], details_of_lines(all)[k]),
    decreases all.len(),
{
    let init = all.drop_last();
    let n = all.len() - 1;
    let before = details_of_lines(init);
    let now = details_of_lines(all);
    if k < before.len() {
        lemma_only_details(init, k);
        assert(now[k] == before[k]);
        let i = choose|i: int| 0 <= i < init.len() && line_names(#[trigger] init[i], before[k]);
        assert(all[i] == init[i]);
    } else {
        lemma_line_names(all[n], now[k]);
    }
}

/// Every line of the list that names a detail texture makes its file collected: the one
/// that the line names where no line before it names the texture, and else the one that
/// is spelled as before.
pub proof fn law_every_detail_is_collected(data: Seq<u8>, i: int, texture: Seq<char>)
    requires
        0 <= i < lines(data, 10u8, 13u8).len(),
        line_names(lines(data, 10u8, 13u8)[i], texture),
    ensures
        exists|other: Seq<char>| #[trigger]
            detail_paths(data).contains("gfx/"@ + other + ".tga"@) && lowercase(other)
                == lowercase(texture),
        (forall|j: int, other: Seq<char>|
            0 <= j < i && #[trigger] line_names(lines(data, 10u8, 13u8)[j], other) ==> lowercase(
                other,
            ) != lowercase(texture)) ==> detail_paths(data).contains(
            "gfx/"@ + texture + ".tga"@,
        ),
{
    let all = lines(data, 10u8, 13u8);
    let names = details_of_lines(all);
    lemma_details(all, i, texture);
    let k = choose|k: int|
        0 <= k < names.len() && lowercase(#[trigger] names[k]) == lowercase(texture);
    assert(detail_paths(data)[k] == detail_file(names[k]));
    assert(detail_paths(data).contains("gfx/"@ + names[k] + ".tga"@));
    if names.contains(texture) {
        let m = choose|m: int| 0 <= m < names.len() && names[m] == texture;
        assert(detail_paths(data)[m] == detail_file(texture));
    }
}

/// Of the list nothing is collected but files of textures that its lines name.
pub proof fn law_only_details_are_collected(data: Seq<u8>, k: int)
    requires
        0 <= k < detail_paths(data).len(),
    ensures
        exists|i: int, texture: Seq<char>|
            0 <= i < lines(data, 10u8, 13u8).len() && #[trigger] line_names(
                lines(data, 10u8, 13u8)[i],
                texture,
            ) && detail_paths(data)[k] == "gfx/"@ + texture + ".tga"@,
{
    let all = lines(data, 10u8, 13u8);
    lemma_only_details(all, k);
    let i = choose|i: int|
        0 <= i < all.len() && line_names(#[trigger] all[i], details_of_lines(all)[k]);
    assert(line_names(all[i], details_of_lines(all)[k]));
}

// ---------------------------------------------------------------------------
// All of it
// ---------------------------------------------------------------------------

proof fn lemma_either<T>(a: Seq<T>, b: Seq<T>, x: T)
    ensures
        (a + b).contains(x) <==> a.contains(x) || b.contains(x),
{
    if a.contains(x) {
        let i = choose|i: int| 0 <= i < a.len() && a[i] == x;
        assert((a + b)[i] == x);
    }
    if b.contains(x) {
        let i = choose|i: int| 0 <= i < b.len() && b[i] == x;
        assert((a + b)[a.len() + i] == x);
    }
    if (a + b).contains(x) {
        let i = choose|i: int| 0 <= i < (a + b).len() && (a + b)[i] == x;
        if i < a.len() {
            assert(a[i] == x);
        } else {
            assert(b[i - a.len()] == x);
        }
    }
}

/// A map refers to what its world, its entities and its bytes refer to; the files that
/// can accompany it are added.
pub proof fn law_map_refers_to_all_of_it(
    data: Seq<u8>,
    external_tex: bool,
    entities: Seq<EntityMap>,
    mapname: Seq<char>,
    server: Option<ServerMap>,
    dirs: Seq<Seq<char>>,
    path: Seq<char>,
)
    ensures
        map_paths(data, external_tex, entities, mapname, server, dirs).contains(path) <==> {
            ||| worldspawn_paths(external_tex, entities, server, dirs).contains(path)
            ||| entity_paths(entities).contains(path)
            ||| raw_paths(data, 0).contains(path)
            ||| path == "maps/"@ + mapname + ".txt"@
            ||| path == "maps/"@ + mapname + "_detail.txt"@
            ||| path == "maps/"@ + mapname + ".nav"@
            ||| path == "maps/"@ + mapname + ".res"@
            ||| path == "overviews/"@ + mapname + ".bmp"@
            ||| path == "overviews/"@ + mapname + ".txt"@
        },
{
    let a = worldspawn_paths(external_tex, entities, server, dirs);
    let b = entity_paths(entities);
    let c = raw_paths(data, 0);
    let d = companion_paths(mapname);
    lemma_either(a, b, path);
    lemma_either(a + b, c, path);
    lemma_either(a + b + c, d, path);
    assert(d[0] == "maps/"@ + mapname + ".txt"@);
    assert(d[1] == "maps/"@ + mapname + "_detail.txt"@);
    assert(d[2] == "maps/"@ + mapname + ".nav"@);
    assert(d[3] == "maps/"@ + mapname + ".res"@);
    assert(d[4] == "overviews/"@ + mapname + ".bmp"@);
    assert(d[5] == "overviews/"@ + mapname + ".txt"@);
    if d.contains(path) {
        let i = choose|i: int| 0 <= i < d.len() && d[i] == path;
        assert(0 <= i < 6);
    }
}

/// Files on the server add what comes with the models in the queue, and what the list
/// of detail textures names, where it was read; without a server nothing is added.
pub proof fn law_server_adds_models_and_details(
    queue: QueueMap,
    mapname: Seq<char>,
    server: ServerMap,
    dirs: Seq<Seq<char>>,
    path: Seq<char>,
)
    ensures
        server_paths(queue, mapname, Some(server), dirs).contains(path) <==> {
            ||| all_siblings(models_in(queue), server, dirs).contains(path)
            ||| located("maps/"@ + mapname + "_detail.txt"@, server, dirs) matches Some(p)
                && server[p] matches FileView::Bytes(list) && detail_paths(list).contains(path)
        },
        server_paths(queue, mapname, None, dirs) == Seq::<Seq<char>>::empty(),
{
    let a = all_siblings(models_in(queue), server, dirs);
    let list = contents("maps/"@ + mapname + "_detail.txt"@, server, dirs);
    match list {
        Some(l) => {
            lemma_either(a, detail_paths(l), path);
        },
        None => {
            lemma_either(a, Seq::empty(), path);
        },
    }
}

} // verus!
