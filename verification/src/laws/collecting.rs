//! Laws of collecting the resources of a map.
use crate::collect::{collected, detail_list, map_paths, server_paths};
use crate::entities::EntityMap;
use crate::laws::queue::{is_queue, law_queue_can_be_walked, law_queue_holds_what_is_named};
use crate::laws::queue::{law_queue_stays_a_queue, one_names};
use crate::models::{all_siblings, contents, models_in};
use crate::paths::{enqueued_all, QueueMap};
use crate::plan::dirs_for;
use crate::server::{candidates, first_present, known_game_dir, located, ServerMap};
use crate::table::listable;
use crate::world::{face_file, face_path, face_suffix, sky_lookups, sky_name, sky_paths};
use crate::world::{world, worldspawn_paths, SKY_FACES};
use vstd::prelude::*;

verus! {

// ---------------------------------------------------------------------------
// Collecting
// ---------------------------------------------------------------------------

/// The collected resources are those that the map refers to or that can accompany
/// it, and those that files on the server add; none is lost and none is made up.
pub proof fn law_everything_referred_to_is_collected(
    queue: QueueMap,
    data: Seq<u8>,
    external_tex: bool,
    entities: Seq<EntityMap>,
    mapname: Seq<char>,
    server: Option<ServerMap>,
    dirs: Seq<Seq<char>>,
    key: Seq<char>,
)
    ensures
        ({
            let direct = map_paths(data, external_tex, entities, mapname, server, dirs);
            let added = server_paths(enqueued_all(queue, direct), mapname, server, dirs);
            collected(queue, data, external_tex, entities, mapname, server, dirs).contains_key(key)
                <==> queue.contains_key(key) || one_names(direct, key) || one_names(added, key)
        }),
{
    let direct = map_paths(data, external_tex, entities, mapname, server, dirs);
    let referred = enqueued_all(queue, direct);
    law_queue_holds_what_is_named(queue, direct, key);
    law_queue_holds_what_is_named(referred, server_paths(referred, mapname, server, dirs), key);
}

/// The collected resources are install paths, each under its lowercase form.
pub proof fn law_collected_is_a_queue(
    queue: QueueMap,
    data: Seq<u8>,
    external_tex: bool,
    entities: Seq<EntityMap>,
    mapname: Seq<char>,
    server: Option<ServerMap>,
    dirs: Seq<Seq<char>>,
)
    requires
        is_queue(queue),
    ensures
        is_queue(collected(queue, data, external_tex, entities, mapname, server, dirs)),
{
    let direct = map_paths(data, external_tex, entities, mapname, server, dirs);
    law_queue_stays_a_queue(queue, direct);
    let referred = enqueued_all(queue, direct);
    law_queue_stays_a_queue(referred, server_paths(referred, mapname, server, dirs));
}

/// The collected resources can be walked in the order of their lowercase forms.
pub proof fn law_collected_can_be_walked(
    queue: QueueMap,
    data: Seq<u8>,
    external_tex: bool,
    entities: Seq<EntityMap>,
    mapname: Seq<char>,
    server: Option<ServerMap>,
    dirs: Seq<Seq<char>>,
)
    requires
        listable(queue),
    ensures
        listable(collected(queue, data, external_tex, entities, mapname, server, dirs)),
{
    let direct = map_paths(data, external_tex, entities, mapname, server, dirs);
    law_queue_can_be_walked(queue, direct);
    let referred = enqueued_all(queue, direct);
    law_queue_can_be_walked(referred, server_paths(referred, mapname, server, dirs));
}

/// Of each face of a sky either the TGA or the BMP file is needed, never both.
pub proof fn law_one_picture_per_face(
    sky: Seq<char>,
    i: int,
    server: Option<ServerMap>,
    dirs: Seq<Seq<char>>,
)
    requires
        0 <= i < SKY_FACES,
    ensures
        sky_paths(sky, server, dirs).contains(face_file(sky, i, ".tga"@)) != sky_paths(
            sky,
            server,
            dirs,
        ).contains(face_file(sky, i, ".bmp"@)),
{
    let all = sky_paths(sky, server, dirs);
    assert(all[i] == face_path(sky, i, server, dirs));
    assert(all.contains(all[i]));
    let tga = face_file(sky, i, ".tga"@);
    let bmp = face_file(sky, i, ".bmp"@);
    assert(".tga"@ != ".bmp"@) by {
        reveal_strlit(".tga");
        reveal_strlit(".bmp");
        assert(".tga"@[1] != ".bmp"@[1]);
    }
    lemma_faces_differ(sky, i, ".tga"@, i, ".bmp"@);
    assert forall|j: int| 0 <= j < all.len() && (all[j] == tga || all[j] == bmp) implies j == i by {
        if j != i {
            lemma_faces_differ(sky, j, ".tga"@, i, ".tga"@);
            lemma_faces_differ(sky, j, ".tga"@, i, ".bmp"@);
            lemma_faces_differ(sky, j, ".bmp"@, i, ".tga"@);
            lemma_faces_differ(sky, j, ".bmp"@, i, ".bmp"@);
        }
    }
    if all.contains(tga) {
        let j = choose|j: int| 0 <= j < all.len() && all[j] == tga;
        assert(j == i);
    }
    if all.contains(bmp) {
        let j = choose|j: int| 0 <= j < all.len() && all[j] == bmp;
        assert(j == i);
    }
}

/// Pictures of different faces, or in different formats, have different paths.
proof fn lemma_faces_differ(sky: Seq<char>, i: int, a: Seq<char>, j: int, b: Seq<char>)
    requires
        0 <= i < SKY_FACES,
        0 <= j < SKY_FACES,
        a == ".tga"@ || a == ".bmp"@,
        b == ".tga"@ || b == ".bmp"@,
        i != j || a != b,
    ensures
        face_file(sky, i, a) != face_file(sky, j, b),
{
    reveal_strlit("gfx/env/");
    reveal_strlit("ft");
    reveal_strlit("bk");
    reveal_strlit("lf");
    reveal_strlit("rt");
    reveal_strlit("up");
    reveal_strlit("dn");
    reveal_strlit(".tga");
    reveal_strlit(".bmp");
    let x = face_file(sky, i, a);
    let y = face_file(sky, j, b);
    let at = 8 + sky.len() as int;
    assert(x[at] == face_suffix(i)[0] && x[at + 1] == face_suffix(i)[1]);
    assert(y[at] == face_suffix(j)[0] && y[at + 1] == face_suffix(j)[1]);
    assert(x[at + 3] == a[1]);
    assert(y[at + 3] == b[1]);
    if i == j {
        assert(a[1] != b[1]);
    } else {
        assert(face_suffix(i)[0] != face_suffix(j)[0] || face_suffix(i)[1] != face_suffix(j)[1]);
    }
}

// ---------------------------------------------------------------------------
// The server
// ---------------------------------------------------------------------------

/// A file is found at the first of its candidates at which there is one, and it
/// is not found only where there is none at any.
pub proof fn law_found_at_the_first_candidate(
    rel: Seq<char>,
    server: ServerMap,
    dirs: Seq<Seq<char>>,
)
    ensures
        match located(rel, server, dirs) {
            Some(path) => exists|i: int|
                {
                    &&& 0 <= i < candidates(rel, dirs).len()
                    &&& #[trigger] candidates(rel, dirs)[i] == path
                    &&& server.contains_key(path)
                    &&& forall|j: int|
                        0 <= j < i ==> !server.contains_key(#[trigger] candidates(rel, dirs)[j])
                },
            None => forall|i: int|
                0 <= i < candidates(rel, dirs).len() ==> !server.contains_key(
                    #[trigger] candidates(rel, dirs)[i],
                ),
        },
{
    lemma_first(server, candidates(rel, dirs));
}

proof fn lemma_first(server: ServerMap, paths: Seq<Seq<char>>)
    ensures
        match first_present(server, paths) {
            Some(path) => exists|i: int|
                {
                    &&& 0 <= i < paths.len()
                    &&& #[trigger] paths[i] == path
                    &&& server.contains_key(path)
                    &&& forall|j: int| 0 <= j < i ==> !server.contains_key(#[trigger] paths[j])
                },
            None => forall|i: int|
                0 <= i < paths.len() ==> !server.contains_key(#[trigger] paths[i]),
        },
    decreases paths.len(),
{
    if paths.len() > 0 {
        if server.contains_key(paths[0]) {
            assert(paths[0] == first_present(server, paths)->0);
        } else {
            let rest = paths.drop_first();
            lemma_first(server, rest);
            match first_present(server, rest) {
                Some(path) => {
                    let i = choose|i: int|
                        {
                            &&& 0 <= i < rest.len()
                            &&& #[trigger] rest[i] == path
                            &&& server.contains_key(path)
                            &&& forall|j: int|
                                0 <= j < i ==> !server.contains_key(#[trigger] rest[j])
                        };
                    assert(paths[i + 1] == path);
                    assert forall|j: int| 0 <= j < i + 1 implies !server.contains_key(
                        #[trigger] paths[j],
                    ) by {
                        if j > 0 {
                            assert(rest[j - 1] == paths[j]);
                        }
                    }
                },
                None => {
                    assert forall|i: int| 0 <= i < paths.len() implies !server.contains_key(
                        #[trigger] paths[i],
                    ) by {
                        if i > 0 {
                            assert(rest[i - 1] == paths[i]);
                        }
                    }
                },
            }
        }
    }
}

/// Whether the two servers are the same at all places where `rel` can be.
pub open spec fn agree_on(
    a: ServerMap,
    b: ServerMap,
    rel: Seq<char>,
    dirs: Seq<Seq<char>>,
) -> bool {
    forall|i: int|
        0 <= i < candidates(rel, dirs).len() ==> same_at(a, b, #[trigger] candidates(rel, dirs)[i])
}

/// Whether the two servers are the same at `path`.
pub open spec fn same_at(a: ServerMap, b: ServerMap, path: Seq<char>) -> bool {
    a.contains_key(path) == b.contains_key(path) && (a.contains_key(path) ==> a[path] == b[path])
}

/// Whether the two servers are the same at all places where one of `rels` can be.
pub open spec fn agree_on_all(
    a: ServerMap,
    b: ServerMap,
    rels: Seq<Seq<char>>,
    dirs: Seq<Seq<char>>,
) -> bool {
    forall|i: int| 0 <= i < rels.len() ==> agree_on(a, b, #[trigger] rels[i], dirs)
}

proof fn lemma_agree_first(a: ServerMap, b: ServerMap, paths: Seq<Seq<char>>)
    requires
        forall|i: int| 0 <= i < paths.len() ==> same_at(a, b, #[trigger] paths[i]),
    ensures
        first_present(a, paths) == first_present(b, paths),
        first_present(a, paths) matches Some(path) ==> a[path] == b[path],
    decreases paths.len(),
{
    if paths.len() > 0 {
        assert(same_at(a, b, paths[0]));
        let rest = paths.drop_first();
        assert forall|i: int| 0 <= i < rest.len() implies same_at(a, b, #[trigger] rest[i]) by {
            assert(rest[i] == paths[i + 1]);
        }
        lemma_agree_first(a, b, rest);
    }
}

/// Servers that agree on `rel` have it at the same place, with the same contents.
pub proof fn lemma_agree_located(a: ServerMap, b: ServerMap, rel: Seq<char>, dirs: Seq<Seq<char>>)
    requires
        agree_on(a, b, rel, dirs),
    ensures
        located(rel, a, dirs) == located(rel, b, dirs),
        contents(rel, a, dirs) == contents(rel, b, dirs),
        located(rel, a, dirs) matches Some(path) ==> a[path] == b[path],
{
    lemma_agree_first(a, b, candidates(rel, dirs));
}

proof fn lemma_agree_siblings(
    a: ServerMap,
    b: ServerMap,
    rels: Seq<Seq<char>>,
    dirs: Seq<Seq<char>>,
)
    requires
        agree_on_all(a, b, rels, dirs),
    ensures
        all_siblings(rels, a, dirs) == all_siblings(rels, b, dirs),
    decreases rels.len(),
{
    if rels.len() > 0 {
        let before = rels.drop_last();
        assert forall|i: int| 0 <= i < before.len() implies agree_on(a, b, #[trigger] before[i], dirs) by {
            assert(before[i] == rels[i]);
        }
        lemma_agree_siblings(a, b, before, dirs);
        assert(agree_on(a, b, rels[rels.len() - 1], dirs));
        lemma_agree_located(a, b, rels.last(), dirs);
    }
}

proof fn lemma_agree_world(
    external_tex: bool,
    entities: Seq<EntityMap>,
    a: ServerMap,
    b: ServerMap,
    dirs: Seq<Seq<char>>,
)
    requires
        agree_on_all(a, b, sky_lookups(entities), dirs),
    ensures
        worldspawn_paths(external_tex, entities, Some(a), dirs) == worldspawn_paths(
            external_tex,
            entities,
            Some(b),
            dirs,
        ),
{
    if let Some(w) = world(entities) {
        if let Some(sky) = sky_name(w) {
            let left = sky_paths(sky, Some(a), dirs);
            let right = sky_paths(sky, Some(b), dirs);
            let asked = sky_lookups(entities);
            assert forall|i: int| 0 <= i < SKY_FACES implies left[i] == right[i] by {
                assert(asked[2 * i] == face_file(sky, i, ".tga"@));
                assert(asked[2 * i + 1] == face_file(sky, i, ".bmp"@));
                lemma_agree_located(a, b, asked[2 * i], dirs);
                lemma_agree_located(a, b, asked[2 * i + 1], dirs);
            }
            assert(left =~= right);
        }
    }
}

/// Collecting asks the server for the pictures of the sky, for the models that
/// the map refers to and for the list of detail textures, and for nothing else:
/// servers that agree on these give the same resources.
pub proof fn law_collecting_asks_for_few_files(
    queue: QueueMap,
    data: Seq<u8>,
    external_tex: bool,
    entities: Seq<EntityMap>,
    mapname: Seq<char>,
    a: ServerMap,
    b: ServerMap,
    dirs: Seq<Seq<char>>,
)
    requires
        agree_on_all(a, b, sky_lookups(entities), dirs),
        agree_on_all(
            a,
            b,
            models_in(
                enqueued_all(
                    queue,
                    map_paths(data, external_tex, entities, mapname, Some(a), dirs),
                ),
            ),
            dirs,
        ),
        agree_on(a, b, detail_list(mapname), dirs),
    ensures
        collected(queue, data, external_tex, entities, mapname, Some(a), dirs) == collected(
            queue,
            data,
            external_tex,
            entities,
            mapname,
            Some(b),
            dirs,
        ),
{
    lemma_agree_world(external_tex, entities, a, b, dirs);
    let direct = map_paths(data, external_tex, entities, mapname, Some(a), dirs);
    lemma_agree_siblings(a, b, models_in(enqueued_all(queue, direct)), dirs);
    lemma_agree_located(a, b, detail_list(mapname), dirs);
}

proof fn lemma_no_siblings(rels: Seq<Seq<char>>, server: ServerMap, dirs: Seq<Seq<char>>)
    requires
        dirs.len() == 0,
    ensures
        all_siblings(rels, server, dirs) == Seq::<Seq<char>>::empty(),
    decreases rels.len(),
{
    if rels.len() > 0 {
        lemma_no_siblings(rels.drop_last(), server, dirs);
        assert(candidates(rels.last(), dirs) =~= Seq::empty());
        assert(all_siblings(rels, server, dirs) =~= Seq::empty());
    }
}

/// Where no directory is searched, a server makes no difference.
pub proof fn law_nothing_searched_is_no_server(
    queue: QueueMap,
    data: Seq<u8>,
    external_tex: bool,
    entities: Seq<EntityMap>,
    mapname: Seq<char>,
    server: ServerMap,
    dirs: Seq<Seq<char>>,
)
    requires
        dirs.len() == 0,
    ensures
        collected(queue, data, external_tex, entities, mapname, Some(server), dirs) == collected(
            queue,
            data,
            external_tex,
            entities,
            mapname,
            None,
            dirs,
        ),
{
    if let Some(w) = world(entities) {
        if let Some(sky) = sky_name(w) {
            let left = sky_paths(sky, Some(server), dirs);
            let right = sky_paths(sky, None, dirs);
            assert forall|i: int| 0 <= i < SKY_FACES implies left[i] == right[i] by {
                assert(candidates(face_file(sky, i, ".bmp"@), dirs) =~= Seq::empty());
            }
            assert(left =~= right);
        }
    }
    let direct = map_paths(data, external_tex, entities, mapname, Some(server), dirs);
    assert(direct == map_paths(data, external_tex, entities, mapname, None, dirs));
    let referred = enqueued_all(queue, direct);
    lemma_no_siblings(models_in(referred), server, dirs);
    assert(candidates(detail_list(mapname), dirs) =~= Seq::empty());
    assert(server_paths(referred, mapname, Some(server), dirs) =~= Seq::empty());
}

/// The directories that are searched are known game directories, and the one that
/// the map is in comes first.
pub proof fn law_known_dirs_are_searched(game_dir: Seq<char>)
    requires
        known_game_dir(game_dir),
    ensures
        dirs_for(game_dir).len() > 0,
        dirs_for(game_dir)[0] == game_dir,
        forall|i: int|
            0 <= i < dirs_for(game_dir).len() ==> known_game_dir(#[trigger] dirs_for(game_dir)[i]),
{
    reveal_strlit("_downloads");
    reveal_strlit("cstrike");
    reveal_strlit("cstrike_downloads");
    reveal_strlit("czero");
    reveal_strlit("czero_downloads");
    if "_downloads"@.is_suffix_of(game_dir) {
        let base = game_dir.take(game_dir.len() - 10);
        assert(dirs_for(game_dir)[1] == base);
        if game_dir == "cstrike_downloads"@ {
            assert(base =~= "cstrike"@);
        } else if game_dir == "czero_downloads"@ {
            assert(base =~= "czero"@);
        }
    }
}

} // verus!
