//! What the world of a map refers to: texture archives and the sky.
use crate::bsp::BspInfo;
use crate::entities::{entity_maps, Entity, EntityMap};
use crate::paths::{enqueue, enqueued_all, lemma_enqueued_concat, lemma_enqueued_push};
use crate::paths::{slashed, with_slashes, Queue};
use crate::server::{find_on_server, located, server_view, Server, ServerMap};
use crate::text::{after_last, concat4, same_text, split, split_text, text_after_last, texts};
use crate::text::{trim, trim_text};
use vstd::prelude::*;

verus! {

/// Whether `entity` is the world.
pub open spec fn is_world(entity: EntityMap) -> bool {
    entity.contains_key("classname"@) && entity["classname"@] == "worldspawn"@
}

/// The first entity that is the world.
pub open spec fn world(entities: Seq<EntityMap>) -> Option<EntityMap>
    decreases entities.len(),
{
    if entities.len() == 0 {
        None
    } else if is_world(entities[0]) {
        Some(entities[0])
    } else {
        world(entities.drop_first())
    }
}

/// The texture archive that is meant by a path of the machine that the map was
/// made on: only the file name counts.
pub open spec fn wad_name(path: Seq<char>) -> Seq<char> {
    after_last(slashed(path), '/')
}

/// The texture archives in a list that is separated by semicolons.
pub open spec fn wad_names(list: Seq<char>) -> Seq<Seq<char>> {
    split(list, ';').map_values(|piece: Seq<char>| wad_name(trim(piece)))
}

/// The sky that the key `key` of the world names.
pub open spec fn sky_at(world: EntityMap, key: Seq<char>) -> Option<Seq<char>> {
    if world.contains_key(key) && trim(world[key]).len() > 0 {
        Some(trim(world[key]))
    } else {
        None
    }
}

/// The sky of the world.
pub open spec fn sky_name(world: EntityMap) -> Option<Seq<char>> {
    match sky_at(world, "skyname"@) {
        Some(sky) => Some(sky),
        None => sky_at(world, "sky"@),
    }
}

/// The number of faces of a sky.
pub const SKY_FACES: usize = 6;

/// The suffix of the face `i`.
pub open spec fn face_suffix(i: int) -> Seq<char> {
    if i == 0 {
        "ft"@
    } else if i == 1 {
        "bk"@
    } else if i == 2 {
        "lf"@
    } else if i == 3 {
        "rt"@
    } else if i == 4 {
        "up"@
    } else {
        "dn"@
    }
}

/// The picture of the face `i` of a sky, in the format that `extension` tells.
pub open spec fn face_file(sky: Seq<char>, i: int, extension: Seq<char>) -> Seq<char> {
    "gfx/env/"@ + sky + face_suffix(i) + extension
}

/// The picture that is needed of the face `i` of a sky: the TGA file, unless the
/// server has the BMP file only.
pub open spec fn face_path(
    sky: Seq<char>,
    i: int,
    server: Option<ServerMap>,
    dirs: Seq<Seq<char>>,
) -> Seq<char> {
    let tga = face_file(sky, i, ".tga"@);
    let bmp = face_file(sky, i, ".bmp"@);
    match server {
        Some(s) if located(tga, s, dirs) is None && located(bmp, s, dirs) is Some => bmp,
        _ => tga,
    }
}

/// The pictures that are needed of a sky.
pub open spec fn sky_paths(
    sky: Seq<char>,
    server: Option<ServerMap>,
    dirs: Seq<Seq<char>>,
) -> Seq<Seq<char>> {
    Seq::new(SKY_FACES as nat, |i: int| face_path(sky, i, server, dirs))
}

/// The paths that the world refers to: its texture archives, where textures are
/// kept outside the map, and its sky.
pub open spec fn world_paths(
    external_tex: bool,
    world: EntityMap,
    server: Option<ServerMap>,
    dirs: Seq<Seq<char>>,
) -> Seq<Seq<char>> {
    let wads = if external_tex && world.contains_key("wad"@) {
        wad_names(world["wad"@])
    } else {
        Seq::empty()
    };
    let sky = match sky_name(world) {
        Some(name) => sky_paths(name, server, dirs),
        None => Seq::empty(),
    };
    wads + sky
}

/// The paths that the world among `entities` refers to.
pub open spec fn worldspawn_paths(
    external_tex: bool,
    entities: Seq<EntityMap>,
    server: Option<ServerMap>,
    dirs: Seq<Seq<char>>,
) -> Seq<Seq<char>> {
    match world(entities) {
        Some(w) => world_paths(external_tex, w, server, dirs),
        None => Seq::empty(),
    }
}

/// The first entity that is the world.
fn find_world(entities: &Vec<Entity>) -> (r: Option<&Entity>)
    ensures
        r is Some <==> world(entity_maps(entities@)) is Some,
        r matches Some(e) ==> world(entity_maps(entities@)) == Some(e@),
{
    let ghost all = entity_maps(entities@);
    let mut i: usize = 0;
    proof {
        assert(all.skip(0) =~= all);
    }
    while i < entities.len()
        invariant
            i <= entities@.len(),
            all == entity_maps(entities@),
            world(all.skip(i as int)) == world(all),
        decreases entities@.len() - i,
    {
        proof {
            assert(all.skip(i as int)[0] == entities@[i as int]@);
            assert(all.skip(i as int).drop_first() =~= all.skip(i + 1));
        }
        if let Some(class) = entities[i].get("classname") {
            if same_text(class.as_str(), "worldspawn") {
                return Some(&entities[i]);
            }
        }
        i += 1;
    }
    None
}

/// The suffix of the face `i`.
fn face_text(i: usize) -> (r: &'static str)
    ensures
        r@ == face_suffix(i as int),
{
    if i == 0 {
        "ft"
    } else if i == 1 {
        "bk"
    } else if i == 2 {
        "lf"
    } else if i == 3 {
        "rt"
    } else if i == 4 {
        "up"
    } else {
        "dn"
    }
}

/// The sky that the key `key` of the world names.
fn read_sky(world: &Entity, key: &str) -> (r: Option<String>)
    ensures
        r is Some <==> sky_at(world@, key@) is Some,
        r matches Some(sky) ==> sky_at(world@, key@) == Some(sky@),
{
    match world.get(key) {
        Some(value) => {
            let sky: String = trim_text(value.as_str());
            if sky.as_str().is_empty() {
                None
            } else {
                Some(sky)
            }
        },
        None => None,
    }
}

/// The sky of the world.
fn find_sky(world: &Entity) -> (r: Option<String>)
    ensures
        r is Some <==> sky_name(world@) is Some,
        r matches Some(sky) ==> sky_name(world@) == Some(sky@),
{
    match read_sky(world, "skyname") {
        Some(sky) => Some(sky),
        None => read_sky(world, "sky"),
    }
}

/// The texture archive that is meant by a path of the machine that the map was
/// made on.
pub fn text_wad_name(path: &str) -> (r: String)
    ensures
        r@ == wad_name(path@),
{
    let slashes: String = with_slashes(path);
    text_after_last(slashes.as_str(), '/')
}

/// Adds the texture archives of a list that is separated by semicolons.
fn collect_wads(list: &str, queue: &mut Queue)
    ensures
        final(queue)@ == enqueued_all(old(queue)@, wad_names(list@)),
{
    let pieces: Vec<String> = split_text(list, ';');
    let ghost names = wad_names(list@);
    let mut i: usize = 0;
    proof {
        assert(names.take(0) =~= Seq::empty());
    }
    while i < pieces.len()
        invariant
            i <= pieces@.len(),
            texts(pieces@) == split(list@, ';'),
            names == wad_names(list@),
            queue@ == enqueued_all(old(queue)@, names.take(i as int)),
        decreases pieces@.len() - i,
    {
        proof {
            assert(texts(pieces@)[i as int] == pieces@[i as int]@);
            assert(names.take(i + 1) =~= names.take(i as int).push(names[i as int]));
            lemma_enqueued_push(old(queue)@, names.take(i as int), names[i as int]);
        }
        let piece: String = trim_text(pieces[i].as_str());
        let name: String = text_wad_name(piece.as_str());
        enqueue(name.as_str(), queue);
        i += 1;
    }
    proof {
        assert(names.take(i as int) =~= names);
    }
}

/// The picture that is needed of the face `i` of a sky.
fn choose_face(sky: &str, i: usize, server: Option<&Server>, search_dirs: &Vec<String>) -> (r:
    String)
    ensures
        r@ == face_path(sky@, i as int, server_view(server), texts(search_dirs@)),
{
    let tga: String = concat4("gfx/env/", sky, face_text(i), ".tga");
    if let Some(s) = server {
        let bmp: String = concat4("gfx/env/", sky, face_text(i), ".bmp");
        if find_on_server(tga.as_str(), s, search_dirs).is_none() && find_on_server(
            bmp.as_str(),
            s,
            search_dirs,
        ).is_some() {
            return bmp;
        }
    }
    tga
}

/// Adds the pictures of a sky.
pub fn collect_sky(
    sky: &str,
    server: Option<&Server>,
    search_dirs: &Vec<String>,
    queue: &mut Queue,
)
    ensures
        final(queue)@ == enqueued_all(
            old(queue)@,
            sky_paths(sky@, server_view(server), texts(search_dirs@)),
        ),
{
    let ghost all = sky_paths(sky@, server_view(server), texts(search_dirs@));
    let mut i: usize = 0;
    proof {
        assert(all.take(0) =~= Seq::empty());
    }
    while i < SKY_FACES
        invariant
            i <= SKY_FACES,
            all == sky_paths(sky@, server_view(server), texts(search_dirs@)),
            queue@ == enqueued_all(old(queue)@, all.take(i as int)),
        decreases SKY_FACES - i,
    {
        let path: String = choose_face(sky, i, server, search_dirs);
        enqueue(path.as_str(), queue);
        proof {
            assert(all.take(i + 1) =~= all.take(i as int).push(path@));
            lemma_enqueued_push(old(queue)@, all.take(i as int), path@);
        }
        i += 1;
    }
    proof {
        assert(all.take(i as int) =~= all);
    }
}

/// Adds what the world refers to.
pub fn collect_worldspawn(
    info: &BspInfo,
    entities: &Vec<Entity>,
    server: Option<&Server>,
    search_dirs: &Vec<String>,
    queue: &mut Queue,
)
    ensures
        final(queue)@ == enqueued_all(
            old(queue)@,
            worldspawn_paths(
                info.has_external_tex,
                entity_maps(entities@),
                server_view(server),
                texts(search_dirs@),
            ),
        ),
{
    let world: &Entity = match find_world(entities) {
        Some(w) => w,
        None => {
            return;
        },
    };
    let ghost wads = if info.has_external_tex && world@.contains_key("wad"@) {
        wad_names(world@["wad"@])
    } else {
        Seq::empty()
    };
    if info.has_external_tex {
        if let Some(list) = world.get("wad") {
            collect_wads(list.as_str(), queue);
        }
    }
    proof {
        assert(queue@ == enqueued_all(old(queue)@, wads));
    }
    match find_sky(world) {
        Some(sky) => {
            collect_sky(sky.as_str(), server, search_dirs, queue);
            proof {
                lemma_enqueued_concat(
                    old(queue)@,
                    wads,
                    sky_paths(sky@, server_view(server), texts(search_dirs@)),
                );
            }
        },
        None => {
            proof {
                assert(wads + Seq::<Seq<char>>::empty() =~= wads);
            }
        },
    }
}

/// The pictures of the world's sky that the server is asked for: each face, in
/// either format.
pub open spec fn sky_lookups(entities: Seq<EntityMap>) -> Seq<Seq<char>> {
    let sky = match world(entities) {
        Some(w) => sky_name(w),
        None => None,
    };
    match sky {
        Some(name) => Seq::new(
            2 * SKY_FACES as nat,
            |i: int| face_file(name, i / 2, if i % 2 == 0 { ".tga"@ } else { ".bmp"@ }),
        ),
        None => Seq::empty(),
    }
}

/// The pictures of the world's sky that the server is asked for.
pub fn sky_candidates(entities: &Vec<Entity>) -> (r: Vec<String>)
    ensures
        texts(r@) == sky_lookups(entity_maps(entities@)),
{
    let mut r: Vec<String> = Vec::new();
    let ghost all = sky_lookups(entity_maps(entities@));
    if let Some(world) = find_world(entities) {
        if let Some(sky) = find_sky(world) {
            let mut i: usize = 0;
            while i < SKY_FACES
                invariant
                    i <= SKY_FACES,
                    all.len() == 2 * SKY_FACES,
                    forall|j: int|
                        0 <= j < all.len() ==> #[trigger] all[j] == face_file(
                            sky@,
                            j / 2,
                            if j % 2 == 0 {
                                ".tga"@
                            } else {
                                ".bmp"@
                            },
                        ),
                    texts(r@) == all.take(2 * i),
                decreases SKY_FACES - i,
            {
                let ghost before = r@;
                r.push(concat4("gfx/env/", sky.as_str(), face_text(i), ".tga"));
                r.push(concat4("gfx/env/", sky.as_str(), face_text(i), ".bmp"));
                proof {
                    assert(all[2 * i] == face_file(sky@, i as int, ".tga"@));
                    assert(all[2 * i + 1] == face_file(sky@, i as int, ".bmp"@));
                    assert(texts(r@) =~= texts(before).push(all[2 * i]).push(all[2 * i + 1]));
                    assert(texts(r@) =~= all.take(2 * (i + 1)));
                }
                i += 1;
            }
            proof {
                assert(all.take(2 * i) =~= all);
            }
            return r;
        }
    }
    proof {
        assert(texts(r@) =~= Seq::empty());
    }
    r
}

} // verus!
