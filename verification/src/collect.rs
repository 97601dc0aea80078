//! Collecting all resources of a map.
use crate::bsp::BspInfo;
use crate::details::{collect_detail_textures, detail_paths};
use crate::entities::{entity_maps, Entity, EntityMap};
use crate::models::{all_siblings, collect_model_siblings, contents, models_in, read_contents};
use crate::paths::{enqueue, enqueued_all, lemma_enqueued_concat, lemma_enqueued_push};
use crate::paths::{Queue, QueueMap};
use crate::references::{collect_entity_resources, collect_raw_scan, entity_paths, raw_paths};
use crate::server::{server_view, Server, ServerMap};
use crate::text::{concat3, texts};
use crate::world::{collect_worldspawn, worldspawn_paths};
use vstd::prelude::*;

verus! {

/// The files that can accompany a map: its description, the list of its detail
/// textures, its navigation mesh, its resource list, and picture and description
/// of its overview.
pub open spec fn companion_paths(mapname: Seq<char>) -> Seq<Seq<char>> {
    seq![
        "maps/"@ + mapname + ".txt"@,
        detail_list(mapname),
        nav_file(mapname),
        res_file(mapname),
        "overviews/"@ + mapname + ".bmp"@,
        "overviews/"@ + mapname + ".txt"@,
    ]
}

/// The list of the detail textures of a map.
pub open spec fn detail_list(mapname: Seq<char>) -> Seq<char> {
    "maps/"@ + mapname + "_detail.txt"@
}

/// The navigation mesh of a map.
pub open spec fn nav_file(mapname: Seq<char>) -> Seq<char> {
    "maps/"@ + mapname + ".nav"@
}

/// The resource list of a map.
pub open spec fn res_file(mapname: Seq<char>) -> Seq<char> {
    "maps/"@ + mapname + ".res"@
}

/// The files that can accompany a map.
pub fn companion_files(mapname: &str) -> (r: Vec<String>)
    ensures
        texts(r@) == companion_paths(mapname@),
{
    let mut r: Vec<String> = Vec::new();
    r.push(concat3("maps/", mapname, ".txt"));
    r.push(detail_list_path(mapname));
    r.push(concat3("maps/", mapname, ".nav"));
    r.push(concat3("maps/", mapname, ".res"));
    r.push(concat3("overviews/", mapname, ".bmp"));
    r.push(concat3("overviews/", mapname, ".txt"));
    proof {
        assert(texts(r@) =~= companion_paths(mapname@));
    }
    r
}

/// The list of the detail textures of a map.
pub fn detail_list_path(mapname: &str) -> (r: String)
    ensures
        r@ == detail_list(mapname@),
{
    concat3("maps/", mapname, "_detail.txt")
}

/// The paths that the map itself refers to, and the files that can accompany it.
pub open spec fn map_paths(
    data: Seq<u8>,
    external_tex: bool,
    entities: Seq<EntityMap>,
    mapname: Seq<char>,
    server: Option<ServerMap>,
    dirs: Seq<Seq<char>>,
) -> Seq<Seq<char>> {
    worldspawn_paths(external_tex, entities, server, dirs) + entity_paths(entities) + raw_paths(
        data,
        0,
    ) + companion_paths(mapname)
}

/// The paths that the files on the server add to the `queue`: those that come
/// with its models, and those that the list of detail textures names.
pub open spec fn server_paths(
    queue: QueueMap,
    mapname: Seq<char>,
    server: Option<ServerMap>,
    dirs: Seq<Seq<char>>,
) -> Seq<Seq<char>> {
    match server {
        Some(s) => all_siblings(models_in(queue), s, dirs) + match contents(
            detail_list(mapname),
            s,
            dirs,
        ) {
            Some(list) => detail_paths(list),
            None => Seq::empty(),
        },
        None => Seq::empty(),
    }
}

/// The queue after all resources of the map have been added.
pub open spec fn collected(
    queue: QueueMap,
    data: Seq<u8>,
    external_tex: bool,
    entities: Seq<EntityMap>,
    mapname: Seq<char>,
    server: Option<ServerMap>,
    dirs: Seq<Seq<char>>,
) -> QueueMap {
    let referred = enqueued_all(
        queue,
        map_paths(data, external_tex, entities, mapname, server, dirs),
    );
    enqueued_all(referred, server_paths(referred, mapname, server, dirs))
}

/// Adds the files that can accompany the map.
fn collect_companions(mapname: &str, queue: &mut Queue)
    ensures
        final(queue)@ == enqueued_all(old(queue)@, companion_paths(mapname@)),
{
    let files: Vec<String> = companion_files(mapname);
    let ghost all = companion_paths(mapname@);
    let mut i: usize = 0;
    proof {
        assert(all.take(0) =~= Seq::empty());
    }
    while i < files.len()
        invariant
            i <= files@.len(),
            texts(files@) == all,
            queue@ == enqueued_all(old(queue)@, all.take(i as int)),
        decreases files@.len() - i,
    {
        enqueue(files[i].as_str(), queue);
        proof {
            assert(all[i as int] == files@[i as int]@);
            assert(all.take(i + 1) =~= all.take(i as int).push(all[i as int]));
            lemma_enqueued_push(old(queue)@, all.take(i as int), all[i as int]);
        }
        i += 1;
    }
    proof {
        assert(all.take(i as int) =~= all);
    }
}

/// Adds what the files on the server add to the queue.
pub fn collect_server_resources(
    mapname: &str,
    server: Option<&Server>,
    search_dirs: &Vec<String>,
    queue: &mut Queue,
)
    ensures
        final(queue)@ == enqueued_all(
            old(queue)@,
            server_paths(old(queue)@, mapname@, server_view(server), texts(search_dirs@)),
        ),
{
    if let Some(s) = server {
        let ghost siblings = all_siblings(models_in(queue@), s@, texts(search_dirs@));
        collect_model_siblings(s, search_dirs, queue);
        let list: String = detail_list_path(mapname);
        match read_contents(list.as_str(), s, search_dirs) {
            Some(data) => {
                collect_detail_textures(data.as_slice(), queue);
                proof {
                    lemma_enqueued_concat(old(queue)@, siblings, detail_paths(data@));
                }
            },
            None => {
                proof {
                    assert(siblings + Seq::<Seq<char>>::empty() =~= siblings);
                }
            },
        }
    }
}

/// Adds all resources of the map to the queue: what its world, its entities and
/// its bytes refer to, the files that can accompany it, and, where there is a
/// server, what its files there add.
pub fn collect_resources(
    bsp_data: &[u8],
    info: &BspInfo,
    entities: &Vec<Entity>,
    mapname: &str,
    server: Option<&Server>,
    search_dirs: &Vec<String>,
    queue: &mut Queue,
)
    ensures
        final(queue)@ == collected(
            old(queue)@,
            bsp_data@,
            info.has_external_tex,
            entity_maps(entities@),
            mapname@,
            server_view(server),
            texts(search_dirs@),
        ),
{
    let ghost q = queue@;
    let ghost es = entity_maps(entities@);
    let ghost world = worldspawn_paths(
        info.has_external_tex,
        es,
        server_view(server),
        texts(search_dirs@),
    );
    collect_worldspawn(info, entities, server, search_dirs, queue);
    collect_entity_resources(entities, queue);
    collect_raw_scan(bsp_data, queue);
    collect_companions(mapname, queue);
    proof {
        lemma_enqueued_concat(q, world, entity_paths(es));
        lemma_enqueued_concat(q, world + entity_paths(es), raw_paths(bsp_data@, 0));
        lemma_enqueued_concat(
            q,
            world + entity_paths(es) + raw_paths(bsp_data@, 0),
            companion_paths(mapname@),
        );
    }
    collect_server_resources(mapname, server, search_dirs, queue);
}

} // verus!
