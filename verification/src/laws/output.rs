//! Laws of archives and resource lists.
use crate::archive::Entry;
use crate::clock::is_stamp;
use crate::collect::{map_paths, nav_file, res_file, server_paths};
use crate::laws::collecting::{agree_on, law_collected_can_be_walked, law_collected_is_a_queue};
use crate::laws::collecting::{law_everything_referred_to_is_collected, lemma_agree_located};
use crate::laws::queue::{is_install_path, is_queue, one_names};
use crate::list::{companion_keys, is_needed, list_text, needed, needed_of, path_lines};
use crate::pack::{count, distinct_names, fate, listed, map_file, packed, packs_res, plan};
use crate::pack::{plan_reports, reports, Fate, Kind, Pairs, Sources, Totals};
use crate::pack_map::{external_textures, map_entities, map_resources};
use crate::paths::{enqueued_all, QueueMap};
use crate::server::{located, ServerMap};
use crate::table::{ascending, lemma_listable_empty, lemma_listed, lemma_listing_remove};
use crate::table::{lemma_map_of_at, lemma_precedes_irreflexive, listable, listing, precedes};
use crate::text::{lemma_find_at, lines, lowercase, strip_cr};
use vstd::prelude::*;

verus! {

// ---------------------------------------------------------------------------
// What is packed
// ---------------------------------------------------------------------------

proof fn lemma_packed(pairs: Pairs, src: Sources, entry: Entry)
    ensures
        packed(pairs, src).contains(entry) <==> exists|i: int|
            0 <= i < pairs.len() && (#[trigger] pairs[i]).1 == entry.0 && fate(
                pairs[i].0,
                pairs[i].1,
                src,
            ) == Fate::Added(entry.1),
    decreases pairs.len(),
{
    if pairs.len() > 0 {
        let head = pairs.drop_last();
        let n = pairs.len() - 1;
        let before = packed(head, src);
        let after = packed(pairs, src);
        lemma_packed(head, src, entry);
        if after.contains(entry) {
            let k = choose|k: int| 0 <= k < after.len() && after[k] == entry;
            if k < before.len() {
                assert(before[k] == entry);
                assert(before.contains(entry));
                let i = choose|i: int|
                    0 <= i < head.len() && (#[trigger] head[i]).1 == entry.0 && fate(
                        head[i].0,
                        head[i].1,
                        src,
                    ) == Fate::Added(entry.1);
                assert(pairs[i] == head[i]);
            } else {
                assert(pairs[n].1 == entry.0);
            }
        }
        if exists|i: int|
            0 <= i < pairs.len() && (#[trigger] pairs[i]).1 == entry.0 && fate(
                pairs[i].0,
                pairs[i].1,
                src,
            ) == Fate::Added(entry.1) {
            let i = choose|i: int|
                0 <= i < pairs.len() && (#[trigger] pairs[i]).1 == entry.0 && fate(
                    pairs[i].0,
                    pairs[i].1,
                    src,
                ) == Fate::Added(entry.1);
            if i < n {
                assert(head[i] == pairs[i]);
                assert(before.contains(entry));
                let k = choose|k: int| 0 <= k < before.len() && before[k] == entry;
                assert(after[k] == entry);
            } else {
                assert(after[before.len() as int] == entry);
            }
        }
    }
}

/// A resource in the queue is packed, under its path and with the contents of its
/// file, exactly where it does not come with the game and its file can be read.
pub proof fn law_resource_is_packed(queue: QueueMap, src: Sources, key: Seq<char>, data: Seq<u8>)
    requires
        listable(queue),
        is_queue(queue),
        queue.contains_key(key),
    ensures
        packed(listing(queue), src).contains((queue[key], data)) <==> fate(key, queue[key], src)
            == Fate::Added(data),
{
    let pairs = listing(queue);
    let entry = (queue[key], data);
    lemma_packed(pairs, src, entry);
    let at = lemma_listed(queue, key);
    if packed(pairs, src).contains(entry) {
        let i = choose|i: int|
            0 <= i < pairs.len() && (#[trigger] pairs[i]).1 == entry.0 && fate(
                pairs[i].0,
                pairs[i].1,
                src,
            ) == Fate::Added(entry.1);
        lemma_map_of_at(pairs, i);
        assert(pairs[i].0 == key);
    }
    if fate(key, queue[key], src) == Fate::Added(data) {
        assert(pairs[at].1 == entry.0);
    }
}

/// Whatever is packed is a resource in the queue that does not come with the game,
/// under a correct install path, with the contents of its file.
pub proof fn law_nothing_else_is_packed(queue: QueueMap, src: Sources, entry: Entry)
    requires
        listable(queue),
        is_queue(queue),
        packed(listing(queue), src).contains(entry),
    ensures
        is_install_path(entry.0),
        queue.contains_key(lowercase(entry.0)),
        queue[lowercase(entry.0)] == entry.0,
        !src.vanilla.contains(lowercase(entry.0)),
        fate(lowercase(entry.0), entry.0, src) == Fate::Added(entry.1),
{
    let pairs = listing(queue);
    lemma_packed(pairs, src, entry);
    let i = choose|i: int|
        0 <= i < pairs.len() && (#[trigger] pairs[i]).1 == entry.0 && fate(
            pairs[i].0,
            pairs[i].1,
            src,
        ) == Fate::Added(entry.1);
    lemma_map_of_at(pairs, i);
    assert(queue.contains_key(pairs[i].0));
}

/// The archive of a map holds exactly what the map needs: a resource that the map
/// refers to, that can accompany it or that a file on the server adds is packed,
/// under its install path, where it does not come with the game and the server
/// has it.
pub proof fn law_archive_holds_what_the_map_needs(
    map_data: Seq<u8>,
    src: Sources,
    key: Seq<char>,
    data: Seq<u8>,
)
    ensures
        ({
            let queue = map_resources(map_data, src.mapname, Some(src.server), src.dirs);
            let direct = map_paths(
                map_data,
                external_textures(map_data),
                map_entities(map_data),
                src.mapname,
                Some(src.server),
                src.dirs,
            );
            let added = server_paths(
                enqueued_all(Map::empty(), direct),
                src.mapname,
                Some(src.server),
                src.dirs,
            );
            let rel = queue[key];
            &&& queue.contains_key(key) <==> one_names(direct, key) || one_names(added, key)
            &&& queue.contains_key(key) ==> is_install_path(rel) && lowercase(rel) == key
            &&& queue.contains_key(key) ==> (packed(listing(queue), src).contains((rel, data))
                <==> fate(key, rel, src) == Fate::Added(data))
        }),
{
    let none = QueueMap::empty();
    let tex = external_textures(map_data);
    let entities = map_entities(map_data);
    let server = Some(src.server);
    let queue = map_resources(map_data, src.mapname, server, src.dirs);
    lemma_listable_empty::<Seq<char>>();
    law_collected_is_a_queue(none, map_data, tex, entities, src.mapname, server, src.dirs);
    law_collected_can_be_walked(none, map_data, tex, entities, src.mapname, server, src.dirs);
    law_everything_referred_to_is_collected(
        none,
        map_data,
        tex,
        entities,
        src.mapname,
        server,
        src.dirs,
        key,
    );
    if queue.contains_key(key) {
        law_resource_is_packed(queue, src, key, data);
    }
}

proof fn lemma_packed_without(pairs: Pairs, src: Sources, at: int)
    requires
        0 <= at < pairs.len(),
        !(fate(pairs[at].0, pairs[at].1, src) is Added),
    ensures
        packed(pairs.remove(at), src) == packed(pairs, src),
        packs_res(pairs.remove(at), src) == packs_res(pairs, src),
    decreases pairs.len(),
{
    let less = pairs.remove(at);
    if at == pairs.len() - 1 {
        assert(less =~= pairs.drop_last());
    } else {
        lemma_packed_without(pairs.drop_last(), src, at);
        assert(less.drop_last() =~= pairs.drop_last().remove(at));
        assert(less.last() == pairs.last());
    }
    let res = lowercase(res_file(src.mapname));
    if packs_res(pairs, src) {
        let i = choose|i: int|
            0 <= i < pairs.len() && (#[trigger] pairs[i]).0 == res && fate(
                pairs[i].0,
                pairs[i].1,
                src,
            ) is Added;
        assert(less[if i < at { i } else { i - 1 }] == pairs[i]);
    }
    if packs_res(less, src) {
        let i = choose|i: int|
            0 <= i < less.len() && (#[trigger] less[i]).0 == res && fate(
                less[i].0,
                less[i].1,
                src,
            ) is Added;
        assert(pairs[if i < at { i } else { i + 1 }] == less[i]);
    }
}

/// A resource that is not packed, such as one that cannot be read, leaves no trace:
/// the archive is the one that is made without that resource in the queue.
pub proof fn law_unpacked_resource_leaves_no_trace(
    map_data: Seq<u8>,
    queue: QueueMap,
    src: Sources,
    stamp: Seq<char>,
    key: Seq<char>,
)
    requires
        listable(queue),
        queue.contains_key(key),
        !(fate(key, queue[key], src) is Added),
    ensures
        listable(queue.remove(key)),
        plan(map_data, listing(queue), src, stamp) == plan(
            map_data,
            listing(queue.remove(key)),
            src,
            stamp,
        ),
{
    let at = lemma_listing_remove(queue, key);
    lemma_packed_without(listing(queue), src, at);
}

proof fn lemma_packed_distinct(pairs: Pairs, src: Sources)
    requires
        ascending(pairs),
        forall|i: int| 0 <= i < pairs.len() ==> lowercase((#[trigger] pairs[i]).1) == pairs[i].0,
    ensures
        distinct_names(packed(pairs, src)),
    decreases pairs.len(),
{
    if pairs.len() > 0 {
        let head = pairs.drop_last();
        let n = pairs.len() - 1;
        assert forall|i: int, j: int| 0 <= i < j < head.len() implies precedes(
            (#[trigger] head[i]).0,
            (#[trigger] head[j]).0,
        ) by {
            assert(precedes(pairs[i].0, pairs[j].0));
        }
        assert forall|i: int| 0 <= i < head.len() implies lowercase((#[trigger] head[i]).1)
            == head[i].0 by {
            assert(head[i] == pairs[i]);
        }
        lemma_packed_distinct(head, src);
        let before = packed(head, src);
        let after = packed(pairs, src);
        assert forall|i: int, j: int| 0 <= i < j < after.len() implies (#[trigger] after[i]).0 != (
        #[trigger] after[j]).0 by {
            assert(before[i] == after[i]);
            if j < before.len() {
                assert(before[j] == after[j]);
            } else {
                assert(after[j].0 == pairs[n].1);
                lemma_packed(head, src, before[i]);
                assert(before.contains(before[i]));
                let k = choose|k: int|
                    0 <= k < head.len() && (#[trigger] head[k]).1 == before[i].0 && fate(
                        head[k].0,
                        head[k].1,
                        src,
                    ) == Fate::Added(before[i].1);
                assert(head[k] == pairs[k]);
                assert(precedes(pairs[k].0, pairs[n].0));
                lemma_precedes_irreflexive(pairs[n].0);
            }
        }
    }
}

/// The names in an archive are distinct, unless the queue holds the map itself: no
/// resource is packed twice, and a list is generated only where none is packed.
pub proof fn law_names_are_distinct(
    map_data: Seq<u8>,
    queue: QueueMap,
    src: Sources,
    stamp: Seq<char>,
)
    requires
        listable(queue),
        is_queue(queue),
        !queue.contains_key(lowercase(map_file(src.mapname))),
    ensures
        distinct_names(plan(map_data, listing(queue), src, stamp)),
{
    let pairs = listing(queue);
    assert forall|i: int| 0 <= i < pairs.len() implies lowercase((#[trigger] pairs[i]).1)
        == pairs[i].0 by {
        lemma_map_of_at(pairs, i);
        assert(queue.contains_key(pairs[i].0));
    }
    lemma_packed_distinct(pairs, src);
    let files = packed(pairs, src);
    let whole = plan(map_data, pairs, src, stamp);
    assert(map_file(src.mapname) != res_file(src.mapname)) by {
        reveal_strlit("maps/");
        reveal_strlit(".bsp");
        reveal_strlit(".res");
        assert(map_file(src.mapname).last() == ".bsp"@[3]);
        assert(res_file(src.mapname).last() == ".res"@[3]);
    }
    assert forall|i: int| 0 <= i < files.len() implies (#[trigger] files[i]).0 != map_file(
        src.mapname,
    ) && (packs_res(pairs, src) || files[i].0 != res_file(src.mapname)) by {
        assert(files.contains(files[i]));
        law_nothing_else_is_packed(queue, src, files[i]);
        let key = lowercase(files[i].0);
        let at = lemma_listed(queue, key);
        if files[i].0 == res_file(src.mapname) {
            assert(pairs[at].0 == lowercase(res_file(src.mapname)));
        }
    }
    assert forall|i: int, j: int| 0 <= i < j < whole.len() implies (#[trigger] whole[i]).0 != (
    #[trigger] whole[j]).0 by {
        if 0 < i {
            assert(whole[i] == files[i - 1]);
        }
        if j <= files.len() {
            assert(whole[j] == files[j - 1]);
        }
    }
}

// ---------------------------------------------------------------------------
// What is listed
// ---------------------------------------------------------------------------

proof fn lemma_needed(
    pairs: Pairs,
    mapname: Seq<char>,
    vanilla: Set<Seq<char>>,
    server: Option<ServerMap>,
    dirs: Seq<Seq<char>>,
    rel: Seq<char>,
)
    ensures
        needed_of(pairs, mapname, vanilla, server, dirs).contains(rel) <==> exists|i: int|
            0 <= i < pairs.len() && (#[trigger] pairs[i]).1 == rel && is_needed(
                pairs[i].0,
                rel,
                mapname,
                vanilla,
                server,
                dirs,
            ),
    decreases pairs.len(),
{
    if pairs.len() > 0 {
        let head = pairs.drop_last();
        let n = pairs.len() - 1;
        let before = needed_of(head, mapname, vanilla, server, dirs);
        let after = needed_of(pairs, mapname, vanilla, server, dirs);
        lemma_needed(head, mapname, vanilla, server, dirs, rel);
        if after.contains(rel) {
            let k = choose|k: int| 0 <= k < after.len() && after[k] == rel;
            if k < before.len() {
                assert(before[k] == rel);
                assert(before.contains(rel));
                let i = choose|i: int|
                    0 <= i < head.len() && (#[trigger] head[i]).1 == rel && is_needed(
                        head[i].0,
                        rel,
                        mapname,
                        vanilla,
                        server,
                        dirs,
                    );
                assert(pairs[i] == head[i]);
            } else {
                assert(pairs[n].1 == rel);
            }
        }
        if exists|i: int|
            0 <= i < pairs.len() && (#[trigger] pairs[i]).1 == rel && is_needed(
                pairs[i].0,
                rel,
                mapname,
                vanilla,
                server,
                dirs,
            ) {
            let i = choose|i: int|
                0 <= i < pairs.len() && (#[trigger] pairs[i]).1 == rel && is_needed(
                    pairs[i].0,
                    rel,
                    mapname,
                    vanilla,
                    server,
                    dirs,
                );
            if i < n {
                assert(head[i] == pairs[i]);
                assert(before.contains(rel));
                let k = choose|k: int| 0 <= k < before.len() && before[k] == rel;
                assert(after[k] == rel);
            } else {
                assert(after[before.len() as int] == rel);
            }
        }
    }
}

/// A resource in the queue is listed exactly where it is needed.
pub proof fn law_resource_is_listed(
    queue: QueueMap,
    mapname: Seq<char>,
    vanilla: Set<Seq<char>>,
    server: Option<ServerMap>,
    dirs: Seq<Seq<char>>,
    key: Seq<char>,
)
    requires
        listable(queue),
        is_queue(queue),
        queue.contains_key(key),
    ensures
        needed(queue, mapname, vanilla, server, dirs).contains(queue[key]) <==> is_needed(
            key,
            queue[key],
            mapname,
            vanilla,
            server,
            dirs,
        ),
{
    let pairs = listing(queue);
    let rel = queue[key];
    lemma_needed(pairs, mapname, vanilla, server, dirs, rel);
    let at = lemma_listed(queue, key);
    if needed(queue, mapname, vanilla, server, dirs).contains(rel) {
        let i = choose|i: int|
            0 <= i < pairs.len() && (#[trigger] pairs[i]).1 == rel && is_needed(
                pairs[i].0,
                rel,
                mapname,
                vanilla,
                server,
                dirs,
            );
        lemma_map_of_at(pairs, i);
        assert(pairs[i].0 == key);
    }
    if is_needed(key, rel, mapname, vanilla, server, dirs) {
        assert(pairs[at].1 == rel);
    }
}

/// Whatever is listed is a resource in the queue that is needed; in particular it
/// does not come with the game.
pub proof fn law_nothing_else_is_listed(
    queue: QueueMap,
    mapname: Seq<char>,
    vanilla: Set<Seq<char>>,
    server: Option<ServerMap>,
    dirs: Seq<Seq<char>>,
    rel: Seq<char>,
)
    requires
        listable(queue),
        is_queue(queue),
        needed(queue, mapname, vanilla, server, dirs).contains(rel),
    ensures
        is_install_path(rel),
        queue.contains_key(lowercase(rel)),
        queue[lowercase(rel)] == rel,
        !vanilla.contains(lowercase(rel)),
        is_needed(lowercase(rel), rel, mapname, vanilla, server, dirs),
{
    let pairs = listing(queue);
    lemma_needed(pairs, mapname, vanilla, server, dirs, rel);
    let i = choose|i: int|
        0 <= i < pairs.len() && (#[trigger] pairs[i]).1 == rel && is_needed(
            pairs[i].0,
            rel,
            mapname,
            vanilla,
            server,
            dirs,
        );
    lemma_map_of_at(pairs, i);
    assert(queue.contains_key(pairs[i].0));
}

/// The list of a map names exactly what the map needs: a resource that the map
/// refers to, that can accompany it or that a file on the server adds is listed
/// where it is needed.
pub proof fn law_list_names_what_the_map_needs(
    map_data: Seq<u8>,
    mapname: Seq<char>,
    vanilla: Set<Seq<char>>,
    server: Option<ServerMap>,
    dirs: Seq<Seq<char>>,
    key: Seq<char>,
)
    ensures
        ({
            let queue = map_resources(map_data, mapname, server, dirs);
            let direct = map_paths(
                map_data,
                external_textures(map_data),
                map_entities(map_data),
                mapname,
                server,
                dirs,
            );
            let added = server_paths(enqueued_all(Map::empty(), direct), mapname, server, dirs);
            let rel = queue[key];
            &&& queue.contains_key(key) <==> one_names(direct, key) || one_names(added, key)
            &&& queue.contains_key(key) ==> is_install_path(rel) && lowercase(rel) == key
            &&& queue.contains_key(key) ==> (needed(queue, mapname, vanilla, server, dirs).contains(
                rel,
            ) <==> is_needed(key, rel, mapname, vanilla, server, dirs))
        }),
{
    let none = QueueMap::empty();
    let tex = external_textures(map_data);
    let entities = map_entities(map_data);
    let queue = map_resources(map_data, mapname, server, dirs);
    lemma_listable_empty::<Seq<char>>();
    law_collected_is_a_queue(none, map_data, tex, entities, mapname, server, dirs);
    law_collected_can_be_walked(none, map_data, tex, entities, mapname, server, dirs);
    law_everything_referred_to_is_collected(
        none,
        map_data,
        tex,
        entities,
        mapname,
        server,
        dirs,
        key,
    );
    if queue.contains_key(key) {
        law_resource_is_listed(queue, mapname, vanilla, server, dirs, key);
    }
}

/// With a server, the list names what the archive would hold, and what it would
/// hold but for a failure to read it; save the map's navigation mesh and its
/// resource list.
pub proof fn law_list_and_archive_agree(key: Seq<char>, rel: Seq<char>, src: Sources)
    ensures
        is_needed(key, rel, src.mapname, src.vanilla, Some(src.server), src.dirs) <==> {
            &&& fate(key, rel, src) is Added || fate(key, rel, src) is Failed
            &&& key != lowercase(nav_file(src.mapname))
            &&& key != lowercase(res_file(src.mapname))
        },
{
}

proof fn lemma_lists_compared(
    pairs: Pairs,
    mapname: Seq<char>,
    vanilla: Set<Seq<char>>,
    server: ServerMap,
    dirs: Seq<Seq<char>>,
    other: Seq<Seq<char>>,
)
    requires
        forall|i: int| 0 <= i < pairs.len() ==> lowercase((#[trigger] pairs[i]).1) == pairs[i].0,
    ensures
        needed_of(pairs, mapname, vanilla, Some(server), dirs).filter(
            |rel: Seq<char>| !companion_keys(mapname).contains(lowercase(rel)),
        ) == needed_of(pairs, mapname, vanilla, None, other).filter(
            |rel: Seq<char>| located(rel, server, dirs) is Some,
        ),
    decreases pairs.len(),
{
    reveal(Seq::filter);
    if pairs.len() > 0 {
        let head = pairs.drop_last();
        assert forall|i: int| 0 <= i < head.len() implies lowercase((#[trigger] head[i]).1)
            == head[i].0 by {
            assert(head[i] == pairs[i]);
        }
        lemma_lists_compared(head, mapname, vanilla, server, dirs, other);
        let rel = pairs.last().1;
        assert(pairs[pairs.len() - 1] == pairs.last());
        let with = needed_of(head, mapname, vanilla, Some(server), dirs);
        let without = needed_of(head, mapname, vanilla, None, other);
        assert(with.push(rel).drop_last() =~= with);
        assert(without.push(rel).drop_last() =~= without);
    }
}

/// A list made with a server names, apart from the files that can accompany the map,
/// what a list made without one names and the server has, in the same order.
pub proof fn law_lists_with_and_without_server(
    queue: QueueMap,
    mapname: Seq<char>,
    vanilla: Set<Seq<char>>,
    server: ServerMap,
    dirs: Seq<Seq<char>>,
    other: Seq<Seq<char>>,
)
    requires
        listable(queue),
        is_queue(queue),
    ensures
        needed(queue, mapname, vanilla, Some(server), dirs).filter(
            |rel: Seq<char>| !companion_keys(mapname).contains(lowercase(rel)),
        ) == needed(queue, mapname, vanilla, None, other).filter(
            |rel: Seq<char>| located(rel, server, dirs) is Some,
        ),
{
    let pairs = listing(queue);
    assert forall|i: int| 0 <= i < pairs.len() implies lowercase((#[trigger] pairs[i]).1)
        == pairs[i].0 by {
        lemma_map_of_at(pairs, i);
        assert(queue.contains_key(pairs[i].0));
    }
    lemma_lists_compared(pairs, mapname, vanilla, server, dirs, other);
}

/// No list names the navigation mesh of the map or its resource list.
pub proof fn law_mesh_and_list_are_not_listed(
    queue: QueueMap,
    mapname: Seq<char>,
    vanilla: Set<Seq<char>>,
    server: Option<ServerMap>,
    dirs: Seq<Seq<char>>,
    rel: Seq<char>,
)
    requires
        listable(queue),
        is_queue(queue),
        lowercase(rel) == lowercase(nav_file(mapname)) || lowercase(rel) == lowercase(
            res_file(mapname),
        ),
    ensures
        !needed(queue, mapname, vanilla, server, dirs).contains(rel),
{
    if needed(queue, mapname, vanilla, server, dirs).contains(rel) {
        law_nothing_else_is_listed(queue, mapname, vanilla, server, dirs, rel);
    }
}

// ---------------------------------------------------------------------------
// What the output depends on
// ---------------------------------------------------------------------------

proof fn lemma_agree_fates(pairs: Pairs, src: Sources, other: ServerMap)
    requires
        forall|i: int|
            0 <= i < pairs.len() ==> agree_on(src.server, other, (#[trigger] pairs[i]).1, src.dirs),
    ensures
        ({
            let alt = Sources { server: other, ..src };
            &&& packed(pairs, src) == packed(pairs, alt)
            &&& reports(pairs, src) == reports(pairs, alt)
            &&& packs_res(pairs, src) == packs_res(pairs, alt)
            &&& needed_of(pairs, src.mapname, src.vanilla, Some(src.server), src.dirs)
                == needed_of(pairs, src.mapname, src.vanilla, Some(other), src.dirs)
        }),
    decreases pairs.len(),
{
    let alt = Sources { server: other, ..src };
    assert forall|i: int| 0 <= i < pairs.len() implies fate(
        (#[trigger] pairs[i]).0,
        pairs[i].1,
        src,
    ) == fate(pairs[i].0, pairs[i].1, alt) by {
        lemma_agree_located(src.server, other, pairs[i].1, src.dirs);
    }
    if pairs.len() > 0 {
        let head = pairs.drop_last();
        assert forall|i: int| 0 <= i < head.len() implies agree_on(
            src.server,
            other,
            (#[trigger] head[i]).1,
            src.dirs,
        ) by {
            assert(head[i] == pairs[i]);
        }
        lemma_agree_fates(head, src, other);
        assert(pairs.last() == pairs[pairs.len() - 1]);
        lemma_agree_located(src.server, other, pairs.last().1, src.dirs);
    }
    if packs_res(pairs, src) {
        let i = choose|i: int|
            0 <= i < pairs.len() && (#[trigger] pairs[i]).0 == lowercase(res_file(src.mapname))
                && fate(pairs[i].0, pairs[i].1, src) is Added;
        assert(fate(pairs[i].0, pairs[i].1, alt) is Added);
    }
    if packs_res(pairs, alt) {
        let i = choose|i: int|
            0 <= i < pairs.len() && (#[trigger] pairs[i]).0 == lowercase(res_file(src.mapname))
                && fate(pairs[i].0, pairs[i].1, alt) is Added;
        assert(fate(pairs[i].0, pairs[i].1, src) is Added);
    }
}

/// The archive, what is reported of it, and the list depend on the server only as
/// far as the paths of the resources go: servers that agree on these give the
/// same.
pub proof fn law_output_asks_for_the_resources(
    map_data: Seq<u8>,
    pairs: Pairs,
    src: Sources,
    other: ServerMap,
    stamp: Seq<char>,
)
    requires
        forall|i: int|
            0 <= i < pairs.len() ==> agree_on(src.server, other, (#[trigger] pairs[i]).1, src.dirs),
    ensures
        ({
            let alt = Sources { server: other, ..src };
            &&& plan(map_data, pairs, src, stamp) == plan(map_data, pairs, alt, stamp)
            &&& plan_reports(pairs, src) == plan_reports(pairs, alt)
            &&& needed_of(pairs, src.mapname, src.vanilla, Some(src.server), src.dirs)
                == needed_of(pairs, src.mapname, src.vanilla, Some(other), src.dirs)
        }),
{
    lemma_agree_fates(pairs, src, other);
}

// ---------------------------------------------------------------------------
// Numbers
// ---------------------------------------------------------------------------

/// Every resource meets one fate: the numbers of the five kinds add up. The number
/// of those packed is that of their entries.
pub proof fn law_counts_add_up(pairs: Pairs, src: Sources)
    ensures
        count(pairs, src, Kind::Vanilla) + count(pairs, src, Kind::Skipped) + count(
            pairs,
            src,
            Kind::Missing,
        ) + count(pairs, src, Kind::Failed) + count(pairs, src, Kind::Added) == pairs.len(),
        count(pairs, src, Kind::Added) == packed(pairs, src).len(),
    decreases pairs.len(),
{
    if pairs.len() > 0 {
        law_counts_add_up(pairs.drop_last(), src);
    }
}

/// The number of files that is reported is that of the entries of the archive.
pub proof fn law_reported_number_is_right(
    totals: Totals,
    map_data: Seq<u8>,
    pairs: Pairs,
    src: Sources,
    stamp: Seq<char>,
)
    requires
        totals.match_pairs(pairs, src),
    ensures
        totals.entries() == plan(map_data, pairs, src, stamp).len(),
{
    law_counts_add_up(pairs, src);
}

// ---------------------------------------------------------------------------
// The text of a list
// ---------------------------------------------------------------------------

/// A generated list names an entry exactly where it is no navigation mesh.
pub proof fn law_generated_list_is_exact(entries: Seq<Entry>, name: Seq<char>)
    ensures
        listed(entries).contains(name) <==> !".nav"@.is_suffix_of(lowercase(name)) && exists|i: int|
            0 <= i < entries.len() && (#[trigger] entries[i]).0 == name,
    decreases entries.len(),
{
    if entries.len() > 0 {
        let head = entries.drop_last();
        let n = entries.len() - 1;
        let before = listed(head);
        let after = listed(entries);
        law_generated_list_is_exact(head, name);
        if after.contains(name) {
            let k = choose|k: int| 0 <= k < after.len() && after[k] == name;
            if k < before.len() {
                assert(before[k] == name);
                assert(before.contains(name));
                let i = choose|i: int| 0 <= i < head.len() && (#[trigger] head[i]).0 == name;
                assert(entries[i] == head[i]);
            } else {
                assert(entries[n].0 == name);
            }
        }
        if !".nav"@.is_suffix_of(lowercase(name)) && exists|i: int|
            0 <= i < entries.len() && (#[trigger] entries[i]).0 == name {
            let i = choose|i: int| 0 <= i < entries.len() && (#[trigger] entries[i]).0 == name;
            if i < n {
                assert(head[i] == entries[i]);
                assert(before.contains(name));
                let k = choose|k: int| 0 <= k < before.len() && before[k] == name;
                assert(after[k] == name);
            } else {
                assert(after[before.len() as int] == name);
            }
        }
    }
}

/// Whether `s` fits on a line: it holds no line feed, and does not end in a
/// carriage return.
pub open spec fn fits_line(s: Seq<char>) -> bool {
    !s.contains('\n') && (s.len() > 0 ==> s.last() != '\r')
}

proof fn lemma_first_line(line: Seq<char>, rest: Seq<char>)
    requires
        fits_line(line),
    ensures
        lines(line + "\n"@ + rest, '\n', '\r') == seq![line] + lines(rest, '\n', '\r'),
{
    reveal_strlit("\n");
    let s = line + "\n"@ + rest;
    let k = line.len() as int;
    assert forall|j: int| 0 <= j < k implies s[j] != '\n' by {
        assert(s[j] == line[j]);
        assert(line.contains(line[j]));
    }
    assert(s[k] == '\n');
    lemma_find_at(s, '\n', k);
    assert(s.take(k) =~= line);
    assert(s.skip(k + 1) =~= rest);
    assert(strip_cr(line, '\r') == line);
}

proof fn lemma_path_lines_first(rels: Seq<Seq<char>>)
    requires
        rels.len() > 0,
    ensures
        path_lines(rels) == rels[0] + "\n"@ + path_lines(rels.drop_first()),
    decreases rels.len(),
{
    let none = Seq::<char>::empty();
    if rels.len() == 1 {
        assert(path_lines(rels.drop_last()) =~= none);
        assert(path_lines(rels.drop_first()) =~= none);
        assert(none + rels[0] + "\n"@ =~= rels[0] + "\n"@ + none);
    } else {
        lemma_path_lines_first(rels.drop_last());
        assert(rels.drop_last().drop_first() =~= rels.drop_first().drop_last());
        assert(rels.drop_first().last() == rels.last());
        let middle = path_lines(rels.drop_first().drop_last());
        assert(rels[0] + "\n"@ + middle + rels.last() + "\n"@ =~= rels[0] + "\n"@ + (middle
            + rels.last() + "\n"@));
    }
}

proof fn lemma_path_lines(rels: Seq<Seq<char>>)
    requires
        forall|i: int| 0 <= i < rels.len() ==> fits_line(#[trigger] rels[i]),
    ensures
        lines(path_lines(rels), '\n', '\r') == rels,
    decreases rels.len(),
{
    if rels.len() == 0 {
        assert(lines(path_lines(rels), '\n', '\r') =~= rels);
    } else {
        let rest = rels.drop_first();
        assert forall|i: int| 0 <= i < rest.len() implies fits_line(#[trigger] rest[i]) by {
            assert(rest[i] == rels[i + 1]);
        }
        lemma_path_lines(rest);
        lemma_path_lines_first(rels);
        lemma_first_line(rels[0], path_lines(rest));
        assert(seq![rels[0]] + rest =~= rels);
    }
}

/// A resource list is read back line by line: two comments, and then the paths, in
/// order. Only names that do not fit on a line are excepted.
pub proof fn law_list_reads_back(mapname: Seq<char>, stamp: Seq<char>, rels: Seq<Seq<char>>)
    requires
        !mapname.contains('\n'),
        is_stamp(stamp),
        forall|i: int| 0 <= i < rels.len() ==> fits_line(#[trigger] rels[i]),
    ensures
        lines(list_text(mapname, stamp, rels), '\n', '\r') == seq![
            "// resources for "@ + mapname + ".bsp"@,
            "// generated by packmap "@ + stamp,
        ] + rels,
{
    reveal_strlit("\n");
    reveal_strlit(".bsp");
    reveal_strlit(".bsp\n");
    reveal_strlit("// resources for ");
    reveal_strlit("// generated by packmap ");
    let first = "// resources for "@ + mapname + ".bsp"@;
    let second = "// generated by packmap "@ + stamp;
    let body = path_lines(rels);
    assert(".bsp\n"@ =~= ".bsp"@ + "\n"@);
    assert(list_text(mapname, stamp, rels) =~= first + "\n"@ + (second + "\n"@ + body));
    assert(!first.contains('\n')) by {
        if first.contains('\n') {
            let i = choose|i: int| 0 <= i < first.len() && first[i] == '\n';
            let a = "// resources for "@.len() as int;
            if a <= i < a + mapname.len() {
                assert(mapname[i - a] == '\n');
            }
        }
    }
    assert(first.last() == ".bsp"@[3]);
    assert(!second.contains('\n')) by {
        if second.contains('\n') {
            let i = choose|i: int| 0 <= i < second.len() && second[i] == '\n';
            let a = "// generated by packmap "@.len() as int;
            if a <= i {
                assert(stamp[i - a] == '\n');
            }
        }
    }
    assert(second.last() != '\r') by {
        if stamp.len() > 0 {
            assert(second.last() == stamp[stamp.len() - 1]);
        }
    }
    lemma_first_line(first, second + "\n"@ + body);
    lemma_first_line(second, body);
    lemma_path_lines(rels);
    assert(seq![first] + (seq![second] + rels) =~= seq![first, second] + rels);
}

} // verus!
