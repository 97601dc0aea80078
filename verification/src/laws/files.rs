//! Laws of where files are found, and of what is packed of them.
use crate::archive::Entry;
use crate::collect::companion_paths;
use crate::entities::{entity_maps, Entity};
use crate::laws::output::law_counts_add_up;
use crate::list::{companion_keys, list_text, Names};
use crate::pack::{count, fate, fate_of, file_view, listed, names_fit, packed, packs_res, plan};
use crate::pack::{plan_reports, report, reports, sources, Fate, Kind, Pairs, Sources, Totals};
use crate::pack_map::server_of;
use crate::paths::QueueMap;
use crate::plan::MapPlan;
use crate::server::{first_present, located, path_in, places, places_in, FileRead, FileView};
use crate::server::{Server, ServerMap};
use crate::table::{lemma_listed, listable, listing};
use crate::text::{after_last, lowercase, padded, texts};
use vstd::prelude::*;
use vstd::utf8::encode_utf8;

verus! {

// ---------------------------------------------------------------------------
// Where files are found
// ---------------------------------------------------------------------------

/// The path `rel` below the directory `dir`; an absolute path stays as it is.
pub open spec fn below(dir: Seq<char>, rel: Seq<char>) -> Seq<char> {
    if rel.len() > 0 && rel[0] == '/' {
        rel
    } else if dir.len() > 0 && dir[dir.len() - 1] != '/' {
        dir.push('/') + rel
    } else {
        dir + rel
    }
}

/// Whether `rel` ends in `.wad`, in letters of either case.
pub open spec fn names_a_wad(rel: Seq<char>) -> bool {
    let low = lowercase(rel);
    let n = low.len();
    n >= 4 && low[n - 4] == '.' && low[n - 3] == 'w' && low[n - 2] == 'a' && low[n - 1] == 'd'
}

/// Whether the directory `dir` of the server holds the file `rel`: at its path, or
/// where it is a texture archive, at the top of the directory.
pub open spec fn holds(dir: Seq<char>, rel: Seq<char>, server: ServerMap) -> bool {
    ||| server.contains_key(below(dir, rel))
    ||| names_a_wad(rel) && server.contains_key(below(dir, after_last(rel, '/')))
}

proof fn lemma_first_of_two(server: ServerMap, a: Seq<Seq<char>>, b: Seq<Seq<char>>)
    ensures
        first_present(server, a + b) == if first_present(server, a) is Some {
            first_present(server, a)
        } else {
            first_present(server, b)
        },
    decreases a.len(),
{
    if a.len() == 0 {
        assert(a + b =~= b);
    } else {
        lemma_first_of_two(server, a.drop_first(), b);
        assert((a + b).drop_first() =~= a.drop_first() + b);
    }
}

proof fn lemma_in_one(server: ServerMap, rel: Seq<char>, dir: Seq<char>)
    ensures
        first_present(server, places_in(rel, names_a_wad(rel), dir)) == if server.contains_key(
            below(dir, rel),
        ) {
            Some(below(dir, rel))
        } else if holds(dir, rel, server) {
            Some(below(dir, after_last(rel, '/')))
        } else {
            None
        },
{
    reveal_strlit("/");
    reveal_with_fuel(first_present, 3);
    assert(path_in(dir, rel) =~= below(dir, rel));
    let base = after_last(rel, '/');
    assert(path_in(dir, base) =~= below(dir, base));
    let all = places_in(rel, names_a_wad(rel), dir);
    if names_a_wad(rel) {
        assert(all.drop_first() =~= seq![below(dir, base)]);
    } else {
        assert(all.drop_first() =~= Seq::empty());
    }
}

proof fn lemma_in_none(server: ServerMap, rel: Seq<char>, dirs: Seq<Seq<char>>)
    requires
        forall|j: int| 0 <= j < dirs.len() ==> !holds(#[trigger] dirs[j], rel, server),
    ensures
        first_present(server, places(rel, names_a_wad(rel), dirs)) is None,
    decreases dirs.len(),
{
    if dirs.len() > 0 {
        let init = dirs.drop_last();
        assert forall|j: int| 0 <= j < init.len() implies !holds(#[trigger] init[j], rel, server) by {
            assert(init[j] == dirs[j]);
        }
        lemma_in_none(server, rel, init);
        let last = dirs[dirs.len() - 1];
        lemma_in_one(server, rel, last);
        lemma_first_of_two(
            server,
            places(rel, names_a_wad(rel), init),
            places_in(rel, names_a_wad(rel), last),
        );
    }
}

proof fn lemma_in_first(server: ServerMap, rel: Seq<char>, dirs: Seq<Seq<char>>, i: int)
    requires
        0 <= i < dirs.len(),
        holds(dirs[i], rel, server),
        forall|j: int| 0 <= j < i ==> !holds(#[trigger] dirs[j], rel, server),
    ensures
        first_present(server, places(rel, names_a_wad(rel), dirs)) == if server.contains_key(
            below(dirs[i], rel),
        ) {
            Some(below(dirs[i], rel))
        } else {
            Some(below(dirs[i], after_last(rel, '/')))
        },
    decreases dirs.len(),
{
    let init = dirs.drop_last();
    let last = dirs[dirs.len() - 1];
    assert forall|j: int| 0 <= j < i implies !holds(#[trigger] init[j], rel, server) by {
        assert(init[j] == dirs[j]);
    }
    lemma_in_one(server, rel, last);
    lemma_first_of_two(
        server,
        places(rel, names_a_wad(rel), init),
        places_in(rel, names_a_wad(rel), last),
    );
    if i == dirs.len() - 1 {
        lemma_in_none(server, rel, init);
    } else {
        assert(init[i] == dirs[i]);
        lemma_in_first(server, rel, init, i);
    }
}

proof fn lemma_wad(rel: Seq<char>)
    ensures
        names_a_wad(rel) <==> ".wad"@.is_suffix_of(lowercase(rel)),
{
    reveal_strlit(".wad");
    let low = lowercase(rel);
    let n = low.len();
    if names_a_wad(rel) {
        assert(".wad"@ =~= low.subrange(n - 4, n as int));
    }
    if ".wad"@.is_suffix_of(low) {
        let end = low.subrange(n - 4, n as int);
        assert(end[0] == low[n - 4] && end[1] == low[n - 3] && end[2] == low[n - 2] && end[3]
            == low[n - 1]);
    }
}

/// A file is found in the first of the directories that holds it: at its path there,
/// or else at the top of the directory.
pub proof fn law_first_directory_wins(
    rel: Seq<char>,
    server: ServerMap,
    dirs: Seq<Seq<char>>,
    i: int,
)
    requires
        0 <= i < dirs.len(),
        holds(dirs[i], rel, server),
        forall|j: int| 0 <= j < i ==> !holds(#[trigger] dirs[j], rel, server),
    ensures
        located(rel, server, dirs) == if server.contains_key(below(dirs[i], rel)) {
            Some(below(dirs[i], rel))
        } else {
            Some(below(dirs[i], after_last(rel, '/')))
        },
{
    lemma_wad(rel);
    lemma_in_first(server, rel, dirs, i);
}

/// A file that none of the directories holds is not found.
pub proof fn law_held_nowhere_is_not_found(
    rel: Seq<char>,
    server: ServerMap,
    dirs: Seq<Seq<char>>,
)
    requires
        forall|j: int| 0 <= j < dirs.len() ==> !holds(#[trigger] dirs[j], rel, server),
    ensures
        located(rel, server, dirs) is None,
{
    lemma_wad(rel);
    lemma_in_none(server, rel, dirs);
}

// ---------------------------------------------------------------------------
// What is handed in
// ---------------------------------------------------------------------------

/// What was read of a file is seen from the first byte to the last, and the reason of
/// a failure in full.
pub proof fn law_files_are_seen_whole(data: Vec<u8>, reason: String, read: FileRead)
    ensures
        FileRead::Bytes(data)@ == FileView::Bytes(data@),
        FileRead::Failed(reason)@ == FileView::Failed(reason@),
        file_view(Some(&read)) == Some(read@),
        file_view(None) is None,
        read matches FileRead::Bytes(bytes) ==> file_view(Some(&read)) == Some(
            FileView::Bytes(bytes@),
        ),
{
}

/// Texts are seen one by one, each in full; and so are entities.
pub proof fn law_texts_are_seen_whole(v: Seq<String>, entities: Seq<Entity>, i: int)
    ensures
        texts(v).len() == v.len(),
        0 <= i < v.len() ==> texts(v)[i] == v[i]@,
        entity_maps(entities).len() == entities.len(),
        0 <= i < entities.len() ==> entity_maps(entities)[i] == entities[i]@,
{
}

/// A map is packed from what is handed in: its name, the names that come with the
/// game, the files of the server and the directories.
pub proof fn law_sources_are_what_is_handed_in(
    mapname: &str,
    vanilla: &Names,
    server: &Server,
    search_dirs: &Vec<String>,
    name: Seq<char>,
    i: int,
)
    ensures
        ({
            let src = sources(mapname, vanilla, server, search_dirs);
            &&& src.mapname == mapname@
            &&& src.vanilla.contains(name) <==> vanilla@.contains_key(name)
            &&& src.server == server@
            &&& src.dirs.len() == search_dirs@.len()
            &&& 0 <= i < search_dirs@.len() ==> src.dirs[i] == search_dirs@[i]@
        }),
{
}

// ---------------------------------------------------------------------------
// What becomes of one resource
// ---------------------------------------------------------------------------

/// Whether the resource `rel` does not come with the game and is found on the server
/// in a file that was read, with the contents `data`.
pub open spec fn has_contents(key: Seq<char>, rel: Seq<char>, src: Sources, data: Seq<u8>) -> bool {
    &&& !src.vanilla.contains(key)
    &&& located(rel, src.server, src.dirs) matches Some(path) && src.server[path]
        == FileView::Bytes(data)
}

/// A resource is packed with all of the contents of its file, whatever these are; one
/// that comes with the game is left out; and a file that could not be read fails.
pub proof fn law_fate_of_one(data: Seq<u8>, reason: Seq<char>, companion: bool)
    ensures
        fate_of(false, Some(FileView::Bytes(data)), companion) == Fate::Added(data),
        fate_of(false, Some(FileView::Failed(reason)), companion) == Fate::Failed(reason),
        fate_of(false, None, true) == Fate::Skipped,
        fate_of(false, None, false) == Fate::Missing,
        fate_of(true, Some(FileView::Bytes(data)), companion) == Fate::Vanilla,
        fate_of(true, Some(FileView::Failed(reason)), companion) == Fate::Vanilla,
        fate_of(true, None, companion) == Fate::Vanilla,
{
}

/// Of one resource there is an entry where its file was read, under its path and with
/// the contents of the file from the first byte to the last; and none otherwise.
pub proof fn law_one_is_packed_whole(key: Seq<char>, rel: Seq<char>, src: Sources, data: Seq<u8>)
    ensures
        has_contents(key, rel, src, data) ==> packed(seq![(key, rel)], src) == seq![(rel, data)],
        (forall|d: Seq<u8>| !#[trigger] has_contents(key, rel, src, d)) ==> packed(
            seq![(key, rel)],
            src,
        ) == Seq::<Entry>::empty(),
{
    reveal_with_fuel(packed, 2);
    assert(seq![(key, rel)].drop_last() =~= Seq::empty());
    assert(seq![(key, rel)].last() == (key, rel));
    if let Some(path) = located(rel, src.server, src.dirs) {
        if let FileView::Bytes(d) = src.server[path] {
            assert(!src.vanilla.contains(key) ==> has_contents(key, rel, src, d));
        }
    }
}

/// The entries of resources follow one another as the resources do, and so does what
/// is reported of them; and the numbers of each kind add up.
pub proof fn law_packed_in_order(a: Pairs, b: Pairs, src: Sources, kind: Kind)
    ensures
        packed(a + b, src) == packed(a, src) + packed(b, src),
        reports(a + b, src) == reports(a, src) + reports(b, src),
        count(a + b, src, kind) == count(a, src, kind) + count(b, src, kind),
    decreases b.len(),
{
    if b.len() == 0 {
        assert(a + b =~= a);
    } else {
        law_packed_in_order(a, b.drop_last(), src, kind);
        assert((a + b).drop_last() =~= a + b.drop_last());
        assert((a + b).last() == b.last());
    }
}

proof fn lemma_around(pairs: Pairs, src: Sources, i: int)
    requires
        0 <= i < pairs.len(),
    ensures
        packed(pairs, src) == packed(pairs.take(i), src) + packed(seq![pairs[i]], src) + packed(
            pairs.skip(i + 1),
            src,
        ),
{
    let head = pairs.take(i);
    let tail = pairs.skip(i + 1);
    law_packed_in_order(head, seq![pairs[i]], src, Kind::Added);
    law_packed_in_order(head + seq![pairs[i]], tail, src, Kind::Added);
    assert(head + seq![pairs[i]] + tail =~= pairs);
}

/// Of every resource that does not come with the game and whose file was read, the
/// archive holds an entry under its path with exactly the contents of the file.
pub proof fn law_every_file_is_packed_whole(
    map_data: Seq<u8>,
    pairs: Pairs,
    src: Sources,
    stamp: Seq<char>,
    i: int,
    path: Seq<char>,
    data: Seq<u8>,
)
    requires
        0 <= i < pairs.len(),
        !src.vanilla.contains(pairs[i].0),
        located(pairs[i].1, src.server, src.dirs) == Some(path),
        src.server[path] == FileView::Bytes(data),
    ensures
        packed(pairs, src).contains((pairs[i].1, data)),
        plan(map_data, pairs, src, stamp).contains((pairs[i].1, data)),
{
    let (key, rel) = pairs[i];
    law_one_is_packed_whole(key, rel, src, data);
    lemma_around(pairs, src, i);
    assert(has_contents(key, rel, src, data));
    let at = packed(pairs.take(i), src).len() as int;
    assert(packed(pairs, src)[at] == (rel, data));
    assert(plan(map_data, pairs, src, stamp)[at + 1] == (rel, data));
}

/// The same of every resource in a queue: where it does not come with the game and its
/// file was read, the archive holds the file whole.
pub proof fn law_every_queued_file_is_packed_whole(
    map_data: Seq<u8>,
    queue: QueueMap,
    src: Sources,
    stamp: Seq<char>,
    key: Seq<char>,
    path: Seq<char>,
    data: Seq<u8>,
)
    requires
        listable(queue),
        queue.contains_key(key),
        !src.vanilla.contains(key),
        located(queue[key], src.server, src.dirs) == Some(path),
        src.server[path] == FileView::Bytes(data),
    ensures
        plan(map_data, listing(queue), src, stamp).contains((queue[key], data)),
{
    let i = lemma_listed(queue, key);
    law_every_file_is_packed_whole(map_data, listing(queue), src, stamp, i, path, data);
}

/// Every entry of a resource has the path of one that does not come with the game,
/// and exactly the contents that were read of its file.
pub proof fn law_only_files_are_packed(pairs: Pairs, src: Sources, k: int)
    requires
        0 <= k < packed(pairs, src).len(),
    ensures
        exists|i: int|
            0 <= i < pairs.len() && (#[trigger] pairs[i]).1 == packed(pairs, src)[k].0
                && has_contents(pairs[i].0, pairs[i].1, src, packed(pairs, src)[k].1),
    decreases pairs.len(),
{
    let init = pairs.drop_last();
    let n = pairs.len() - 1;
    let (key, rel) = pairs.last();
    if k < packed(init, src).len() {
        law_only_files_are_packed(init, src, k);
        let i = choose|i: int|
            0 <= i < init.len() && (#[trigger] init[i]).1 == packed(init, src)[k].0
                && has_contents(init[i].0, init[i].1, src, packed(init, src)[k].1);
        assert(pairs[i] == init[i]);
        assert(packed(pairs, src)[k] == packed(init, src)[k]);
    } else {
        assert(pairs[n] == (key, rel));
        assert(has_contents(key, rel, src, packed(pairs, src)[k].1));
    }
}

/// How many resources are packed, come with the game, are not there or could not be
/// read, told for one: what it counts as goes by where it is found and what was read.
pub proof fn law_one_is_counted(key: Seq<char>, rel: Seq<char>, src: Sources, kind: Kind)
    ensures
        ({
            let found = located(rel, src.server, src.dirs);
            count(seq![(key, rel)], src, kind) == if kind == (if src.vanilla.contains(key) {
                Kind::Vanilla
            } else if found is None && companion_keys(src.mapname).contains(key) {
                Kind::Skipped
            } else if found is None {
                Kind::Missing
            } else if src.server[found->0] is Bytes {
                Kind::Added
            } else {
                Kind::Failed
            }) {
                1nat
            } else {
                0nat
            }
        }),
{
    reveal_with_fuel(count, 2);
    assert(seq![(key, rel)].drop_last() =~= Seq::empty());
    assert(seq![(key, rel)].last() == (key, rel));
}

// ---------------------------------------------------------------------------
// The archive
// ---------------------------------------------------------------------------

/// Whether the resource list of the map is one of the resources, and was read.
pub open spec fn list_was_read(pairs: Pairs, src: Sources) -> bool {
    exists|i: int, data: Seq<u8>|
        0 <= i < pairs.len() && (#[trigger] pairs[i]).0 == lowercase(
            "maps/"@ + src.mapname + ".res"@,
        ) && #[trigger] has_contents(pairs[i].0, pairs[i].1, src, data)
}

proof fn lemma_list_was_read(pairs: Pairs, src: Sources)
    ensures
        packs_res(pairs, src) <==> list_was_read(pairs, src),
{
    let key = lowercase("maps/"@ + src.mapname + ".res"@);
    if packs_res(pairs, src) {
        let i = choose|i: int|
            0 <= i < pairs.len() && (#[trigger] pairs[i]).0 == key && fate(
                pairs[i].0,
                pairs[i].1,
                src,
            ) is Added;
        let path = located(pairs[i].1, src.server, src.dirs)->0;
        let data = src.server[path]->Bytes_0;
        assert(has_contents(pairs[i].0, pairs[i].1, src, data));
    }
    if list_was_read(pairs, src) {
        let (i, data) = choose|i: int, data: Seq<u8>|
            0 <= i < pairs.len() && (#[trigger] pairs[i]).0 == key && #[trigger] has_contents(
                pairs[i].0,
                pairs[i].1,
                src,
                data,
            );
        assert(has_contents(pairs[i].0, pairs[i].1, src, data));
        assert(fate(pairs[i].0, pairs[i].1, src) is Added);
    }
}

/// An archive holds the map first, with the whole of its data; the files of the
/// resources next, in order; and a generated list last, exactly where no list was read.
pub proof fn law_archive_holds_map_files_and_list(
    map_data: Seq<u8>,
    pairs: Pairs,
    src: Sources,
    stamp: Seq<char>,
)
    ensures
        ({
            let all = plan(map_data, pairs, src, stamp);
            let files = packed(pairs, src);
            let n = files.len() as int;
            &&& all[0] == ("maps/"@ + src.mapname + ".bsp"@, map_data)
            &&& all.subrange(1, n + 1) == files
            &&& list_was_read(pairs, src) ==> all.len() == n + 1
            &&& !list_was_read(pairs, src) ==> all.len() == n + 2 && all[n + 1] == (
                "maps/"@ + src.mapname + ".res"@,
                encode_utf8(list_text(src.mapname, stamp, listed(files))),
            )
        }),
{
    lemma_list_was_read(pairs, src);
    assert(plan(map_data, pairs, src, stamp).subrange(1, packed(pairs, src).len() as int + 1)
        =~= packed(pairs, src));
}

/// The totals are the number of files that are packed, and of the resources that come
/// with the game, are missing and failed; a list is generated where none was read.
pub proof fn law_totals_count_the_resources(totals: Totals, pairs: Pairs, src: Sources)
    ensures
        totals.match_pairs(pairs, src) <==> {
            &&& totals.packed == packed(pairs, src).len()
            &&& totals.vanilla == count(pairs, src, Kind::Vanilla)
            &&& totals.missing == count(pairs, src, Kind::Missing)
            &&& totals.failed == count(pairs, src, Kind::Failed)
            &&& totals.generated <==> !list_was_read(pairs, src)
        },
{
    lemma_list_was_read(pairs, src);
    law_counts_add_up(pairs, src);
}

/// Names fit exactly where every name in the archive takes less than 65536 bytes.
pub proof fn law_every_name_must_fit(
    map_data: Seq<u8>,
    pairs: Pairs,
    src: Sources,
    stamp: Seq<char>,
)
    ensures
        names_fit(pairs, src) <==> forall|i: int|
            0 <= i < plan(map_data, pairs, src, stamp).len() ==> encode_utf8(
                (#[trigger] plan(map_data, pairs, src, stamp)[i]).0,
            ).len() < 65536,
{
    let all = plan(map_data, pairs, src, stamp);
    let files = packed(pairs, src);
    let n = files.len() as int;
    assert(all[0].0 == "maps/"@ + src.mapname + ".bsp"@);
    assert forall|i: int| 0 <= i < n implies #[trigger] files[i] == all[i + 1] by {}
    if !packs_res(pairs, src) {
        assert(all[n + 1].0 == "maps/"@ + src.mapname + ".res"@);
    }
    if names_fit(pairs, src) {
        assert forall|i: int| 0 <= i < all.len() implies encode_utf8((#[trigger] all[i]).0).len()
            < 65536 by {
            if 0 < i <= n {
                assert(all[i] == files[i - 1]);
            }
        }
    }
}

/// A server is asked only for a map that is inside one.
pub proof fn law_loose_maps_have_no_server(plan: MapPlan, server: &Server)
    ensures
        plan.loose ==> server_of(plan, server) is None,
        !plan.loose ==> server_of(plan, server) == Some(server@),
{
}

/// The generated list names what is packed in order, but for navigation meshes.
pub proof fn law_packed_names_are_listed(a: Seq<Entry>, b: Seq<Entry>, entry: Entry)
    ensures
        listed(a + b) == listed(a) + listed(b),
        ({
            let low = lowercase(entry.0);
            let n = low.len();
            let nav = n >= 4 && low[n - 4] == '.' && low[n - 3] == 'n' && low[n - 2] == 'a' && low[n
                - 1] == 'v';
            listed(seq![entry]) == if nav {
                Seq::empty()
            } else {
                seq![entry.0]
            }
        }),
    decreases b.len(),
{
    reveal_strlit(".nav");
    reveal_with_fuel(listed, 2);
    let low = lowercase(entry.0);
    let n = low.len();
    assert(seq![entry].drop_last() =~= Seq::empty());
    assert(seq![entry].last() == entry);
    if n >= 4 {
        let end = low.subrange(n - 4, n as int);
        assert(end[0] == low[n - 4] && end[1] == low[n - 3] && end[2] == low[n - 2] && end[3]
            == low[n - 1]);
        if low[n - 4] == '.' && low[n - 3] == 'n' && low[n - 2] == 'a' && low[n - 1] == 'v' {
            assert(".nav"@ =~= end);
        }
    }
    if b.len() == 0 {
        assert(a + b =~= a);
    } else {
        law_packed_names_are_listed(a, b.drop_last(), entry);
        assert((a + b).drop_last() =~= a + b.drop_last());
        assert((a + b).last() == b.last());
    }
}

// ---------------------------------------------------------------------------
// Reports
// ---------------------------------------------------------------------------

/// `rel` with as many spaces behind it as make fifty-five characters.
pub open spec fn in_column(rel: Seq<char>) -> Seq<char> {
    rel + Seq::new(
        if rel.len() < 55 {
            (55 - rel.len()) as nat
        } else {
            0
        },
        |i: int| ' ',
    )
}

/// What is reported of a resource begins with the mark of its fate, goes on with its
/// path, and ends in words; nothing is reported of one that is skipped.
pub proof fn law_reports_of_one(rel: Seq<char>, data: Seq<u8>, reason: Seq<char>)
    ensures
        report(rel, Fate::Added(data)) == seq!["  + "@ + in_column(rel) + " [added]"@],
        report(rel, Fate::Vanilla) == seq!["  - "@ + in_column(rel) + " [vanilla]"@],
        report(rel, Fate::Missing) == seq!["  ? "@ + in_column(rel) + " [not found]"@],
        report(rel, Fate::Failed(reason)) == seq![
            "  ! "@ + in_column(rel) + " [read error: "@ + reason + "]"@,
        ],
        report(rel, Fate::Skipped) == Seq::<Seq<char>>::empty(),
{
    assert(padded(rel, 55) =~= in_column(rel));
}

/// The map is reported first, then each resource in order, and last a generated list.
pub proof fn law_reports_of_the_archive(pairs: Pairs, src: Sources, key: Seq<char>, rel: Seq<char>)
    ensures
        plan_reports(pairs, src) == seq![
            "  + "@ + in_column("maps/"@ + src.mapname + ".bsp"@) + " [map]"@,
        ] + reports(pairs, src) + if list_was_read(pairs, src) {
            Seq::empty()
        } else {
            seq!["  + "@ + in_column("maps/"@ + src.mapname + ".res"@) + " [generated]"@]
        },
        reports(seq![(key, rel)], src) == report(rel, fate(key, rel, src)),
{
    lemma_list_was_read(pairs, src);
    let map = "maps/"@ + src.mapname + ".bsp"@;
    let res = "maps/"@ + src.mapname + ".res"@;
    assert(padded(map, 55) =~= in_column(map));
    assert(padded(res, 55) =~= in_column(res));
    reveal_with_fuel(reports, 2);
    assert(seq![(key, rel)].drop_last() =~= Seq::empty());
    assert(seq![(key, rel)].last() == (key, rel));
}

/// Six files can accompany a map: a text, a list of detail textures, a navigation
/// mesh, a resource list, and the picture and the text of an overview.
pub proof fn law_companions(mapname: Seq<char>, key: Seq<char>)
    ensures
        companion_keys(mapname).contains(key) <==> (key == lowercase("maps/"@ + mapname + ".txt"@)
            || key == lowercase("maps/"@ + mapname + "_detail.txt"@) || key == lowercase(
            "maps/"@ + mapname + ".nav"@,
        ) || key == lowercase("maps/"@ + mapname + ".res"@) || key == lowercase(
            "overviews/"@ + mapname + ".bmp"@,
        ) || key == lowercase("overviews/"@ + mapname + ".txt"@)),
        companion_paths(mapname) == seq![
            "maps/"@ + mapname + ".txt"@,
            "maps/"@ + mapname + "_detail.txt"@,
            "maps/"@ + mapname + ".nav"@,
            "maps/"@ + mapname + ".res"@,
            "overviews/"@ + mapname + ".bmp"@,
            "overviews/"@ + mapname + ".txt"@,
        ],
{
    let all = companion_paths(mapname);
    assert(all[0] == "maps/"@ + mapname + ".txt"@);
    assert(all[1] == "maps/"@ + mapname + "_detail.txt"@);
    assert(all[2] == "maps/"@ + mapname + ".nav"@);
    assert(all[3] == "maps/"@ + mapname + ".res"@);
    assert(all[4] == "overviews/"@ + mapname + ".bmp"@);
    assert(all[5] == "overviews/"@ + mapname + ".txt"@);
}

} // verus!
