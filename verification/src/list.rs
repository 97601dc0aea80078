//! The list of the resources of a map.
use crate::clock::{is_time, some_time_fails, timestamp};
use crate::collect::{companion_files, companion_paths, nav_file, res_file};
use crate::paths::{Queue, QueueMap};
use crate::server::{find_on_server, located, server_view, Server, ServerMap};
use crate::table::{listing, StringTable};
use crate::text::{concat2, concat3, concat4, copy_str, decimal, decimal_text, lines, lowercase};
use crate::text::{same_text, text_lines, texts, to_lowercase};
use vstd::prelude::*;

verus! {

/// A set of names.
pub type Names = StringTable<()>;

// ---------------------------------------------------------------------------
// Files that need not be listed
// ---------------------------------------------------------------------------

/// The files that come with the game, given one to a line.
pub open spec fn vanilla_set(list: Seq<char>) -> Set<Seq<char>> {
    Set::new(|name: Seq<char>| name.len() > 0 && lines(list, '\n', '\r').contains(name))
}

/// The files that come with the game, given one to a line.
pub fn vanilla_files(list: &str) -> (r: Names)
    ensures
        r@.dom() == vanilla_set(list@),
{
    let names: Vec<String> = text_lines(list);
    let ghost all = lines(list@, '\n', '\r');
    let mut r: Names = StringTable::new();
    let mut i: usize = 0;
    while i < names.len()
        invariant
            i <= names@.len(),
            all == texts(names@),
            forall|name: Seq<char>| #[trigger]
                r@.contains_key(name) <==> name.len() > 0 && all.take(i as int).contains(name),
        decreases names@.len() - i,
    {
        let ghost before = r@;
        let ghost line = all[i as int];
        if !names[i].as_str().is_empty() {
            r.insert(names[i].clone(), ());
        }
        proof {
            assert forall|name: Seq<char>| #[trigger] r@.contains_key(name) <==> name.len() > 0
                && all.take(i + 1).contains(name) by {
                lemma_contains_push(all.take(i as int), line, name);
                assert(all.take(i + 1) =~= all.take(i as int).push(line));
                assert(before.contains_key(name) <==> name.len() > 0 && all.take(i as int).contains(
                    name,
                ));
            }
        }
        i += 1;
    }
    proof {
        assert(all.take(i as int) =~= all);
        assert(r@.dom() =~= vanilla_set(list@));
    }
    r
}

/// What a sequence with one more element contains.
proof fn lemma_contains_push<T>(s: Seq<T>, last: T, x: T)
    ensures
        s.push(last).contains(x) <==> s.contains(x) || x == last,
{
    if s.contains(x) {
        let i = choose|i: int| 0 <= i < s.len() && s[i] == x;
        assert(s.push(last)[i] == x);
    }
    if x == last {
        assert(s.push(last)[s.len() as int] == x);
    }
}

/// The lowercase forms of the files that can accompany a map.
pub open spec fn companion_keys(mapname: Seq<char>) -> Set<Seq<char>> {
    Set::new(
        |key: Seq<char>|
            exists|i: int|
                0 <= i < companion_paths(mapname).len() && key == lowercase(
                    #[trigger] companion_paths(mapname)[i],
                ),
    )
}

/// The lowercase forms of the files that can accompany a map.
pub fn companion_names(mapname: &str) -> (r: Names)
    ensures
        r@.dom() == companion_keys(mapname@),
{
    let files: Vec<String> = companion_files(mapname);
    let ghost all = companion_paths(mapname@);
    let mut r: Names = StringTable::new();
    let mut i: usize = 0;
    while i < files.len()
        invariant
            i <= files@.len(),
            all == texts(files@),
            forall|key: Seq<char>| #[trigger]
                r@.contains_key(key) <==> exists|j: int|
                    0 <= j < i && key == lowercase(#[trigger] all[j]),
        decreases files@.len() - i,
    {
        let ghost before = r@;
        let key: String = to_lowercase(files[i].as_str());
        let ghost k = key@;
        r.insert(key, ());
        proof {
            assert(k == lowercase(all[i as int]));
            assert forall|x: Seq<char>| #[trigger] r@.contains_key(x) <==> exists|j: int|
                0 <= j < i + 1 && x == lowercase(#[trigger] all[j]) by {
                assert(before.contains_key(x) <==> exists|j: int|
                    0 <= j < i && x == lowercase(#[trigger] all[j]));
            }
        }
        i += 1;
    }
    proof {
        assert(r@.dom() =~= companion_keys(mapname@));
    }
    r
}

// ---------------------------------------------------------------------------
// The resources to list
// ---------------------------------------------------------------------------

/// Whether a path with the lowercase form `key` is listed, where `nav` and `res`
/// are the lowercase forms of the map's navigation mesh and of its resource list,
/// and `there` tells whether the file can be taken to exist.
pub open spec fn listed_as(
    key: Seq<char>,
    nav: Seq<char>,
    res: Seq<char>,
    vanilla: Set<Seq<char>>,
    there: bool,
) -> bool {
    !vanilla.contains(key) && key != nav && key != res && there
}

/// Whether a path with the lowercase form `key` is listed.
pub fn check_listed(key: &str, nav: &str, res: &str, vanilla: &Names, there: bool) -> (r: bool)
    ensures
        r == listed_as(key@, nav@, res@, vanilla@.dom(), there),
{
    proof {
        assert(vanilla@.contains_key(key@) == vanilla@.dom().contains(key@));
    }
    !vanilla.contains_key(key) && !same_text(key, nav) && !same_text(key, res) && there
}

/// Whether the path `rel`, with the lowercase form `key`, is listed. Left out are
/// files that come with the game, the map's navigation mesh and its resource
/// list, which clients do not need; and, with a server, what it does not have.
/// Without one nothing tells whether the files that can accompany the map exist,
/// so they are left out too.
pub open spec fn is_needed(
    key: Seq<char>,
    rel: Seq<char>,
    mapname: Seq<char>,
    vanilla: Set<Seq<char>>,
    server: Option<ServerMap>,
    dirs: Seq<Seq<char>>,
) -> bool {
    let there = match server {
        Some(s) => located(rel, s, dirs) is Some,
        None => !companion_keys(mapname).contains(key),
    };
    listed_as(
        key,
        lowercase(nav_file(mapname)),
        lowercase(res_file(mapname)),
        vanilla,
        there,
    )
}

/// The paths of `pairs` that are listed.
pub open spec fn needed_of(
    pairs: Seq<(Seq<char>, Seq<char>)>,
    mapname: Seq<char>,
    vanilla: Set<Seq<char>>,
    server: Option<ServerMap>,
    dirs: Seq<Seq<char>>,
) -> Seq<Seq<char>>
    decreases pairs.len(),
{
    if pairs.len() == 0 {
        Seq::empty()
    } else {
        let before = needed_of(pairs.drop_last(), mapname, vanilla, server, dirs);
        let (key, rel) = pairs.last();
        if is_needed(key, rel, mapname, vanilla, server, dirs) {
            before.push(rel)
        } else {
            before
        }
    }
}

/// The paths of the queue that are listed, in the order of their lowercase forms.
pub open spec fn needed(
    queue: QueueMap,
    mapname: Seq<char>,
    vanilla: Set<Seq<char>>,
    server: Option<ServerMap>,
    dirs: Seq<Seq<char>>,
) -> Seq<Seq<char>> {
    needed_of(listing(queue), mapname, vanilla, server, dirs)
}

/// The paths of the queue that are listed, in the order of their lowercase forms.
pub fn needed_resources(
    mapname: &str,
    queue: &Queue,
    vanilla: &Names,
    server: Option<&Server>,
    search_dirs: &Vec<String>,
) -> (r: Vec<String>)
    ensures
        texts(r@) == needed(
            queue@,
            mapname@,
            vanilla@.dom(),
            server_view(server),
            texts(search_dirs@),
        ),
{
    let ghost view = server_view(server);
    let ghost dirs = texts(search_dirs@);
    let ghost names = vanilla@.dom();
    let companions: Names = companion_names(mapname);
    let nav: String = concat3("maps/", mapname, ".nav");
    let res: String = concat3("maps/", mapname, ".res");
    let nav_key: String = to_lowercase(nav.as_str());
    let res_key: String = to_lowercase(res.as_str());
    let n: usize = queue.len();
    let ghost pairs = listing(queue@);
    let mut r: Vec<String> = Vec::new();
    let mut i: usize = 0;
    proof {
        assert(pairs.take(0) =~= Seq::empty());
        assert(texts(r@) =~= Seq::empty());
    }
    while i < n
        invariant
            i <= n == pairs.len(),
            pairs == listing(queue@),
            view == server_view(server),
            dirs == texts(search_dirs@),
            names == vanilla@.dom(),
            companions@.dom() == companion_keys(mapname@),
            nav_key@ == lowercase(nav_file(mapname@)),
            res_key@ == lowercase(res_file(mapname@)),
            texts(r@) == needed_of(pairs.take(i as int), mapname@, names, view, dirs),
        decreases n - i,
    {
        let key: &str = queue.key(i).as_str();
        let rel: &str = queue.value(i).as_str();
        let there: bool = match server {
            Some(s) => find_on_server(rel, s, search_dirs).is_some(),
            None => !companions.contains_key(key),
        };
        let listed: bool = check_listed(key, nav_key.as_str(), res_key.as_str(), vanilla, there);
        proof {
            assert(pairs.take(i + 1).drop_last() =~= pairs.take(i as int));
            assert(companions@.contains_key(key@) == companions@.dom().contains(key@));
            assert(listed == is_needed(key@, rel@, mapname@, names, view, dirs));
        }
        if listed {
            let ghost before = r@;
            r.push(copy_str(rel));
            proof {
                assert(texts(r@) =~= texts(before).push(rel@));
            }
        }
        i += 1;
    }
    proof {
        assert(pairs.take(i as int) =~= pairs);
    }
    r
}

// ---------------------------------------------------------------------------
// The text
// ---------------------------------------------------------------------------

/// The paths `rels`, one to a line.
pub open spec fn path_lines(rels: Seq<Seq<char>>) -> Seq<char>
    decreases rels.len(),
{
    if rels.len() == 0 {
        Seq::empty()
    } else {
        path_lines(rels.drop_last()) + rels.last() + "\n"@
    }
}

/// The text of a resource list that was made at the time `stamp`.
pub open spec fn list_text(mapname: Seq<char>, stamp: Seq<char>, rels: Seq<Seq<char>>) -> Seq<
    char,
> {
    "// resources for "@ + mapname + ".bsp\n"@ + "// generated by packmap "@ + stamp + "\n"@
        + path_lines(rels)
}

/// The text of a resource list that was made at the time `stamp`.
pub fn resource_text(mapname: &str, stamp: &str, rels: &Vec<String>) -> (r: String)
    ensures
        r@ == list_text(mapname@, stamp@, texts(rels@)),
{
    let mut r: String = concat3("// resources for ", mapname, ".bsp\n");
    r.append("// generated by packmap ");
    r.append(stamp);
    r.append("\n");
    let ghost head = r@;
    let ghost all = texts(rels@);
    let mut i: usize = 0;
    proof {
        assert(all.take(0) =~= Seq::empty());
        assert(head + Seq::<char>::empty() =~= head);
    }
    while i < rels.len()
        invariant
            i <= rels@.len(),
            all == texts(rels@),
            r@ == head + path_lines(all.take(i as int)),
        decreases rels@.len() - i,
    {
        r.append(rels[i].as_str());
        r.append("\n");
        proof {
            assert(all.take(i + 1).drop_last() =~= all.take(i as int));
            assert(all.take(i + 1).last() == rels@[i as int]@);
            assert(r@ =~= head + path_lines(all.take(i + 1)));
        }
        i += 1;
    }
    proof {
        assert(all.take(i as int) =~= all);
    }
    r
}

/// A resource list.
pub struct ResourceList {
    /// The paths that it lists.
    pub needed: Vec<String>,
    /// Its text.
    pub text: String,
}

/// Makes the resource list of a map, as of the time `stamp`.
pub fn resource_list(
    mapname: &str,
    queue: &Queue,
    vanilla: &Names,
    server: Option<&Server>,
    search_dirs: &Vec<String>,
    stamp: &str,
) -> (r: ResourceList)
    ensures
        texts(r.needed@) == needed(
            queue@,
            mapname@,
            vanilla@.dom(),
            server_view(server),
            texts(search_dirs@),
        ),
        r.text@ == list_text(mapname@, stamp@, texts(r.needed@)),
{
    let needed: Vec<String> = needed_resources(mapname, queue, vanilla, server, search_dirs);
    let text: String = resource_text(mapname, stamp, &needed);
    ResourceList { needed, text }
}

/// Makes the resource list of a map, as of now. It fails only where the clock
/// shows a time that cannot be written down.
pub fn write_resource_list(
    mapname: &str,
    queue: &Queue,
    vanilla: &Names,
    server: Option<&Server>,
    search_dirs: &Vec<String>,
) -> (r: Result<ResourceList, time::error::Format>)
    ensures
        r matches Ok(list) ==> texts(list.needed@) == needed(
            queue@,
            mapname@,
            vanilla@.dom(),
            server_view(server),
            texts(search_dirs@),
        ),
        r matches Ok(list) ==> exists|stamp: Seq<char>| #[trigger]
            is_time(stamp) && list.text@ == list_text(mapname@, stamp, texts(list.needed@)),
        r is Err ==> some_time_fails(),
{
    match timestamp() {
        Ok(stamp) => Ok(
            resource_list(mapname, queue, vanilla, server, search_dirs, stamp.as_str()),
        ),
        Err(e) => Err(e),
    }
}

/// The name of the file that a resource list is written to: a `.res` file where
/// one was asked for, and a text file where there was nothing to archive from.
pub fn list_file_name(mapname: &str, res_only: bool) -> (r: String)
    ensures
        r@ == mapname@ + (if res_only {
            ".res"@
        } else {
            "_resources.txt"@
        }),
{
    if res_only {
        concat2(mapname, ".res")
    } else {
        concat2(mapname, "_resources.txt")
    }
}

/// The lines that sum up a resource list of `count` paths written to `output`.
pub fn list_summary(count: usize, output: &str) -> (r: String)
    ensures
        r@ == "\n--- Summary ---\n  Resources: "@ + decimal(count as nat)
            + " non-vanilla files listed\n  Output:    "@ + output@,
{
    let number: String = decimal_text(count as u128);
    concat4(
        "\n--- Summary ---\n  Resources: ",
        number.as_str(),
        " non-vanilla files listed\n  Output:    ",
        output,
    )
}

} // verus!
