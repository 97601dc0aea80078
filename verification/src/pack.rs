//! Packing a map and its resources into an archive.
use crate::archive::{archive_entries, extend_last, has_entry, name_fits, readable, short};
use crate::archive::{zip_contents, Archive, Entry, SIZE_LIMIT};
use crate::clock::{is_stamp, is_time, some_time_fails, timestamp};
use crate::collect::res_file;
use crate::list::{companion_keys, companion_names, list_text, resource_text, Names};
use crate::paths::Queue;
use crate::server::{find_on_server, lemma_located_present, located, FileRead, FileView};
use crate::server::{Server, ServerMap};
use crate::table::listing;
use crate::text::{concat3, copy_str, decimal, decimal_text, ends_with, lowercase};
use crate::text::{pad_text, padded, same_text, texts, to_lowercase};
use vstd::prelude::*;
use vstd::utf8::encode_utf8;

verus! {

/// Why an archive could not be made.
#[derive(Debug)]
pub enum PackError {
    /// An entry could not be started, or the archive not be finished.
    Zip(zip::result::ZipError),
    /// The contents of an entry could not be written.
    Io(std::io::Error),
    /// The clock shows a time that cannot be written down.
    Time(time::error::Format),
}

// ---------------------------------------------------------------------------
// What becomes of a resource
// ---------------------------------------------------------------------------

/// What becomes of a resource.
pub enum Fate {
    /// It comes with the game, and is left out.
    Vanilla,
    /// It is a file that can accompany the map, and is not there.
    Skipped,
    /// It is not there.
    Missing,
    /// It is there but could not be read, for the given reason.
    Failed(Seq<char>),
    /// It is packed, with the given contents.
    Added(Seq<u8>),
}

/// What becomes of a resource, without the particulars.
#[derive(Clone, Copy, Debug, PartialEq, Eq, Structural)]
pub enum Kind {
    Vanilla,
    Skipped,
    Missing,
    Failed,
    Added,
}

impl Fate {
    /// This fate without the particulars.
    pub open spec fn kind(self) -> Kind {
        match self {
            Fate::Vanilla => Kind::Vanilla,
            Fate::Skipped => Kind::Skipped,
            Fate::Missing => Kind::Missing,
            Fate::Failed(_) => Kind::Failed,
            Fate::Added(_) => Kind::Added,
        }
    }
}

/// What a map is packed from: its name, the files that come with the game, the
/// files of the server, and the directories that are searched there.
pub struct Sources {
    pub mapname: Seq<char>,
    pub vanilla: Set<Seq<char>>,
    pub server: ServerMap,
    pub dirs: Seq<Seq<char>>,
}

/// The paths of resources by their lowercase forms.
pub type Pairs = Seq<(Seq<char>, Seq<char>)>;

/// The sources, as the functions below are given them.
pub open spec fn sources(
    mapname: &str,
    vanilla: &Names,
    server: &Server,
    search_dirs: &Vec<String>,
) -> Sources {
    Sources {
        mapname: mapname@,
        vanilla: vanilla@.dom(),
        server: server@,
        dirs: texts(search_dirs@),
    }
}

/// What becomes of a resource, told whether it comes with the game, what came of
/// reading its file, where it was found, and whether it can accompany the map.
pub open spec fn fate_of(vanilla: bool, found: Option<FileView>, companion: bool) -> Fate {
    if vanilla {
        Fate::Vanilla
    } else {
        match found {
            Some(FileView::Bytes(data)) => Fate::Added(data),
            Some(FileView::Failed(reason)) => Fate::Failed(reason),
            None => if companion {
                Fate::Skipped
            } else {
                Fate::Missing
            },
        }
    }
}

/// What came of reading a file, where it was found.
pub open spec fn file_view(found: Option<&FileRead>) -> Option<FileView> {
    match found {
        Some(read) => Some(read@),
        None => None,
    }
}

/// What came of reading the file `rel`, where the server has it.
pub open spec fn found_file(
    rel: Seq<char>,
    server: ServerMap,
    dirs: Seq<Seq<char>>,
) -> Option<FileView> {
    match located(rel, server, dirs) {
        Some(path) => Some(server[path]),
        None => None,
    }
}

/// What becomes of the resource `rel`, with the lowercase form `key`.
pub open spec fn fate(key: Seq<char>, rel: Seq<char>, src: Sources) -> Fate {
    fate_of(
        src.vanilla.contains(key),
        found_file(rel, src.server, src.dirs),
        companion_keys(src.mapname).contains(key),
    )
}

/// What is reported of the resource `rel`.
pub open spec fn report(rel: Seq<char>, fate: Fate) -> Seq<Seq<char>> {
    let name = padded(rel, 55);
    match fate {
        Fate::Vanilla => seq!["  - "@ + name + " [vanilla]"@],
        Fate::Skipped => Seq::empty(),
        Fate::Missing => seq!["  ? "@ + name + " [not found]"@],
        Fate::Failed(reason) => seq!["  ! "@ + name + " [read error: "@ + reason + "]"@],
        Fate::Added(_) => seq!["  + "@ + name + " [added]"@],
    }
}

/// What is reported of the resources `pairs`.
pub open spec fn reports(pairs: Pairs, src: Sources) -> Seq<Seq<char>>
    decreases pairs.len(),
{
    if pairs.len() == 0 {
        Seq::empty()
    } else {
        let (key, rel) = pairs.last();
        reports(pairs.drop_last(), src) + report(rel, fate(key, rel, src))
    }
}

/// The entries of those resources among `pairs` that are packed: each under its
/// path in the game directory, with the contents of the file.
pub open spec fn packed(pairs: Pairs, src: Sources) -> Seq<Entry>
    decreases pairs.len(),
{
    if pairs.len() == 0 {
        Seq::empty()
    } else {
        let (key, rel) = pairs.last();
        let before = packed(pairs.drop_last(), src);
        match fate(key, rel, src) {
            Fate::Added(data) => before.push((rel, data)),
            _ => before,
        }
    }
}

/// Whether the resource list of the map is among what is packed.
pub open spec fn packs_res(pairs: Pairs, src: Sources) -> bool {
    exists|i: int|
        0 <= i < pairs.len() && (#[trigger] pairs[i]).0 == lowercase(res_file(src.mapname)) && fate(
            pairs[i].0,
            pairs[i].1,
            src,
        ) is Added
}

/// How many of `pairs` meet a fate of the kind `kind`.
pub open spec fn count(pairs: Pairs, src: Sources, kind: Kind) -> nat
    decreases pairs.len(),
{
    if pairs.len() == 0 {
        0
    } else {
        let (key, rel) = pairs.last();
        count(pairs.drop_last(), src, kind) + if fate(key, rel, src).kind() == kind {
            1nat
        } else {
            0nat
        }
    }
}

/// The numbers that are reported in the end.
pub struct Totals {
    /// Resources that were packed.
    pub packed: usize,
    /// Resources that come with the game.
    pub vanilla: usize,
    /// Resources that are not there.
    pub missing: usize,
    /// Resources that could not be read.
    pub failed: usize,
    /// Whether a resource list was made.
    pub generated: bool,
}

impl Totals {
    /// Whether these are the numbers for the resources `pairs`.
    pub open spec fn match_pairs(&self, pairs: Pairs, src: Sources) -> bool {
        &&& self.packed == count(pairs, src, Kind::Added)
        &&& self.vanilla == count(pairs, src, Kind::Vanilla)
        &&& self.missing == count(pairs, src, Kind::Missing)
        &&& self.failed == count(pairs, src, Kind::Failed)
        &&& self.generated == !packs_res(pairs, src)
    }

    /// The number of entries of the archive.
    pub open spec fn entries(&self) -> nat {
        self.packed as nat + 1 + if self.generated {
            1nat
        } else {
            0nat
        }
    }
}

// ---------------------------------------------------------------------------
// The archive
// ---------------------------------------------------------------------------

/// The entry of the map itself.
pub open spec fn map_file(mapname: Seq<char>) -> Seq<char> {
    "maps/"@ + mapname + ".bsp"@
}

/// The names among `entries` that a generated resource list names: all but
/// navigation meshes, which clients do not need.
pub open spec fn listed(entries: Seq<Entry>) -> Seq<Seq<char>>
    decreases entries.len(),
{
    if entries.len() == 0 {
        Seq::empty()
    } else {
        let before = listed(entries.drop_last());
        let name = entries.last().0;
        if ".nav"@.is_suffix_of(lowercase(name)) {
            before
        } else {
            before.push(name)
        }
    }
}

/// The generated resource list: its entry.
pub open spec fn res_entry(pairs: Pairs, src: Sources, stamp: Seq<char>) -> Entry {
    (
        res_file(src.mapname),
        encode_utf8(list_text(src.mapname, stamp, listed(packed(pairs, src)))),
    )
}

/// The entries of the archive: the map, whose file holds `map_data`, the
/// resources, and a resource list made at the time `stamp` where there is none.
pub open spec fn plan(map_data: Seq<u8>, pairs: Pairs, src: Sources, stamp: Seq<char>) -> Seq<
    Entry,
> {
    let files = seq![(map_file(src.mapname), map_data)] + packed(pairs, src);
    if packs_res(pairs, src) {
        files
    } else {
        files.push(res_entry(pairs, src, stamp))
    }
}

/// What is reported of the archive.
pub open spec fn plan_reports(pairs: Pairs, src: Sources) -> Seq<Seq<char>> {
    let files = seq!["  + "@ + padded(map_file(src.mapname), 55) + " [map]"@] + reports(pairs, src);
    if packs_res(pairs, src) {
        files
    } else {
        files.push("  + "@ + padded(res_file(src.mapname), 55) + " [generated]"@)
    }
}

/// Whether every name in the archive fits its length field.
pub open spec fn names_fit(pairs: Pairs, src: Sources) -> bool {
    &&& name_fits(map_file(src.mapname))
    &&& forall|i: int| 0 <= i < packed(pairs, src).len() ==> name_fits(#[trigger] packed(pairs, src)[i].0)
    &&& packs_res(pairs, src) || name_fits(res_file(src.mapname))
}

/// Whether no two of `entries` have the same name.
pub open spec fn distinct_names(entries: Seq<Entry>) -> bool {
    forall|i: int, j: int|
        0 <= i < j < entries.len() ==> (#[trigger] entries[i]).0 != (#[trigger] entries[j]).0
}

/// Whether an archive of `entries` can be made: no two have the same name, and
/// none is too large.
pub open spec fn can_be_archived(entries: Seq<Entry>) -> bool {
    distinct_names(entries) && short(entries)
}

/// Adds an entry to the archive.
fn zip_add_file(archive: Archive, name: &str, data: &[u8]) -> (r: Result<Archive, PackError>)
    requires
        name_fits(name@),
    ensures
        r matches Ok(after) ==> archive_entries(after) == archive_entries(archive).push(
            (name@, data@),
        ),
        r is Ok ==> !has_entry(archive_entries(archive), name@),
        short(archive_entries(archive)) && !has_entry(archive_entries(archive), name@)
            && data@.len() <= SIZE_LIMIT ==> r is Ok,
        r matches Err(e) ==> !(e is Time),
{
    let ghost before = archive_entries(archive);
    let started: Archive = match archive.start_file(name) {
        Ok(started) => started,
        Err(e) => {
            return Err(PackError::Zip(e));
        },
    };
    match started.write_all(data) {
        Ok(after) => {
            proof {
                assert(Seq::<u8>::empty() + data@ =~= data@);
                assert(extend_last(before.push((name@, Seq::<u8>::empty())), data@) =~= before.push(
                    (name@, data@),
                ));
            }
            Ok(after)
        },
        Err(e) => Err(PackError::Io(e)),
    }
}

/// Packs the resource `rel`, where its fate is to be packed, and reports what
/// became of it, told whether it comes with the game, what came of reading its
/// file, where it was found, and whether it can accompany the map.
pub fn pack_found(
    rel: &str,
    vanilla: bool,
    found: Option<&FileRead>,
    companion: bool,
    archive: Archive,
    log: &mut Vec<String>,
) -> (r: Result<(Kind, Archive), PackError>)
    requires
        fate_of(vanilla, file_view(found), companion) is Added ==> name_fits(rel@),
    ensures
        ({
            let fate = fate_of(vanilla, file_view(found), companion);
            &&& r matches Ok((kind, _)) ==> kind == fate.kind()
            &&& r matches Ok((_, after)) ==> archive_entries(after) == match fate {
                Fate::Added(data) => archive_entries(archive).push((rel@, data)),
                _ => archive_entries(archive),
            }
            &&& r is Ok ==> texts(final(log)@) == texts(old(log)@) + report(rel@, fate)
            &&& r is Ok && fate is Added ==> !has_entry(archive_entries(archive), rel@)
            &&& short(archive_entries(archive)) && !has_entry(archive_entries(archive), rel@) && (
            fate matches Fate::Added(data) ==> data.len() <= SIZE_LIMIT) ==> r is Ok
            &&& r matches Err(e) ==> fate is Added && !(e is Time)
            &&& r is Err ==> final(log)@ == old(log)@
        }),
{
    let ghost before = texts(log@);
    proof {
        assert(before + Seq::<Seq<char>>::empty() =~= before);
    }
    let name: String = pad_text(rel, 55);
    let kind: Kind;
    let line: String;
    let mut after: Archive = archive;
    if vanilla {
        kind = Kind::Vanilla;
        line = concat3("  - ", name.as_str(), " [vanilla]");
    } else {
        match found {
            None => {
                if companion {
                    return Ok((Kind::Skipped, after));
                }
                kind = Kind::Missing;
                line = concat3("  ? ", name.as_str(), " [not found]");
            },
            Some(FileRead::Failed(reason)) => {
                kind = Kind::Failed;
                let head: String = concat3("  ! ", name.as_str(), " [read error: ");
                line = concat3(head.as_str(), reason.as_str(), "]");
            },
            Some(FileRead::Bytes(data)) => {
                match zip_add_file(after, rel, data.as_slice()) {
                    Ok(longer) => {
                        after = longer;
                    },
                    Err(e) => {
                        return Err(e);
                    },
                }
                kind = Kind::Added;
                line = concat3("  + ", name.as_str(), " [added]");
            },
        }
    }
    let ghost text = line@;
    log.push(line);
    proof {
        assert(texts(log@) =~= before.push(text));
        assert(before.push(text) =~= before + seq![text]);
    }
    Ok((kind, after))
}

/// What came of reading the file `rel`, where the server has it.
fn look_up<'a>(rel: &str, server: &'a Server, search_dirs: &Vec<String>) -> (r: Option<
    &'a FileRead,
>)
    ensures
        file_view(r) == found_file(rel@, server@, texts(search_dirs@)),
{
    match find_on_server(rel, server, search_dirs) {
        Some(path) => {
            proof {
                lemma_located_present(rel@, server@, texts(search_dirs@));
            }
            server.get(path.as_str())
        },
        None => None,
    }
}

/// An archive, and the numbers that are reported of it.
pub struct Packed {
    /// The bytes of the archive.
    pub bytes: Vec<u8>,
    pub totals: Totals,
}

/// The text of a time; empty where there is none.
pub open spec fn stamp_text(stamp: Result<String, time::error::Format>) -> Seq<char> {
    match stamp {
        Ok(text) => text@,
        Err(_) => Seq::empty(),
    }
}

/// Packs the map, whose file holds `map_data`, and the resources in the queue, and
/// adds to `log` what became of each. A resource list is made, as of the time
/// `stamp`, where none is packed; only then it matters that there is a time.
pub fn write_zip_inner(
    map_data: &[u8],
    mapname: &str,
    queue: &Queue,
    vanilla: &Names,
    server: &Server,
    search_dirs: &Vec<String>,
    stamp: Result<String, time::error::Format>,
    log: &mut Vec<String>,
) -> (r: Result<Packed, PackError>)
    requires
        names_fit(listing(queue@), sources(mapname, vanilla, server, search_dirs)),
    ensures
        ({
            let pairs = listing(queue@);
            let src = sources(mapname, vanilla, server, search_dirs);
            let whole = plan(map_data@, pairs, src, stamp_text(stamp));
            &&& (stamp is Ok || packs_res(pairs, src)) && can_be_archived(whole) ==> r is Ok
            &&& match r {
                Ok(packed) => {
                    &&& stamp is Ok || packs_res(pairs, src)
                    &&& readable(whole) ==> zip_contents(packed.bytes@) == whole
                    &&& distinct_names(whole)
                    &&& packed.totals.match_pairs(pairs, src)
                    &&& texts(final(log)@) == texts(old(log)@) + plan_reports(pairs, src)
                },
                Err(e) => {
                    &&& e is Time ==> stamp is Err && !packs_res(pairs, src)
                    &&& e is Time || !can_be_archived(whole)
                    &&& texts(old(log)@).is_prefix_of(texts(final(log)@))
                    &&& texts(final(log)@).is_prefix_of(
                        texts(old(log)@) + plan_reports(pairs, src),
                    )
                },
            }
        }),
{
    let ghost src = sources(mapname, vanilla, server, search_dirs);
    let ghost pairs = listing(queue@);
    let ghost log0 = texts(log@);
    let ghost goal = log0 + plan_reports(pairs, src);
    let ghost time = stamp_text(stamp);
    let ghost whole = plan(map_data@, pairs, src, time);
    let ghost map_entry = (map_file(mapname@), map_data@);
    let n: usize = queue.len();
    let companions: Names = companion_names(mapname);
    let res_name: String = concat3("maps/", mapname, ".res");
    let res_key: String = to_lowercase(res_name.as_str());
    let map_name: String = concat3("maps/", mapname, ".bsp");
    let mut archive: Archive = Archive::new();
    proof {
        assert(log0 =~= goal.subrange(0, log0.len() as int));
        assert(log0 =~= log0.subrange(0, log0.len() as int));
        lemma_starts_plan(map_data@, pairs, src, time, 0);
        assert(packed(pairs.take(0), src) =~= Seq::empty());
        assert(Seq::<Entry>::empty().push(map_entry) =~= seq![map_entry] + packed(
            pairs.take(0),
            src,
        ));
    }
    match zip_add_file(archive, map_name.as_str(), map_data) {
        Ok(after) => {
            archive = after;
        },
        Err(e) => {
            proof {
                lemma_spoilt(Seq::empty(), map_entry, whole);
            }
            return Err(e);
        },
    }
    let ghost map_line = "  + "@ + padded(map_file(mapname@), 55) + " [map]"@;
    let padded_map: String = pad_text(map_name.as_str(), 55);
    let line: String = concat3("  + ", padded_map.as_str(), " [map]");
    log.push(line);
    let mut totals: Totals = Totals {
        packed: 0,
        vanilla: 0,
        missing: 0,
        failed: 0,
        generated: true,
    };
    let mut names: Vec<String> = Vec::new();
    let mut i: usize = 0;
    proof {
        assert(pairs.take(0) =~= Seq::empty());
        assert(texts(log@) =~= log0 + (seq![map_line] + reports(pairs.take(0), src)));
        assert(archive_entries(archive) =~= seq![map_entry] + packed(pairs.take(0), src));
        assert(texts(names@) =~= Seq::empty());
        assert(!packs_res(pairs.take(0), src));
    }
    while i < n
        invariant
            i <= n == pairs.len(),
            pairs == listing(queue@),
            src == sources(mapname, vanilla, server, search_dirs),
            names_fit(pairs, src),
            log0 == texts(old(log)@),
            goal == log0 + plan_reports(pairs, src),
            time == stamp_text(stamp),
            whole == plan(map_data@, pairs, src, time),
            map_entry == (map_file(mapname@), map_data@),
            map_line == "  + "@ + padded(map_file(mapname@), 55) + " [map]"@,
            companions@.dom() == companion_keys(mapname@),
            res_key@ == lowercase(res_file(mapname@)),
            texts(log@) == log0 + (seq![map_line] + reports(pairs.take(i as int), src)),
            archive_entries(archive) == seq![map_entry] + packed(pairs.take(i as int), src),
            distinct_names(archive_entries(archive)),
            texts(names@) == listed(packed(pairs.take(i as int), src)),
            totals.match_pairs(pairs.take(i as int), src),
            totals.packed <= i,
            totals.vanilla <= i,
            totals.missing <= i,
            totals.failed <= i,
        decreases n - i,
    {
        let key: &str = queue.key(i).as_str();
        let rel: &str = queue.value(i).as_str();
        let ghost entries = archive_entries(archive);
        let ghost log1 = texts(log@);
        let ghost f = fate(key@, rel@, src);
        proof {
            assert(pairs.take(i + 1).drop_last() =~= pairs.take(i as int));
            lemma_packs_res_step(pairs, src, i as int);
            if f is Added {
                lemma_packed_prefix(pairs, src, i + 1);
                let at = packed(pairs.take(i as int), src).len() as int;
                assert(packed(pairs.take(i + 1), src)[at].0 == rel@);
                assert(packed(pairs, src)[at] == packed(pairs.take(i + 1), src)[at]);
            }
            lemma_reports_prefix(pairs, src, i as int);
            lemma_log_prefix(log0, map_line, reports(pairs.take(i as int), src), pairs, src);
        }
        proof {
            assert(vanilla@.contains_key(key@) == src.vanilla.contains(key@));
            assert(companions@.contains_key(key@) == companion_keys(mapname@).contains(key@));
        }
        let kind: Kind = match pack_found(
            rel,
            vanilla.contains_key(key),
            look_up(rel, server, search_dirs),
            companions.contains_key(key),
            archive,
            log,
        ) {
            Ok((kind, after)) => {
                archive = after;
                kind
            },
            Err(e) => {
                proof {
                    let now = packed(pairs.take(i + 1), src);
                    lemma_starts_plan(map_data@, pairs, src, time, i + 1);
                    assert(entries.push(now.last()) =~= seq![map_entry] + now);
                    lemma_spoilt(entries, now.last(), whole);
                }
                return Err(e);
            },
        };
        match kind {
            Kind::Vanilla => {
                totals.vanilla += 1;
            },
            Kind::Skipped => {},
            Kind::Missing => {
                totals.missing += 1;
            },
            Kind::Failed => {
                totals.failed += 1;
            },
            Kind::Added => {
                totals.packed += 1;
                let low: String = to_lowercase(rel);
                let ghost names1 = names@;
                if !ends_with(low.as_str(), ".nav") {
                    names.push(copy_str(rel));
                    proof {
                        assert(texts(names@) =~= texts(names1).push(rel@));
                    }
                }
                if same_text(key, res_key.as_str()) {
                    totals.generated = false;
                }
                proof {
                    let now = packed(pairs.take(i + 1), src);
                    assert(now.drop_last() =~= packed(pairs.take(i as int), src));
                    lemma_distinct_push(entries, now.last());
                    assert(entries.push(now.last()) =~= seq![map_entry] + now);
                }
            },
        }
        proof {
            assert(log1 + report(rel@, f) =~= log0 + (seq![map_line] + reports(
                pairs.take(i + 1),
                src,
            )));
        }
        i += 1;
    }
    proof {
        assert(pairs.take(i as int) =~= pairs);
    }
    if totals.generated {
        proof {
            lemma_log_prefix(log0, map_line, reports(pairs, src), pairs, src);
        }
        let written: String = match stamp {
            Ok(text) => text,
            Err(e) => {
                return Err(PackError::Time(e));
            },
        };
        let body: String = resource_text(mapname, written.as_str(), &names);
        let ghost entries = archive_entries(archive);
        proof {
            assert(entries.push(res_entry(pairs, src, time)) =~= whole);
            assert(whole =~= whole.subrange(0, whole.len() as int));
        }
        match zip_add_file(archive, res_name.as_str(), body.as_str().as_bytes()) {
            Ok(after) => {
                archive = after;
            },
            Err(e) => {
                proof {
                    lemma_spoilt(entries, res_entry(pairs, src, time), whole);
                }
                return Err(e);
            },
        }
        let padded_res: String = pad_text(res_name.as_str(), 55);
        let line: String = concat3("  + ", padded_res.as_str(), " [generated]");
        let ghost last = line@;
        let ghost log1 = log@;
        log.push(line);
        proof {
            assert(texts(log@) =~= texts(log1).push(last));
            assert(texts(log1).push(last) =~= goal);
            lemma_distinct_push(entries, res_entry(pairs, src, time));
        }
    }
    proof {
        assert(texts(log@) =~= goal);
        assert(goal =~= goal.subrange(0, goal.len() as int));
        assert(log0 =~= goal.subrange(0, log0.len() as int));
    }
    match archive.finish() {
        Ok(bytes) => Ok(Packed { bytes, totals }),
        Err(e) => Err(PackError::Zip(e)),
    }
}

/// Packs the map and the resources in the queue, as of now: `write_zip_inner` with
/// the time that the clock shows.
pub fn write_zip(
    map_data: &[u8],
    mapname: &str,
    queue: &Queue,
    vanilla: &Names,
    server: &Server,
    search_dirs: &Vec<String>,
    log: &mut Vec<String>,
) -> (r: Result<Packed, PackError>)
    requires
        names_fit(listing(queue@), sources(mapname, vanilla, server, search_dirs)),
    ensures
        ({
            let pairs = listing(queue@);
            let src = sources(mapname, vanilla, server, search_dirs);
            match r {
                Ok(packed) => {
                    &&& exists|stamp: Seq<char>|
                        {
                            let whole = #[trigger] plan(map_data@, pairs, src, stamp);
                            &&& is_time(stamp) || packs_res(pairs, src)
                            &&& readable(whole) ==> zip_contents(packed.bytes@) == whole
                            &&& distinct_names(whole)
                        }
                    &&& packed.totals.match_pairs(pairs, src)
                    &&& texts(final(log)@) == texts(old(log)@) + plan_reports(pairs, src)
                },
                Err(e) => {
                    &&& e is Time ==> !packs_res(pairs, src) && some_time_fails()
                    &&& e is Time || exists|stamp: Seq<char>|
                        is_stamp(stamp) && !can_be_archived(
                            #[trigger] plan(map_data@, pairs, src, stamp),
                        )
                    &&& texts(old(log)@).is_prefix_of(texts(final(log)@))
                    &&& texts(final(log)@).is_prefix_of(
                        texts(old(log)@) + plan_reports(pairs, src),
                    )
                },
            }
        }),
{
    let stamp: Result<String, time::error::Format> = timestamp();
    proof {
        assert(is_stamp(Seq::<char>::empty()));
    }
    write_zip_inner(map_data, mapname, queue, vanilla, server, search_dirs, stamp, log)
}

/// Whether `name` fits the length field of a zip entry.
fn check_name(name: &str) -> (r: bool)
    ensures
        r == name_fits(name@),
{
    name.as_bytes().len() <= 0xffff
}

/// Whether every name in the archive fits its length field.
pub fn check_names(
    mapname: &str,
    queue: &Queue,
    vanilla: &Names,
    server: &Server,
    search_dirs: &Vec<String>,
) -> (r: bool)
    ensures
        r == names_fit(listing(queue@), sources(mapname, vanilla, server, search_dirs)),
{
    let ghost src = sources(mapname, vanilla, server, search_dirs);
    let ghost pairs = listing(queue@);
    let n: usize = queue.len();
    let res_name: String = concat3("maps/", mapname, ".res");
    let res_key: String = to_lowercase(res_name.as_str());
    let map_name: String = concat3("maps/", mapname, ".bsp");
    let mut fit: bool = check_name(map_name.as_str());
    let mut has_res: bool = false;
    let mut i: usize = 0;
    proof {
        assert(pairs.take(0) =~= Seq::empty());
        assert(!packs_res(pairs.take(0), src));
    }
    while i < n
        invariant
            i <= n == pairs.len(),
            pairs == listing(queue@),
            src == sources(mapname, vanilla, server, search_dirs),
            res_key@ == lowercase(res_file(mapname@)),
            has_res == packs_res(pairs.take(i as int), src),
            fit == (name_fits(map_file(mapname@)) && forall|j: int|
                0 <= j < packed(pairs.take(i as int), src).len() ==> name_fits(
                    #[trigger] packed(pairs.take(i as int), src)[j].0,
                )),
        decreases n - i,
    {
        let key: &str = queue.key(i).as_str();
        let rel: &str = queue.value(i).as_str();
        let added: bool = match look_up(rel, server, search_dirs) {
            Some(FileRead::Bytes(_)) => !vanilla.contains_key(key),
            _ => false,
        };
        let ghost before = packed(pairs.take(i as int), src);
        let ghost after = packed(pairs.take(i + 1), src);
        proof {
            assert(pairs.take(i + 1).drop_last() =~= pairs.take(i as int));
            assert(vanilla@.contains_key(key@) == src.vanilla.contains(key@));
            assert(added == fate(key@, rel@, src) is Added);
            lemma_packs_res_step(pairs, src, i as int);
            if added {
                assert(after == before.push(after.last()));
                assert(after.last().0 == rel@);
                assert(forall|j: int|
                    0 <= j < before.len() ==> (#[trigger] after[j]).0 == before[j].0);
                if name_fits(rel@) {
                    assert((forall|j: int|
                        0 <= j < before.len() ==> name_fits(#[trigger] before[j].0)) ==> (forall|j: int|
                        0 <= j < after.len() ==> name_fits(#[trigger] after[j].0)));
                } else {
                    assert(!name_fits(after[before.len() as int].0));
                }
                if !(forall|j: int| 0 <= j < before.len() ==> name_fits(#[trigger] before[j].0)) {
                    let j = choose|j: int| 0 <= j < before.len() && !name_fits(#[trigger] before[j].0);
                    assert(!name_fits(after[j].0));
                }
            }
        }
        if added {
            fit = fit && check_name(rel);
            if same_text(key, res_key.as_str()) {
                has_res = true;
            }
        }
        i += 1;
    }
    proof {
        assert(pairs.take(i as int) =~= pairs);
    }
    fit && (has_res || check_name(res_name.as_str()))
}

/// The number of entries of the archive.
pub fn entry_count(totals: &Totals) -> (r: u128)
    ensures
        r == totals.entries(),
{
    let files: u128 = totals.packed as u128 + 1;
    if totals.generated {
        files + 1
    } else {
        files
    }
}

/// The lines that sum up the archive written to `output`.
pub open spec fn summary_text(totals: Totals, output: Seq<char>) -> Seq<char> {
    let counts = "\n--- Summary ---\n  Added:   "@ + decimal(totals.entries()) + " files\n  Vanilla: "@
        + decimal(totals.vanilla as nat) + " skipped\n  Missing: "@ + decimal(
        totals.missing as nat,
    ) + " not found on server\n"@;
    let failures = if totals.failed > 0 {
        "  Failed:  "@ + decimal(totals.failed as nat) + " unreadable, left out of the zip\n"@
    } else {
        Seq::empty()
    };
    counts + failures + "  Output:  "@ + output
}

/// The lines that sum up the archive written to `output`.
pub fn zip_summary(totals: &Totals, output: &str) -> (r: String)
    ensures
        r@ == summary_text(*totals, output@),
{
    let mut r: String = copy_str("\n--- Summary ---\n  Added:   ");
    let added: String = decimal_text(entry_count(totals));
    r.append(added.as_str());
    r.append(" files\n  Vanilla: ");
    let vanilla: String = decimal_text(totals.vanilla as u128);
    r.append(vanilla.as_str());
    r.append(" skipped\n  Missing: ");
    let missing: String = decimal_text(totals.missing as u128);
    r.append(missing.as_str());
    r.append(" not found on server\n");
    let ghost counts = r@;
    if totals.failed > 0 {
        let failed: String = decimal_text(totals.failed as u128);
        let line: String = concat3("  Failed:  ", failed.as_str(), " unreadable, left out of the zip\n");
        r.append(line.as_str());
    }
    proof {
        assert(counts + Seq::<char>::empty() =~= counts);
    }
    r.append("  Output:  ");
    r.append(output);
    r
}

/// The map and what is packed of the first resources come first in the archive.
proof fn lemma_starts_plan(
    map_data: Seq<u8>,
    pairs: Pairs,
    src: Sources,
    stamp: Seq<char>,
    n: int,
)
    requires
        0 <= n <= pairs.len(),
    ensures
        (seq![(map_file(src.mapname), map_data)] + packed(pairs.take(n), src)).is_prefix_of(
            plan(map_data, pairs, src, stamp),
        ),
{
    let first = seq![(map_file(src.mapname), map_data)];
    let part = first + packed(pairs.take(n), src);
    let whole = plan(map_data, pairs, src, stamp);
    lemma_packed_prefix(pairs, src, n);
    assert forall|i: int| 0 <= i < part.len() implies part[i] == whole[i] by {
        if i > 0 {
            let short_part = packed(pairs.take(n), src);
            assert(short_part[i - 1] == packed(pairs, src).subrange(
                0,
                short_part.len() as int,
            )[i - 1]);
        }
    }
    assert(part =~= whole.subrange(0, part.len() as int));
}

/// An entry that cannot be added to those before it spoils the whole archive.
proof fn lemma_spoilt(entries: Seq<Entry>, entry: Entry, whole: Seq<Entry>)
    requires
        entries.push(entry).is_prefix_of(whole),
        !short(entries) || has_entry(entries, entry.0) || entry.1.len() > SIZE_LIMIT,
    ensures
        !can_be_archived(whole),
{
    let part = entries.push(entry);
    let n = entries.len() as int;
    assert forall|i: int| 0 <= i < part.len() implies part[i] == whole[i] by {
        assert(part[i] == whole.subrange(0, part.len() as int)[i]);
    }
    if !short(entries) {
        let i = choose|i: int|
            0 <= i < entries.len() && (#[trigger] entries[i]).1.len() > SIZE_LIMIT;
        assert(whole[i] == part[i]);
    } else if has_entry(entries, entry.0) {
        let i = choose|i: int| 0 <= i < entries.len() && (#[trigger] entries[i]).0 == entry.0;
        assert(whole[i] == part[i]);
        assert(whole[n] == part[n]);
    } else {
        assert(whole[n] == part[n]);
    }
}

/// What has been logged before the end is the start of what is logged in all.
proof fn lemma_log_prefix(
    log: Seq<Seq<char>>,
    first: Seq<char>,
    so_far: Seq<Seq<char>>,
    pairs: Pairs,
    src: Sources,
)
    requires
        so_far.is_prefix_of(reports(pairs, src)),
        first == "  + "@ + padded(map_file(src.mapname), 55) + " [map]"@,
    ensures
        log.is_prefix_of(log + (seq![first] + so_far)),
        (log + (seq![first] + so_far)).is_prefix_of(log + plan_reports(pairs, src)),
{
    let part = log + (seq![first] + so_far);
    let whole = log + plan_reports(pairs, src);
    assert(log =~= part.subrange(0, log.len() as int));
    let files = seq![first] + reports(pairs, src);
    assert forall|j: int| 0 <= j < part.len() implies part[j] == whole[j] by {
        if j >= log.len() {
            let k = j - log.len();
            assert((seq![first] + so_far)[k] == files[k]) by {
                if k > 0 {
                    assert(so_far[k - 1] == reports(pairs, src).subrange(0, so_far.len() as int)[k - 1]);
                }
            }
            assert(files[k] == plan_reports(pairs, src)[k]);
        }
    }
    assert(part =~= whole.subrange(0, part.len() as int));
}

/// What is reported of the first resources comes first.
proof fn lemma_reports_prefix(pairs: Pairs, src: Sources, n: int)
    requires
        0 <= n <= pairs.len(),
    ensures
        reports(pairs.take(n), src).is_prefix_of(reports(pairs, src)),
    decreases pairs.len() - n,
{
    if n == pairs.len() {
        assert(pairs.take(n) =~= pairs);
    } else {
        lemma_reports_prefix(pairs, src, n + 1);
        assert(pairs.take(n + 1).drop_last() =~= pairs.take(n));
        let short = reports(pairs.take(n), src);
        let long = reports(pairs.take(n + 1), src);
        assert(short =~= long.subrange(0, short.len() as int));
        assert(short =~= reports(pairs, src).subrange(0, short.len() as int));
    }
}

/// What is packed of the first resources comes first.
proof fn lemma_packed_prefix(pairs: Pairs, src: Sources, n: int)
    requires
        0 <= n <= pairs.len(),
    ensures
        packed(pairs.take(n), src).is_prefix_of(packed(pairs, src)),
    decreases pairs.len() - n,
{
    if n == pairs.len() {
        assert(pairs.take(n) =~= pairs);
    } else {
        lemma_packed_prefix(pairs, src, n + 1);
        assert(pairs.take(n + 1).drop_last() =~= pairs.take(n));
        let short = packed(pairs.take(n), src);
        let long = packed(pairs.take(n + 1), src);
        assert(short =~= long.subrange(0, short.len() as int));
        assert(short =~= packed(pairs, src).subrange(0, short.len() as int));
    }
}

/// Whether the resource list is packed, with one resource more.
proof fn lemma_packs_res_step(pairs: Pairs, src: Sources, n: int)
    requires
        0 <= n < pairs.len(),
    ensures
        packs_res(pairs.take(n + 1), src) == (packs_res(pairs.take(n), src) || (pairs[n].0
            == lowercase(res_file(src.mapname)) && fate(pairs[n].0, pairs[n].1, src) is Added)),
{
    let a = pairs.take(n);
    let b = pairs.take(n + 1);
    if packs_res(a, src) {
        let i = choose|i: int|
            0 <= i < a.len() && (#[trigger] a[i]).0 == lowercase(res_file(src.mapname)) && fate(
                a[i].0,
                a[i].1,
                src,
            ) is Added;
        assert(b[i] == a[i]);
    }
    if pairs[n].0 == lowercase(res_file(src.mapname)) && fate(pairs[n].0, pairs[n].1, src) is Added {
        assert(b[n] == pairs[n]);
    }
    if packs_res(b, src) {
        let i = choose|i: int|
            0 <= i < b.len() && (#[trigger] b[i]).0 == lowercase(res_file(src.mapname)) && fate(
                b[i].0,
                b[i].1,
                src,
            ) is Added;
        if i < n {
            assert(a[i] == b[i]);
        }
    }
}

/// One more entry with a new name leaves names distinct.
proof fn lemma_distinct_push(entries: Seq<Entry>, entry: Entry)
    requires
        distinct_names(entries),
        !has_entry(entries, entry.0),
    ensures
        distinct_names(entries.push(entry)),
{
    let after = entries.push(entry);
    assert forall|i: int, j: int| 0 <= i < j < after.len() implies (#[trigger] after[i]).0 != (
    #[trigger] after[j]).0 by {
        assert(entries[i].0 == after[i].0);
        if j < entries.len() {
            assert(entries[j].0 == after[j].0);
        }
    }
}

} // verus!
