//! Laws of what is asked for, of where is searched, and of what is told.
use crate::archive::{name_fits, short, Entry};
use crate::laws::files::law_companions;
use crate::list::{is_needed, list_text, needed_of, path_lines};
use crate::pack::{summary_text, Totals};
use crate::paths::{ascii_enqueued, enqueued, folded_enqueued, has_extension, install_path};
use crate::paths::QueueMap;
use crate::plan::{dirs_for, joined, meaning, meaning_after, mode_text, Meaning, Options};
use crate::plan::Request;
use crate::server::{known_game_dir, located, ServerMap};
use crate::text::{ascii_lowered, decimal, lowercase};
use vstd::prelude::*;
use vstd::utf8::encode_utf8;

verus! {

// ---------------------------------------------------------------------------
// Arguments
// ---------------------------------------------------------------------------

/// Whether `arg` is one of the four flags.
pub open spec fn is_flag(arg: Seq<char>) -> bool {
    arg == "-r"@ || arg == "--res-only"@ || arg == "-o"@ || arg == "--out"@
}

/// Arguments that are no flags are paths, all of them and in order, whatever follows.
pub proof fn law_other_arguments_are_paths(
    plain: Seq<Seq<char>>,
    rest: Seq<Seq<char>>,
    so_far: Request,
)
    requires
        forall|i: int| 0 <= i < plain.len() ==> !is_flag(#[trigger] plain[i]),
    ensures
        meaning_after(plain + rest, so_far) == meaning_after(
            rest,
            (Request { paths: so_far.paths + plain, ..so_far }),
        ),
    decreases plain.len(),
{
    if plain.len() == 0 {
        assert(plain + rest =~= rest);
        assert(so_far.paths + plain =~= so_far.paths);
    } else {
        let tail = plain.drop_first();
        assert forall|i: int| 0 <= i < tail.len() implies !is_flag(#[trigger] tail[i]) by {
            assert(tail[i] == plain[i + 1]);
        }
        assert(!is_flag(plain[0]));
        let next = Request { paths: so_far.paths.push(plain[0]), ..so_far };
        law_other_arguments_are_paths(tail, rest, next);
        assert((plain + rest).drop_first() =~= tail + rest);
        assert(next.paths + tail =~= so_far.paths + plain);
    }
}

/// The flags ask for lists, in a short and a long spelling, or for an output directory,
/// which the next argument gives; what was asked for before stays, and so does the
/// meaning of what follows.
pub proof fn law_flags(rest: Seq<Seq<char>>, dir: Seq<char>, so_far: Request)
    ensures
        meaning_after(seq!["-r"@] + rest, so_far) == meaning_after(
            rest,
            (Request { out: so_far.out, res_only: true, paths: so_far.paths }),
        ),
        meaning_after(seq!["--res-only"@] + rest, so_far) == meaning_after(
            rest,
            (Request { out: so_far.out, res_only: true, paths: so_far.paths }),
        ),
        meaning_after(seq!["-o"@, dir] + rest, so_far) == meaning_after(
            rest,
            (Request { out: Some(dir), res_only: so_far.res_only, paths: so_far.paths }),
        ),
        meaning_after(seq!["--out"@, dir] + rest, so_far) == meaning_after(
            rest,
            (Request { out: Some(dir), res_only: so_far.res_only, paths: so_far.paths }),
        ),
        meaning_after(seq!["-o"@], so_far) == Meaning::MissingDirectory("-o"@),
        meaning_after(seq!["--out"@], so_far) == Meaning::MissingDirectory("--out"@),
{
    reveal_strlit("-r");
    reveal_strlit("--res-only");
    reveal_strlit("-o");
    reveal_strlit("--out");
    let short = "-o"@;
    let long = "--out"@;
    assert(short[1] != "-r"@[1]);
    assert(short.len() != "--res-only"@.len());
    assert(long.len() != "-r"@.len() && long.len() != "--res-only"@.len());
    let r = seq!["-r"@] + rest;
    assert(r[0] == "-r"@);
    assert(r.drop_first() =~= rest);
    let res = seq!["--res-only"@] + rest;
    assert(res[0] == "--res-only"@);
    assert(res.drop_first() =~= rest);
    let o = seq![short, dir] + rest;
    assert(o[0] == short && o[1] == dir);
    assert(o.skip(2) =~= rest);
    let out = seq![long, dir] + rest;
    assert(out[0] == long && out[1] == dir);
    assert(out.skip(2) =~= rest);
    assert(seq![short][0] == short);
    assert(seq![long][0] == long);
}

/// What is asked for is seen as it was read: the directory, the flag and every path.
pub proof fn law_options_are_seen_whole(options: Options, i: int)
    ensures
        options@.res_only == options.res_only,
        options@.out is Some <==> options.out is Some,
        options.out matches Some(dir) ==> options@.out == Some(dir@),
        options@.paths.len() == options.paths@.len(),
        0 <= i < options.paths@.len() ==> options@.paths[i] == options.paths@[i]@,
{
}

/// At first nothing is asked for, and in the end there must be a path.
pub proof fn law_a_path_is_needed(plain: Seq<Seq<char>>, so_far: Request)
    requires
        forall|i: int| 0 <= i < plain.len() ==> !is_flag(#[trigger] plain[i]),
    ensures
        meaning_after(Seq::empty(), so_far) == if so_far.paths.len() == 0 {
            Meaning::NoPaths
        } else {
            Meaning::Run(so_far)
        },
        meaning(plain) == if plain.len() == 0 {
            Meaning::NoPaths
        } else {
            Meaning::Run((Request { out: None, res_only: false, paths: plain }))
        },
        meaning(seq!["-r"@] + plain) == if plain.len() == 0 {
            Meaning::NoPaths
        } else {
            Meaning::Run((Request { out: None, res_only: true, paths: plain }))
        },
{
    let none = Seq::<Seq<char>>::empty();
    let begin = Request { out: None, res_only: false, paths: none };
    let list = Request { out: None, res_only: true, paths: none };
    law_other_arguments_are_paths(plain, none, begin);
    law_other_arguments_are_paths(plain, none, list);
    law_flags(plain, Seq::empty(), begin);
    assert(plain + none =~= plain);
    assert(none + plain =~= plain);
}

// ---------------------------------------------------------------------------
// Directories
// ---------------------------------------------------------------------------

/// Of a directory of downloads the game directory of the same name is searched too,
/// after it; of any other directory only itself.
pub proof fn law_downloads_come_first(base: Seq<char>)
    ensures
        dirs_for(base + "_downloads"@) == seq![base + "_downloads"@, base],
        (forall|head: Seq<char>| base != #[trigger] (head + "_downloads"@)) ==> dirs_for(base)
            == seq![base],
{
    reveal_strlit("_downloads");
    let end = "_downloads"@;
    let whole = base + end;
    assert(end =~= whole.subrange(whole.len() - end.len(), whole.len() as int));
    assert(whole.take(whole.len() - end.len()) =~= base);
    if end.is_suffix_of(base) {
        let head = base.take(base.len() - end.len());
        assert(base =~= head + end);
    }
}

/// A server keeps games in four directories, two of them with downloads.
pub proof fn law_four_game_directories(name: Seq<char>)
    ensures
        known_game_dir(name) <==> name == "cstrike"@ || name == "cstrike"@ + "_downloads"@ || name
            == "czero"@ || name == "czero"@ + "_downloads"@,
{
    reveal_strlit("_downloads");
    reveal_strlit("cstrike");
    reveal_strlit("cstrike_downloads");
    reveal_strlit("czero");
    reveal_strlit("czero_downloads");
    assert("cstrike_downloads"@ =~= "cstrike"@ + "_downloads"@);
    assert("czero_downloads"@ =~= "czero"@ + "_downloads"@);
}

/// The directories are told in order with an arrow between them.
pub proof fn law_directories_are_told(
    a: Seq<Seq<char>>,
    b: Seq<Seq<char>>,
    separator: Seq<char>,
    root: Seq<char>,
    loose: bool,
)
    requires
        a.len() > 0,
        b.len() > 0,
    ensures
        joined(a + b, separator) == joined(a, separator) + separator + joined(b, separator),
        joined(seq![root], separator) == root,
        joined(Seq::empty(), separator) == Seq::<char>::empty(),
        mode_text(false, false, root, a) == "Mode: server "@ + root + " ["@ + joined(a, " -> "@)
            + "]\n"@,
        mode_text(true, false, root, a) == "Mode: loose (resource list only)\n"@,
        mode_text(loose, true, root, a) == "Mode: resource list only\n"@,
    decreases b.len(),
{
    let whole = a + b;
    assert(whole.drop_last() =~= a + b.drop_last());
    assert(whole.last() == b.last());
    if b.len() == 1 {
        assert(a + b.drop_last() =~= a);
    } else {
        law_directories_are_told(a, b.drop_last(), separator, root, loose);
        assert(joined(a, separator) + separator + joined(b, separator) =~= joined(
            whole.drop_last(),
            separator,
        ) + separator + b.last());
    }
}

// ---------------------------------------------------------------------------
// The queue
// ---------------------------------------------------------------------------

/// Adding a path adds its install path under the lowercase form, where the path has an
/// extension and nothing is there; every other resource stays as it is.
pub proof fn law_one_path_is_added(queue: QueueMap, path: Seq<char>, other: Seq<char>)
    ensures
        ({
            let p = install_path(path);
            &&& has_extension(p) && !queue.contains_key(lowercase(p)) ==> enqueued(queue, path)
                == queue.insert(lowercase(p), p)
            &&& !has_extension(p) || queue.contains_key(lowercase(p)) ==> enqueued(queue, path)
                == queue
            &&& has_extension(p) ==> {
                &&& folded_enqueued(queue, path).contains_key(lowercase(ascii_lowered(p)))
                &&& ascii_enqueued(queue, path).contains_key(ascii_lowered(p))
                &&& !queue.contains_key(lowercase(ascii_lowered(p))) ==> folded_enqueued(
                    queue,
                    path,
                )[lowercase(ascii_lowered(p))] == p
                &&& !queue.contains_key(ascii_lowered(p)) ==> ascii_enqueued(queue, path)[
                    ascii_lowered(p)
                ] == p
            }
            &&& !has_extension(p) ==> folded_enqueued(queue, path) == queue && ascii_enqueued(
                queue,
                path,
            ) == queue
            &&& queue.contains_key(other) ==> {
                &&& folded_enqueued(queue, path).contains_key(other)
                &&& folded_enqueued(queue, path)[other] == queue[other]
                &&& ascii_enqueued(queue, path).contains_key(other)
                &&& ascii_enqueued(queue, path)[other] == queue[other]
            }
            &&& folded_enqueued(queue, path).contains_key(other) ==> queue.contains_key(other)
                || other == lowercase(ascii_lowered(p))
            &&& ascii_enqueued(queue, path).contains_key(other) ==> queue.contains_key(other)
                || other == ascii_lowered(p)
        }),
{
}

// ---------------------------------------------------------------------------
// Lists
// ---------------------------------------------------------------------------

/// A resource is listed exactly where it does not come with the game, is neither the
/// navigation mesh nor the resource list of the map, and is found on the server; or
/// where there is no server, is not one of the files that can accompany the map.
pub proof fn law_what_is_listed(
    key: Seq<char>,
    rel: Seq<char>,
    mapname: Seq<char>,
    vanilla: Set<Seq<char>>,
    server: ServerMap,
    dirs: Seq<Seq<char>>,
)
    ensures
        is_needed(key, rel, mapname, vanilla, Some(server), dirs) <==> {
            &&& !vanilla.contains(key)
            &&& key != lowercase("maps/"@ + mapname + ".nav"@)
            &&& key != lowercase("maps/"@ + mapname + ".res"@)
            &&& located(rel, server, dirs) is Some
        },
        is_needed(key, rel, mapname, vanilla, None, dirs) <==> {
            &&& !vanilla.contains(key)
            &&& key != lowercase("maps/"@ + mapname + ".nav"@)
            &&& key != lowercase("maps/"@ + mapname + ".res"@)
            &&& key != lowercase("maps/"@ + mapname + ".txt"@)
            &&& key != lowercase("maps/"@ + mapname + "_detail.txt"@)
            &&& key != lowercase("overviews/"@ + mapname + ".bmp"@)
            &&& key != lowercase("overviews/"@ + mapname + ".txt"@)
        },
{
    law_companions(mapname, key);
}

/// Resources are listed in order, each by its path.
pub proof fn law_listed_in_order(
    a: Seq<(Seq<char>, Seq<char>)>,
    b: Seq<(Seq<char>, Seq<char>)>,
    mapname: Seq<char>,
    vanilla: Set<Seq<char>>,
    server: Option<ServerMap>,
    dirs: Seq<Seq<char>>,
    key: Seq<char>,
    rel: Seq<char>,
)
    ensures
        needed_of(a + b, mapname, vanilla, server, dirs) == needed_of(
            a,
            mapname,
            vanilla,
            server,
            dirs,
        ) + needed_of(b, mapname, vanilla, server, dirs),
        needed_of(seq![(key, rel)], mapname, vanilla, server, dirs) == if is_needed(
            key,
            rel,
            mapname,
            vanilla,
            server,
            dirs,
        ) {
            seq![rel]
        } else {
            Seq::empty()
        },
    decreases b.len(),
{
    reveal_with_fuel(needed_of, 2);
    assert(seq![(key, rel)].drop_last() =~= Seq::empty());
    assert(seq![(key, rel)].last() == (key, rel));
    if b.len() == 0 {
        assert(a + b =~= a);
    } else {
        law_listed_in_order(a, b.drop_last(), mapname, vanilla, server, dirs, key, rel);
        assert((a + b).drop_last() =~= a + b.drop_last());
        assert((a + b).last() == b.last());
    }
}

/// A list is longer by a line for each path, and begins with two comments.
pub proof fn law_a_line_for_each_path(
    a: Seq<Seq<char>>,
    b: Seq<Seq<char>>,
    rel: Seq<char>,
    mapname: Seq<char>,
    stamp: Seq<char>,
)
    ensures
        path_lines(a + b) == path_lines(a) + path_lines(b),
        path_lines(seq![rel]) == rel.push('\n'),
        list_text(mapname, stamp, a + b) == list_text(mapname, stamp, a) + path_lines(b),
        list_text(mapname, stamp, Seq::empty()) == "// resources for "@ + mapname + ".bsp"@ + seq![
            '\n',
        ] + "// generated by packmap "@ + stamp + seq!['\n'],
    decreases b.len(),
{
    reveal_strlit("\n");
    reveal_strlit(".bsp");
    reveal_strlit(".bsp\n");
    reveal_with_fuel(path_lines, 2);
    assert("\n"@ =~= seq!['\n']);
    assert(".bsp\n"@ =~= ".bsp"@ + seq!['\n']);
    assert(seq![rel].drop_last() =~= Seq::empty());
    assert(seq![rel].last() == rel);
    assert(path_lines(seq![rel]) =~= rel.push('\n'));
    if b.len() == 0 {
        assert(a + b =~= a);
    } else {
        law_a_line_for_each_path(a, b.drop_last(), rel, mapname, stamp);
        assert((a + b).drop_last() =~= a + b.drop_last());
        assert((a + b).last() == b.last());
        assert(path_lines(a + b) =~= path_lines(a) + path_lines(b));
    }
    assert(list_text(mapname, stamp, a + b) =~= list_text(mapname, stamp, a) + path_lines(b));
    assert(list_text(mapname, stamp, Seq::empty()) =~= "// resources for "@ + mapname + ".bsp"@
        + seq!['\n'] + "// generated by packmap "@ + stamp + seq!['\n']);
}

// ---------------------------------------------------------------------------
// Totals and limits
// ---------------------------------------------------------------------------

/// The summary tells the number of entries, which the map and a generated list are
/// among, and the other numbers; a line on failures stands there only if there are any.
pub proof fn law_summary_tells_the_numbers(totals: Totals, output: Seq<char>)
    ensures
        ({
            let files = totals.packed as nat + if totals.generated {
                2nat
            } else {
                1nat
            };
            let head = "\n--- Summary ---\n  Added:   "@ + decimal(files) + " files\n  Vanilla: "@
                + decimal(totals.vanilla as nat) + " skipped\n  Missing: "@ + decimal(
                totals.missing as nat,
            ) + " not found on server\n"@;
            &&& totals.failed == 0 ==> summary_text(totals, output) == head + "  Output:  "@
                + output
            &&& totals.failed > 0 ==> summary_text(totals, output) == head + "  Failed:  "@
                + decimal(totals.failed as nat) + " unreadable, left out of the zip\n"@
                + "  Output:  "@ + output
        }),
{
    let files = totals.packed as nat + if totals.generated {
        2nat
    } else {
        1nat
    };
    assert(totals.entries() == files);
    let head = "\n--- Summary ---\n  Added:   "@ + decimal(files) + " files\n  Vanilla: "@
        + decimal(totals.vanilla as nat) + " skipped\n  Missing: "@ + decimal(
        totals.missing as nat,
    ) + " not found on server\n"@;
    assert(totals.failed == 0 ==> summary_text(totals, output) =~= head + "  Output:  "@ + output);
    assert(totals.failed > 0 ==> summary_text(totals, output) =~= head + "  Failed:  "@ + decimal(
        totals.failed as nat,
    ) + " unreadable, left out of the zip\n"@ + "  Output:  "@ + output);
}

/// A name fits with up to 65535 bytes, and contents are not too large with up to
/// 3758096384.
pub proof fn law_limits(name: Seq<char>, entries: Seq<Entry>)
    ensures
        name_fits(name) <==> encode_utf8(name).len() < 65536,
        short(entries) <==> forall|i: int|
            0 <= i < entries.len() ==> (#[trigger] entries[i]).1.len() <= 3758096384,
{
}

} // verus!
