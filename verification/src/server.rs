//! The files of a game server, as far as packing a map asks for them.
use crate::table::StringTable;
use crate::text::{after_last, ascii_lowered, concat2, concat3, copy_str, ends_with, lowercase};
use crate::text::{same_text, starts_with, text_after_last, texts, to_lowercase};
use vstd::prelude::*;
use vstd::utf8::is_ascii_chars;

verus! {

/// What came of reading a file.
#[derive(Debug)]
pub enum FileRead {
    /// Its contents.
    Bytes(Vec<u8>),
    /// The file is there, but for this reason its contents are not known.
    Failed(String),
}

/// What came of reading a file, seen mathematically.
pub enum FileView {
    Bytes(Seq<u8>),
    Failed(Seq<char>),
}

impl View for FileRead {
    type V = FileView;

    open spec fn view(&self) -> FileView {
        match self {
            FileRead::Bytes(data) => FileView::Bytes(data@),
            FileRead::Failed(reason) => FileView::Failed(reason@),
        }
    }
}

/// The files of a server, by their path below its root, or their absolute path.
/// Where a path is not in the table, no file is there.
pub type Server = StringTable<FileRead>;

/// The files of a server, seen mathematically.
pub type ServerMap = Map<Seq<char>, FileView>;

/// The files of the server, where there is one.
pub open spec fn server_view(server: Option<&Server>) -> Option<ServerMap> {
    match server {
        Some(s) => Some(s@),
        None => None,
    }
}

// ---------------------------------------------------------------------------
// Game directories
// ---------------------------------------------------------------------------

/// Whether `name` is a directory that a server keeps a game in.
pub open spec fn known_game_dir(name: Seq<char>) -> bool {
    name == "cstrike"@ || name == "cstrike_downloads"@ || name == "czero"@ || name
        == "czero_downloads"@
}

/// Whether `name` is a directory that a server keeps a game in.
pub fn is_known_game_dir(name: &str) -> (r: bool)
    ensures
        r == known_game_dir(name@),
{
    same_text(name, "cstrike") || same_text(name, "cstrike_downloads") || same_text(name, "czero")
        || same_text(name, "czero_downloads")
}

// ---------------------------------------------------------------------------
// Looking a file up
// ---------------------------------------------------------------------------

/// Whether `rel` names a texture archive, given its lowercase form `low`.
pub open spec fn is_wad(low: Seq<char>) -> bool {
    ".wad"@.is_suffix_of(low)
}

/// The path `rel`, seen from the directory `dir`. An absolute path is the same from
/// everywhere.
pub open spec fn path_in(dir: Seq<char>, rel: Seq<char>) -> Seq<char> {
    if rel.len() > 0 && rel[0] == '/' {
        rel
    } else if dir.len() == 0 || dir.last() == '/' {
        dir + rel
    } else {
        dir + "/"@ + rel
    }
}

/// The path `rel`, seen from the directory `dir`.
fn join_path(dir: &str, rel: &str) -> (r: String)
    ensures
        r@ == path_in(dir@, rel@),
{
    proof {
        reveal_strlit("/");
        assert("/"@ =~= seq!['/']);
        assert(rel@.len() > 0 ==> rel@.subrange(0, 1) =~= seq![rel@[0]]);
        assert(dir@.len() > 0 ==> dir@.subrange(dir@.len() - 1, dir@.len() as int) =~= seq![
            dir@.last(),
        ]);
        assert(seq![rel@[0]][0] == rel@[0] && seq!['/'][0] == '/' && seq![dir@.last()][0]
            == dir@.last());
    }
    if starts_with(rel, "/") {
        copy_str(rel)
    } else if dir.is_empty() || ends_with(dir, "/") {
        concat2(dir, rel)
    } else {
        concat3(dir, "/", rel)
    }
}

/// Where the file `rel` can be in the game directory `dir`. A texture archive is
/// also looked for at the top of the directory.
pub open spec fn places_in(rel: Seq<char>, wad: bool, dir: Seq<char>) -> Seq<Seq<char>> {
    let direct = path_in(dir, rel);
    if wad {
        seq![direct, path_in(dir, after_last(rel, '/'))]
    } else {
        seq![direct]
    }
}

/// Where the file `rel` can be, in the order in which the directories are
/// searched.
pub open spec fn places(rel: Seq<char>, wad: bool, dirs: Seq<Seq<char>>) -> Seq<Seq<char>>
    decreases dirs.len(),
{
    if dirs.len() == 0 {
        Seq::empty()
    } else {
        places(rel, wad, dirs.drop_last()) + places_in(rel, wad, dirs.last())
    }
}

/// The first of `paths` at which there is a file.
pub open spec fn first_present(server: ServerMap, paths: Seq<Seq<char>>) -> Option<Seq<char>>
    decreases paths.len(),
{
    if paths.len() == 0 {
        None
    } else if server.contains_key(paths[0]) {
        Some(paths[0])
    } else {
        first_present(server, paths.drop_first())
    }
}

/// Where the file `rel` can be, in the order in which the directories are
/// searched.
pub open spec fn candidates(rel: Seq<char>, dirs: Seq<Seq<char>>) -> Seq<Seq<char>> {
    places(rel, is_wad(lowercase(rel)), dirs)
}

/// Where the file `rel` is found on the server.
pub open spec fn located(
    rel: Seq<char>,
    server: ServerMap,
    dirs: Seq<Seq<char>>,
) -> Option<Seq<char>> {
    first_present(server, candidates(rel, dirs))
}

/// What is found first is there.
proof fn lemma_first_present(server: ServerMap, paths: Seq<Seq<char>>)
    ensures
        first_present(server, paths) matches Some(path) ==> server.contains_key(path),
    decreases paths.len(),
{
    if paths.len() > 0 && !server.contains_key(paths[0]) {
        lemma_first_present(server, paths.drop_first());
    }
}

/// A file is found only where there is one.
pub proof fn lemma_located_present(rel: Seq<char>, server: ServerMap, dirs: Seq<Seq<char>>)
    ensures
        located(rel, server, dirs) matches Some(path) ==> server.contains_key(path),
{
    lemma_first_present(server, candidates(rel, dirs));
}

/// Where the file `rel` can be, told whether it names a texture archive.
pub fn search_places(rel: &str, wad: bool, search_dirs: &Vec<String>) -> (r: Vec<String>)
    ensures
        texts(r@) == places(rel@, wad, texts(search_dirs@)),
{
    let mut r: Vec<String> = Vec::new();
    let ghost dirs = texts(search_dirs@);
    let mut i: usize = 0;
    proof {
        assert(texts(r@) =~= places(rel@, wad, dirs.take(0)));
    }
    while i < search_dirs.len()
        invariant
            i <= search_dirs@.len(),
            dirs == texts(search_dirs@),
            texts(r@) == places(rel@, wad, dirs.take(i as int)),
        decreases search_dirs@.len() - i,
    {
        let ghost before = r@;
        let ghost dir = dirs[i as int];
        r.push(join_path(search_dirs[i].as_str(), rel));
        if wad {
            let base: String = text_after_last(rel, '/');
            r.push(join_path(search_dirs[i].as_str(), base.as_str()));
        }
        i += 1;
        proof {
            assert(dirs.take(i as int).drop_last() =~= dirs.take(i - 1));
            assert(texts(r@) =~= texts(before) + places_in(rel@, wad, dir));
        }
    }
    proof {
        assert(dirs.take(i as int) =~= dirs);
    }
    r
}

/// Where the file `rel` can be, in the order in which the directories are
/// searched.
pub fn server_candidates(rel: &str, search_dirs: &Vec<String>) -> (r: Vec<String>)
    ensures
        texts(r@) == candidates(rel@, texts(search_dirs@)),
        is_ascii_chars(rel@) ==> texts(r@) == places(
            rel@,
            is_wad(ascii_lowered(rel@)),
            texts(search_dirs@),
        ),
{
    let low: String = to_lowercase(rel);
    let wad: bool = ends_with(low.as_str(), ".wad");
    search_places(rel, wad, search_dirs)
}

/// Where the file `rel` is found on the server: the first of its candidates at
/// which there is a file.
pub fn find_on_server(rel: &str, server: &Server, search_dirs: &Vec<String>) -> (r: Option<String>)
    ensures
        r is Some <==> located(rel@, server@, texts(search_dirs@)) is Some,
        r matches Some(path) ==> located(rel@, server@, texts(search_dirs@)) == Some(path@),
        is_ascii_chars(rel@) ==> located(rel@, server@, texts(search_dirs@)) == first_present(
            server@,
            places(rel@, is_wad(ascii_lowered(rel@)), texts(search_dirs@)),
        ),
{
    let paths: Vec<String> = server_candidates(rel, search_dirs);
    let ghost all = texts(paths@);
    let mut i: usize = 0;
    proof {
        assert(all.skip(0) =~= all);
    }
    while i < paths.len()
        invariant
            i <= paths@.len(),
            all == texts(paths@),
            all == candidates(rel@, texts(search_dirs@)),
            is_ascii_chars(rel@) ==> all == places(
                rel@,
                is_wad(ascii_lowered(rel@)),
                texts(search_dirs@),
            ),
            first_present(server@, all.skip(i as int)) == first_present(server@, all),
        decreases paths@.len() - i,
    {
        proof {
            assert(all.skip(i as int)[0] == paths@[i as int]@);
            assert(all.skip(i as int).drop_first() =~= all.skip(i + 1));
        }
        if server.contains_key(paths[i].as_str()) {
            return Some(copy_str(paths[i].as_str()));
        }
        i += 1;
    }
    None
}

} // verus!
