//! What is to be done: the command line, and how a map is dealt with.
use crate::server::{is_known_game_dir, known_game_dir};
use crate::text::{ascii_lowered, concat2, concat4, copy_str, ends_with};
use crate::text::{same_ignoring_case, same_text, substring, texts, to_chars, trim, trim_text};
use vstd::prelude::*;

verus! {

// ---------------------------------------------------------------------------
// The command line
// ---------------------------------------------------------------------------

/// What the command line asks for.
#[derive(Debug)]
pub struct Options {
    /// The directory that output is written to, where one is given.
    pub out: Option<String>,
    /// Whether only resource lists are to be written.
    pub res_only: bool,
    /// The maps, and the directories of maps.
    pub paths: Vec<String>,
}

/// What is wrong with the command line.
#[derive(Debug)]
pub enum ArgsError {
    /// It names no map.
    NoPaths,
    /// The given option lacks its directory.
    MissingDirectory(String),
}

/// What the command line asks for, seen mathematically.
pub struct Request {
    pub out: Option<Seq<char>>,
    pub res_only: bool,
    pub paths: Seq<Seq<char>>,
}

/// The meaning of a command line.
pub enum Meaning {
    Run(Request),
    NoPaths,
    MissingDirectory(Seq<char>),
}

impl View for Options {
    type V = Request;

    open spec fn view(&self) -> Request {
        Request {
            out: match self.out {
                Some(dir) => Some(dir@),
                None => None,
            },
            res_only: self.res_only,
            paths: texts(self.paths@),
        }
    }
}

/// Whether `arg` asks for resource lists only.
pub open spec fn is_res_flag(arg: Seq<char>) -> bool {
    arg == "-r"@ || arg == "--res-only"@
}

/// Whether `arg` announces the output directory.
pub open spec fn is_out_flag(arg: Seq<char>) -> bool {
    arg == "-o"@ || arg == "--out"@
}

/// The meaning of the arguments `args`, after others that ask for `so_far`.
pub open spec fn meaning_after(args: Seq<Seq<char>>, so_far: Request) -> Meaning
    decreases args.len(),
{
    if args.len() == 0 {
        if so_far.paths.len() == 0 {
            Meaning::NoPaths
        } else {
            Meaning::Run(so_far)
        }
    } else if is_res_flag(args[0]) {
        meaning_after(args.drop_first(), Request { res_only: true, ..so_far })
    } else if is_out_flag(args[0]) {
        if args.len() == 1 {
            Meaning::MissingDirectory(args[0])
        } else {
            meaning_after(args.skip(2), Request { out: Some(args[1]), ..so_far })
        }
    } else {
        meaning_after(
            args.drop_first(),
            Request { paths: so_far.paths.push(args[0]), ..so_far },
        )
    }
}

/// The meaning of the arguments `args`. Options can stand anywhere; of two output
/// directories the later counts.
pub open spec fn meaning(args: Seq<Seq<char>>) -> Meaning {
    meaning_after(args, Request { out: None, res_only: false, paths: Seq::empty() })
}

/// What the arguments ask for, or what is wrong with them.
pub fn parse_args(args: &Vec<String>) -> (r: Result<Options, ArgsError>)
    ensures
        match r {
            Ok(options) => meaning(texts(args@)) == Meaning::Run(options@),
            Err(ArgsError::NoPaths) => meaning(texts(args@)) == Meaning::NoPaths,
            Err(ArgsError::MissingDirectory(flag)) => meaning(texts(args@))
                == Meaning::MissingDirectory(flag@),
        },
        r matches Ok(options) ==> options.paths@.len() > 0,
{
    let ghost all = texts(args@);
    let mut options: Options = Options { out: None, res_only: false, paths: Vec::new() };
    let n: usize = args.len();
    let mut i: usize = 0;
    proof {
        assert(all.skip(0) =~= all);
        assert(texts(options.paths@) =~= Seq::empty());
    }
    while i < n
        invariant
            i <= n == args@.len(),
            all == texts(args@),
            meaning_after(all.skip(i as int), options@) == meaning(all),
        decreases n - i,
    {
        let arg: &str = args[i].as_str();
        let ghost rest = all.skip(i as int);
        let ghost before = options@;
        proof {
            assert(rest[0] == arg@);
            assert(rest.drop_first() =~= all.skip(i + 1));
        }
        if same_text(arg, "-r") || same_text(arg, "--res-only") {
            options.res_only = true;
            i += 1;
        } else if same_text(arg, "-o") || same_text(arg, "--out") {
            if i + 1 == n {
                return Err(ArgsError::MissingDirectory(copy_str(arg)));
            }
            proof {
                assert(rest[1] == args@[i + 1]@);
                assert(rest.skip(2) =~= all.skip(i + 2));
            }
            options.out = Some(args[i + 1].clone());
            i += 2;
        } else {
            options.paths.push(copy_str(arg));
            proof {
                assert(options@.paths =~= before.paths.push(arg@));
            }
            i += 1;
        }
    }
    if options.paths.len() == 0 {
        Err(ArgsError::NoPaths)
    } else {
        Ok(options)
    }
}

/// Whether a file with the extension `extension` is a map.
pub fn is_bsp_extension(extension: &str) -> (r: bool)
    ensures
        r == (ascii_lowered(extension@) == "bsp"@),
{
    proof {
        reveal_strlit("bsp");
        assert(ascii_lowered("bsp"@) =~= "bsp"@);
    }
    same_ignoring_case(extension, "bsp")
}

/// Whether `answer` agrees to packing all maps of a directory.
pub fn is_yes(answer: &str) -> (r: bool)
    ensures
        r == (ascii_lowered(trim(answer@)) == "y"@),
{
    let word: String = trim_text(answer);
    proof {
        reveal_strlit("y");
        assert(ascii_lowered("y"@) =~= "y"@);
    }
    same_ignoring_case(word.as_str(), "y")
}

// ---------------------------------------------------------------------------
// A map
// ---------------------------------------------------------------------------

/// How a map is dealt with.
pub struct MapPlan {
    /// Whether the map is not inside a server, so that there is nothing to
    /// archive from.
    pub loose: bool,
    /// The directories of the server that are searched, in order.
    pub search_dirs: Vec<String>,
}

/// The directories that are searched for the resources of a map in the game
/// directory `game_dir`. Besides downloads, the game itself is searched.
pub open spec fn dirs_for(game_dir: Seq<char>) -> Seq<Seq<char>> {
    if "_downloads"@.is_suffix_of(game_dir) {
        seq![game_dir, game_dir.take(game_dir.len() - "_downloads"@.len())]
    } else {
        seq![game_dir]
    }
}

/// How a map is dealt with whose directory lies in `game_dir`: as part of a server
/// where that is a known one, and lies in a directory itself.
pub fn plan_map(game_dir: &str, has_server_root: bool) -> (r: MapPlan)
    ensures
        r.loose == !(has_server_root && known_game_dir(game_dir@)),
        texts(r.search_dirs@) == if r.loose {
            Seq::empty()
        } else {
            dirs_for(game_dir@)
        },
{
    let mut search_dirs: Vec<String> = Vec::new();
    if !has_server_root || !is_known_game_dir(game_dir) {
        proof {
            assert(texts(search_dirs@) =~= Seq::empty());
        }
        return MapPlan { loose: true, search_dirs };
    }
    search_dirs.push(copy_str(game_dir));
    if ends_with(game_dir, "_downloads") {
        let chars: Vec<char> = to_chars(game_dir);
        proof {
            reveal_strlit("_downloads");
        }
        let base: String = substring(&chars, 0, chars.len() - 10);
        search_dirs.push(base);
    }
    proof {
        assert(texts(search_dirs@) =~= dirs_for(game_dir@));
    }
    MapPlan { loose: false, search_dirs }
}

/// The texts `parts`, with `separator` between them.
pub open spec fn joined(parts: Seq<Seq<char>>, separator: Seq<char>) -> Seq<char>
    decreases parts.len(),
{
    if parts.len() == 0 {
        Seq::empty()
    } else if parts.len() == 1 {
        parts[0]
    } else {
        joined(parts.drop_last(), separator) + separator + parts.last()
    }
}

/// The texts `parts`, with `separator` between them.
fn join(parts: &Vec<String>, separator: &str) -> (r: String)
    ensures
        r@ == joined(texts(parts@), separator@),
{
    let ghost all = texts(parts@);
    let mut r: String = String::new();
    let mut i: usize = 0;
    proof {
        assert(all.take(0) =~= Seq::empty());
    }
    while i < parts.len()
        invariant
            i <= parts@.len(),
            all == texts(parts@),
            r@ == joined(all.take(i as int), separator@),
        decreases parts@.len() - i,
    {
        proof {
            assert(all.take(i + 1).drop_last() =~= all.take(i as int));
            assert(all.take(i + 1).last() == parts@[i as int]@);
        }
        if i > 0 {
            r.append(separator);
        }
        r.append(parts[i].as_str());
        proof {
            if i == 0 {
                assert(r@ =~= parts@[0]@);
            }
        }
        i += 1;
    }
    proof {
        assert(all.take(i as int) =~= all);
    }
    r
}

/// The line that tells how a map is dealt with, where `root` is the server.
pub open spec fn mode_text(
    loose: bool,
    res_only: bool,
    root: Seq<char>,
    dirs: Seq<Seq<char>>,
) -> Seq<char> {
    if res_only {
        "Mode: resource list only\n"@
    } else if loose {
        "Mode: loose (resource list only)\n"@
    } else {
        "Mode: server "@ + root + " ["@ + joined(dirs, " -> "@) + "]\n"@
    }
}

/// The line that tells how a map is dealt with, where `root` is the server.
pub fn mode_line(plan: &MapPlan, res_only: bool, root: &str) -> (r: String)
    ensures
        r@ == mode_text(plan.loose, res_only, root@, texts(plan.search_dirs@)),
{
    if res_only {
        copy_str("Mode: resource list only\n")
    } else if plan.loose {
        copy_str("Mode: loose (resource list only)\n")
    } else {
        let dirs: String = join(&plan.search_dirs, " -> ");
        let line: String = concat4("Mode: server ", root, " [", dirs.as_str());
        concat2(line.as_str(), "]\n")
    }
}

} // verus!
