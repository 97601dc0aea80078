//! Paths of resources, and the queue in which they are gathered.
//!
//! A path is kept as the map spells it, with forward slashes, relative to the
//! game directory. Two paths that differ in case only are the same resource.
use crate::table::StringTable;
use crate::text::{ascii_lowered, concat2, ends_with, lowercase, starts_with, substring, to_chars};
use crate::text::{is_directory, to_lowercase};
use vstd::prelude::*;
use vstd::utf8::is_ascii_chars;

verus! {

/// The resources gathered so far: the lowercase form of each path, with the path
/// as it was spelled first.
pub type Queue = StringTable<String>;

/// The queue, seen mathematically.
pub type QueueMap = Map<Seq<char>, Seq<char>>;

// ---------------------------------------------------------------------------
// The form of a path
// ---------------------------------------------------------------------------

/// `s` with forward slashes in place of backslashes.
pub open spec fn slashed(s: Seq<char>) -> Seq<char> {
    s.map_values(|c: char| if c == '\\' { '/' } else { c })
}

/// `s` without slashes at its start.
pub open spec fn unrooted(s: Seq<char>) -> Seq<char>
    decreases s.len(),
{
    if s.len() > 0 && s[0] == '/' {
        unrooted(s.drop_first())
    } else {
        s
    }
}

/// The path under which a resource is installed in the game directory.
pub open spec fn install_path(path: Seq<char>) -> Seq<char> {
    unrooted(slashed(path))
}

/// Whether `c` can be part of a file extension.
pub open spec fn is_extension_char(c: char) -> bool {
    'a' <= c <= 'z' || 'A' <= c <= 'Z' || '0' <= c <= '9' || c == '_'
}

/// Whether `s` ends in a dot and one or more extension characters.
pub open spec fn has_extension(s: Seq<char>) -> bool {
    exists|dot: int| extension_dot(s, dot)
}

/// Whether the extension of `s` begins behind the position `dot`.
pub open spec fn extension_dot(s: Seq<char>, dot: int) -> bool {
    0 <= dot < s.len() - 1 && s[dot] == '.' && forall|j: int|
        dot < j < s.len() ==> is_extension_char(#[trigger] s[j])
}

/// `s` with forward slashes in place of backslashes.
pub fn with_slashes(s: &str) -> (r: String)
    ensures
        r@ == slashed(s@),
{
    let chars: Vec<char> = to_chars(s);
    let mut r: String = String::new();
    let mut i: usize = 0;
    while i < chars.len()
        invariant
            i <= chars@.len(),
            chars@ == s@,
            r@ == slashed(s@.take(i as int)),
        decreases chars@.len() - i,
    {
        if chars[i] == '\\' {
            r.push('/');
        } else {
            r.push(chars[i]);
        }
        i += 1;
        proof {
            assert(r@ =~= slashed(s@.take(i as int)));
        }
    }
    proof {
        assert(s@.take(i as int) =~= s@);
    }
    r
}

/// The path under which a resource is installed in the game directory.
fn to_install_path(path: &str) -> (r: String)
    ensures
        r@ == install_path(path@),
{
    let s: String = with_slashes(path);
    let chars: Vec<char> = to_chars(s.as_str());
    let mut from: usize = 0;
    proof {
        assert(s@.skip(0) =~= s@);
    }
    while from < chars.len() && chars[from] == '/'
        invariant
            from <= chars@.len(),
            chars@ == s@,
            unrooted(s@.skip(from as int)) == unrooted(s@),
        decreases chars@.len() - from,
    {
        proof {
            assert(s@.skip(from as int).drop_first() =~= s@.skip(from + 1));
        }
        from += 1;
    }
    let n: usize = chars.len();
    proof {
        assert(s@.skip(from as int) =~= s@.subrange(from as int, n as int));
    }
    substring(&chars, from, n)
}

/// Whether `s` ends in a dot and one or more extension characters.
fn check_extension(s: &str) -> (r: bool)
    ensures
        r == has_extension(s@),
{
    let chars: Vec<char> = to_chars(s);
    let n: usize = chars.len();
    let mut k: usize = n;
    while k > 0
        invariant
            k <= n == chars@.len(),
            chars@ == s@,
            forall|j: int| k <= j < n ==> is_extension_char(#[trigger] s@[j]),
        decreases k,
    {
        let c: char = chars[k - 1];
        if c == '.' {
            let r: bool = k < n;
            proof {
                if r {
                    assert(extension_dot(s@, k - 1));
                } else if has_extension(s@) {
                    let dot = choose|dot: int| extension_dot(s@, dot);
                    assert(is_extension_char(s@[n - 1]));
                }
            }
            return r;
        }
        let fits: bool = ('a' <= c && c <= 'z') || ('A' <= c && c <= 'Z') || ('0' <= c && c <= '9')
            || c == '_';
        if !fits {
            proof {
                if has_extension(s@) {
                    let dot = choose|dot: int| extension_dot(s@, dot);
                    assert(extension_dot(s@, dot));
                    assert(!is_extension_char(s@[k - 1]));
                    assert(s@[dot] == '.');
                }
            }
            return false;
        }
        k -= 1;
    }
    proof {
        if has_extension(s@) {
            let dot = choose|dot: int| extension_dot(s@, dot);
            assert(is_extension_char(s@[dot]));
        }
    }
    false
}

// ---------------------------------------------------------------------------
// The queue
// ---------------------------------------------------------------------------

/// The queue after the resource `path`, whose lowercase form is `key`, has been
/// added: where it is there already, the spelling that came first stays.
pub open spec fn enqueued_as(queue: QueueMap, path: Seq<char>, key: Seq<char>) -> QueueMap {
    if queue.contains_key(key) {
        queue
    } else {
        queue.insert(key, path)
    }
}

/// The queue after `path` has been added. A path without an extension names no
/// file, and is left out.
pub open spec fn enqueued(queue: QueueMap, path: Seq<char>) -> QueueMap {
    let p = install_path(path);
    if has_extension(p) {
        enqueued_as(queue, p, lowercase(p))
    } else {
        queue
    }
}

/// The queue after `path` has been added, where the case of ASCII letters is set
/// aside before the lowercase form is taken.
pub open spec fn folded_enqueued(queue: QueueMap, path: Seq<char>) -> QueueMap {
    let p = install_path(path);
    if has_extension(p) {
        enqueued_as(queue, p, lowercase(ascii_lowered(p)))
    } else {
        queue
    }
}

/// The queue after `path`, which is ASCII text, has been added.
pub open spec fn ascii_enqueued(queue: QueueMap, path: Seq<char>) -> QueueMap {
    let p = install_path(path);
    if has_extension(p) {
        enqueued_as(queue, p, ascii_lowered(p))
    } else {
        queue
    }
}

/// The queue after all of `paths` have been added, in order.
pub open spec fn enqueued_all(queue: QueueMap, paths: Seq<Seq<char>>) -> QueueMap
    decreases paths.len(),
{
    if paths.len() == 0 {
        queue
    } else {
        enqueued(enqueued_all(queue, paths.drop_last()), paths.last())
    }
}

/// Adds the resource `path`, whose lowercase form is `key`.
pub fn enqueue_as(path: String, key: String, queue: &mut Queue)
    ensures
        final(queue)@ == enqueued_as(old(queue)@, path@, key@),
{
    if !queue.contains_key(key.as_str()) {
        queue.insert(key, path);
    }
}

/// With its slashes put right a text holds no backslash.
pub proof fn lemma_slashed(s: Seq<char>)
    ensures
        !slashed(s).contains('\\'),
{
    if slashed(s).contains('\\') {
        let i = choose|i: int| 0 <= i < slashed(s).len() && slashed(s)[i] == '\\';
        assert(slashed(s)[i] != '\\');
    }
}

/// ASCII text stays ASCII with its slashes put right.
proof fn lemma_slashed_ascii(s: Seq<char>)
    requires
        is_ascii_chars(s),
    ensures
        is_ascii_chars(slashed(s)),
{
    assert forall|i: int| 0 <= i < slashed(s).len() implies '\0' <= #[trigger] slashed(s)[i]
        <= '\u{7f}' by {
        assert('\0' <= s[i] <= '\u{7f}');
    }
}

/// ASCII text stays ASCII without its leading slashes.
proof fn lemma_unrooted_ascii(s: Seq<char>)
    requires
        is_ascii_chars(s),
    ensures
        is_ascii_chars(unrooted(s)),
    decreases s.len(),
{
    if s.len() > 0 && s[0] == '/' {
        assert forall|i: int| 0 <= i < s.drop_first().len() implies '\0' <= #[trigger] s.drop_first()[i]
            <= '\u{7f}' by {
            assert('\0' <= s[i + 1] <= '\u{7f}');
        }
        lemma_unrooted_ascii(s.drop_first());
    }
}

/// Adds `path` to the queue.
pub fn enqueue(path: &str, queue: &mut Queue)
    ensures
        final(queue)@ == enqueued(old(queue)@, path@),
        final(queue)@ == folded_enqueued(old(queue)@, path@),
        is_ascii_chars(path@) ==> final(queue)@ == ascii_enqueued(old(queue)@, path@),
{
    let p: String = to_install_path(path);
    proof {
        if is_ascii_chars(path@) {
            lemma_slashed_ascii(path@);
            lemma_unrooted_ascii(slashed(path@));
        }
    }
    if check_extension(p.as_str()) {
        let key: String = to_lowercase(p.as_str());
        enqueue_as(p, key, queue);
    }
}

/// Adding one more path than `paths` is adding it last.
pub proof fn lemma_enqueued_push(queue: QueueMap, paths: Seq<Seq<char>>, path: Seq<char>)
    ensures
        enqueued_all(queue, paths.push(path)) == enqueued(enqueued_all(queue, paths), path),
{
    assert(paths.push(path).drop_last() =~= paths);
}

/// Adding two lists one after the other is adding their concatenation.
pub proof fn lemma_enqueued_concat(queue: QueueMap, a: Seq<Seq<char>>, b: Seq<Seq<char>>)
    ensures
        enqueued_all(queue, a + b) == enqueued_all(enqueued_all(queue, a), b),
    decreases b.len(),
{
    if b.len() == 0 {
        assert(a + b =~= a);
    } else {
        lemma_enqueued_concat(queue, a, b.drop_last());
        assert((a + b).drop_last() =~= a + b.drop_last());
    }
}

// ---------------------------------------------------------------------------
// Values of entities
// ---------------------------------------------------------------------------

/// Where the file named by `s`, whose lowercase form is `low`, is installed. The
/// path of a sound is relative to the directory `sound`; that of a model or a
/// sprite is given from the game directory on, unless it is a bare file name.
pub open spec fn placed(s: Seq<char>, low: Seq<char>) -> Seq<char> {
    if ".wav"@.is_suffix_of(low) && !"sound/"@.is_prefix_of(low) {
        "sound/"@ + s
    } else if !s.contains('/') && ".mdl"@.is_suffix_of(low) {
        "models/"@ + s
    } else if !s.contains('/') && ".spr"@.is_suffix_of(low) {
        "sprites/"@ + s
    } else {
        s
    }
}

/// Where the file that the value `val` of an entity names is installed.
pub open spec fn normalized(val: Seq<char>) -> Seq<char> {
    placed(slashed(val), lowercase(slashed(val)))
}

/// Placing a path brings in no backslash.
pub proof fn lemma_placed_slashes(s: Seq<char>, low: Seq<char>)
    requires
        !s.contains('\\'),
    ensures
        !placed(s, low).contains('\\'),
{
    reveal_strlit("sound/");
    reveal_strlit("models/");
    reveal_strlit("sprites/");
    let r = placed(s, low);
    if r.contains('\\') {
        let i = choose|i: int| 0 <= i < r.len() && r[i] == '\\';
        let shift = r.len() - s.len();
        assert(i >= shift ==> s[i - shift] == '\\');
        assert(i >= shift ==> s.contains('\\'));
    }
}

/// Text without backslashes keeps its slashes.
pub proof fn lemma_slashed_stable(s: Seq<char>)
    requires
        !s.contains('\\'),
    ensures
        slashed(s) == s,
{
    assert forall|i: int| 0 <= i < s.len() implies slashed(s)[i] == s[i] by {
        assert(s.contains(s[i]));
    }
    assert(slashed(s) =~= s);
}

/// Whether the lowercase form of `rest` is the same behind the directory `dir`.
pub open spec fn keeps_case(dir: Seq<char>, rest: Seq<char>) -> bool {
    lowercase(dir + rest) == dir + lowercase(rest)
}

/// A path that has been placed stays where it is, and holds no backslash.
pub proof fn lemma_normalized_stable(val: Seq<char>)
    requires
        keeps_case("sound/"@, slashed(val)),
        keeps_case("models/"@, slashed(val)),
        keeps_case("sprites/"@, slashed(val)),
    ensures
        normalized(normalized(val)) == normalized(val),
        !normalized(val).contains('\\'),
{
    reveal_strlit("sound/");
    reveal_strlit("models/");
    reveal_strlit("sprites/");
    reveal_strlit(".wav");
    reveal_strlit(".mdl");
    reveal_strlit(".spr");
    let s = slashed(val);
    let low = lowercase(s);
    let r = normalized(val);
    lemma_slashed(val);
    lemma_placed_slashes(s, low);
    lemma_slashed_stable(r);
    if ".wav"@.is_suffix_of(low) && !"sound/"@.is_prefix_of(low) {
        assert("sound/"@ =~= ("sound/"@ + low).subrange(0, 6));
        assert(r[5] == '/');
        assert(r.contains('/'));
    } else if !s.contains('/') && ".mdl"@.is_suffix_of(low) {
        assert(low.last() == ".mdl"@[3]);
        assert(("models/"@ + low).last() == low.last());
        assert(!".wav"@.is_suffix_of("models/"@ + low));
        assert(r[6] == '/');
        assert(r.contains('/'));
    } else if !s.contains('/') && ".spr"@.is_suffix_of(low) {
        assert(low.last() == ".spr"@[3]);
        assert(("sprites/"@ + low).last() == low.last());
        assert(!".wav"@.is_suffix_of("sprites/"@ + low));
        assert(r[7] == '/');
        assert(r.contains('/'));
    }
}

/// Whether `s` holds a slash.
fn contains_slash(s: &str) -> (r: bool)
    ensures
        r == s@.contains('/'),
{
    let chars: Vec<char> = to_chars(s);
    let mut i: usize = 0;
    while i < chars.len()
        invariant
            i <= chars@.len(),
            chars@ == s@,
            forall|j: int| 0 <= j < i ==> s@[j] != '/',
        decreases chars@.len() - i,
    {
        if chars[i] == '/' {
            proof {
                assert(s@[i as int] == '/');
            }
            return true;
        }
        i += 1;
    }
    false
}

/// Where the file named by `s`, whose lowercase form is `low`, is installed.
pub fn place_path(s: String, low: &str) -> (r: String)
    ensures
        r@ == placed(s@, low@),
{
    if ends_with(low, ".wav") && !starts_with(low, "sound/") {
        return concat2("sound/", s.as_str());
    }
    if !contains_slash(s.as_str()) {
        if ends_with(low, ".mdl") {
            return concat2("models/", s.as_str());
        }
        if ends_with(low, ".spr") {
            return concat2("sprites/", s.as_str());
        }
    }
    s
}

/// Where the file that the value `val` of an entity names is installed. A path that
/// has been placed stays where it is.
pub fn normalize_path(val: &str) -> (r: String)
    ensures
        r@ == normalized(val@),
        is_ascii_chars(val@) ==> r@ == placed(slashed(val@), ascii_lowered(slashed(val@))),
        normalized(r@) == r@,
        !r@.contains('\\'),
{
    let s: String = with_slashes(val);
    let low: String = to_lowercase(s.as_str());
    proof {
        if is_ascii_chars(val@) {
            lemma_slashed_ascii(val@);
        }
        reveal_strlit("sound/");
        reveal_strlit("models/");
        reveal_strlit("sprites/");
        assert(is_directory("sound/"@) && is_directory("models/"@) && is_directory("sprites/"@));
        assert(ascii_lowered("sound/"@) =~= "sound/"@);
        assert(ascii_lowered("models/"@) =~= "models/"@);
        assert(ascii_lowered("sprites/"@) =~= "sprites/"@);
        lemma_normalized_stable(val@);
    }
    place_path(s, low.as_str())
}

} // verus!
