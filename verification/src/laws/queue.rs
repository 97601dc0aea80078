//! Laws of paths and of the queue.
use crate::paths::{enqueued, enqueued_all, extension_dot, folded_enqueued, has_extension};
use crate::paths::{install_path, is_extension_char, lemma_slashed, lemma_slashed_stable};
use crate::paths::{slashed, unrooted, QueueMap};
use crate::table::{lemma_listable_insert, listable};
use crate::text::{ascii_lower, ascii_lowered, lowercase};
use vstd::prelude::*;

verus! {

/// Whether `path` names the resource with the lowercase form `key`.
pub open spec fn names(path: Seq<char>, key: Seq<char>) -> bool {
    has_extension(install_path(path)) && lowercase(install_path(path)) == key
}

/// Whether one of `paths` names the resource with the lowercase form `key`.
pub open spec fn one_names(paths: Seq<Seq<char>>, key: Seq<char>) -> bool {
    exists|i: int| 0 <= i < paths.len() && names(#[trigger] paths[i], key)
}

/// Whether `path` is a path below the game directory, with forward slashes, that
/// names a file with an extension.
pub open spec fn is_install_path(path: Seq<char>) -> bool {
    &&& has_extension(path)
    &&& path.len() > 0 && path[0] != '/'
    &&& !path.contains('\\')
}

/// Whether the queue holds install paths, each under its lowercase form.
pub open spec fn is_queue(queue: QueueMap) -> bool {
    forall|key: Seq<char>| #[trigger]
        queue.contains_key(key) ==> is_install_path(queue[key]) && lowercase(queue[key]) == key
}

/// After a list of paths has been added, the queue holds what it held before and
/// the resources that the paths name, and nothing else.
pub proof fn law_queue_holds_what_is_named(
    queue: QueueMap,
    paths: Seq<Seq<char>>,
    key: Seq<char>,
)
    ensures
        enqueued_all(queue, paths).contains_key(key) <==> queue.contains_key(key) || one_names(
            paths,
            key,
        ),
    decreases paths.len(),
{
    if paths.len() > 0 {
        let before = paths.drop_last();
        law_queue_holds_what_is_named(queue, before, key);
        if one_names(before, key) {
            let i = choose|i: int| 0 <= i < before.len() && names(#[trigger] before[i], key);
            assert(paths[i] == before[i]);
        }
        if names(paths.last(), key) {
            assert(names(paths[paths.len() - 1], key));
        }
        if one_names(paths, key) {
            let i = choose|i: int| 0 <= i < paths.len() && names(#[trigger] paths[i], key);
            if i < before.len() {
                assert(before[i] == paths[i]);
            }
        }
    }
}

/// What the queue holds is not changed by adding paths.
pub proof fn law_first_spelling_stays(queue: QueueMap, paths: Seq<Seq<char>>, key: Seq<char>)
    requires
        queue.contains_key(key),
    ensures
        enqueued_all(queue, paths).contains_key(key),
        enqueued_all(queue, paths)[key] == queue[key],
    decreases paths.len(),
{
    if paths.len() > 0 {
        law_first_spelling_stays(queue, paths.drop_last(), key);
    }
}

/// A resource that was not in the queue is spelled as the first path spells it
/// that names it.
pub proof fn law_first_path_spells(
    queue: QueueMap,
    paths: Seq<Seq<char>>,
    i: int,
    key: Seq<char>,
)
    requires
        0 <= i < paths.len(),
        names(paths[i], key),
        !queue.contains_key(key),
        forall|j: int| 0 <= j < i ==> !names(#[trigger] paths[j], key),
    ensures
        enqueued_all(queue, paths)[key] == install_path(paths[i]),
    decreases paths.len(),
{
    let before = paths.drop_last();
    if i < before.len() {
        assert(before[i] == paths[i]);
        assert forall|j: int| 0 <= j < i implies !names(#[trigger] before[j], key) by {
            assert(before[j] == paths[j]);
        }
        law_first_path_spells(queue, before, i, key);
        law_queue_holds_what_is_named(queue, before, key);
        assert(names(before[i], key));
    } else {
        law_queue_holds_what_is_named(queue, before, key);
        if one_names(before, key) {
            let j = choose|j: int| 0 <= j < before.len() && names(#[trigger] before[j], key);
            assert(before[j] == paths[j]);
        }
    }
}

proof fn lemma_unrooted(s: Seq<char>)
    requires
        !s.contains('\\'),
    ensures
        !unrooted(s).contains('\\'),
        unrooted(s).len() > 0 ==> unrooted(s)[0] != '/',
    decreases s.len(),
{
    if s.len() > 0 && s[0] == '/' {
        let rest = s.drop_first();
        if rest.contains('\\') {
            let i = choose|i: int| 0 <= i < rest.len() && rest[i] == '\\';
            assert(s[i + 1] == '\\');
        }
        lemma_unrooted(rest);
    }
}

/// Whatever is added, the queue holds install paths only, each under its
/// lowercase form.
pub proof fn law_queue_stays_a_queue(queue: QueueMap, paths: Seq<Seq<char>>)
    requires
        is_queue(queue),
    ensures
        is_queue(enqueued_all(queue, paths)),
    decreases paths.len(),
{
    if paths.len() > 0 {
        law_queue_stays_a_queue(queue, paths.drop_last());
        let before = enqueued_all(queue, paths.drop_last());
        let p = install_path(paths.last());
        lemma_slashed(paths.last());
        lemma_unrooted(slashed(paths.last()));
        let after = enqueued_all(queue, paths);
        assert forall|key: Seq<char>| #[trigger] after.contains_key(key) implies is_install_path(
            after[key],
        ) && lowercase(after[key]) == key by {
            if !before.contains_key(key) {
                assert(after[key] == p);
            } else {
                assert(after[key] == before[key]);
            }
        }
    }
}

/// Which resources are in the queue does not depend on the order in which paths
/// are added, nor on how often.
pub proof fn law_order_does_not_matter(queue: QueueMap, a: Seq<Seq<char>>, b: Seq<Seq<char>>)
    requires
        forall|path: Seq<char>| a.contains(path) <==> b.contains(path),
    ensures
        enqueued_all(queue, a).dom() == enqueued_all(queue, b).dom(),
{
    let left = enqueued_all(queue, a).dom();
    let right = enqueued_all(queue, b).dom();
    assert forall|key: Seq<char>| left.contains(key) <==> right.contains(key) by {
        law_queue_holds_what_is_named(queue, a, key);
        law_queue_holds_what_is_named(queue, b, key);
        if one_names(a, key) {
            let i = choose|i: int| 0 <= i < a.len() && names(#[trigger] a[i], key);
            assert(a.contains(a[i]));
            assert(b.contains(a[i]));
            let j = choose|j: int| 0 <= j < b.len() && b[j] == a[i];
            assert(names(b[j], key));
        }
        if one_names(b, key) {
            let i = choose|i: int| 0 <= i < b.len() && names(#[trigger] b[i], key);
            assert(b.contains(b[i]));
            assert(a.contains(b[i]));
            let j = choose|j: int| 0 <= j < a.len() && a[j] == b[i];
            assert(names(a[j], key));
        }
    }
    assert(left =~= right);
}

/// Adding paths whose resources are all in the queue changes nothing.
proof fn lemma_nothing_new(queue: QueueMap, paths: Seq<Seq<char>>)
    requires
        forall|i: int|
            0 <= i < paths.len() && has_extension(install_path(#[trigger] paths[i]))
                ==> queue.contains_key(lowercase(install_path(paths[i]))),
    ensures
        enqueued_all(queue, paths) == queue,
    decreases paths.len(),
{
    if paths.len() > 0 {
        let before = paths.drop_last();
        assert forall|i: int|
            0 <= i < before.len() && has_extension(
                install_path(#[trigger] before[i]),
            ) implies queue.contains_key(lowercase(install_path(before[i]))) by {
            assert(before[i] == paths[i]);
        }
        lemma_nothing_new(queue, before);
        assert(paths.last() == paths[paths.len() - 1]);
    }
}

/// Adding the same paths again changes nothing.
pub proof fn law_adding_again_changes_nothing(queue: QueueMap, paths: Seq<Seq<char>>)
    ensures
        enqueued_all(enqueued_all(queue, paths), paths) == enqueued_all(queue, paths),
{
    let after = enqueued_all(queue, paths);
    assert forall|i: int|
        0 <= i < paths.len() && has_extension(
            install_path(#[trigger] paths[i]),
        ) implies after.contains_key(lowercase(install_path(paths[i]))) by {
        let key = lowercase(install_path(paths[i]));
        assert(names(paths[i], key));
        law_queue_holds_what_is_named(queue, paths, key);
    }
    lemma_nothing_new(after, paths);
}

/// A queue that can be walked still can after paths have been added.
pub proof fn law_queue_can_be_walked(queue: QueueMap, paths: Seq<Seq<char>>)
    requires
        listable(queue),
    ensures
        listable(enqueued_all(queue, paths)),
    decreases paths.len(),
{
    if paths.len() > 0 {
        law_queue_can_be_walked(queue, paths.drop_last());
        let before = enqueued_all(queue, paths.drop_last());
        let p = install_path(paths.last());
        if has_extension(p) && !before.contains_key(lowercase(p)) {
            lemma_listable_insert(before, lowercase(p), p);
        }
    }
}

/// An install path is its own install path.
pub proof fn law_install_path_is_stable(path: Seq<char>)
    ensures
        install_path(install_path(path)) == install_path(path),
{
    lemma_slashed(path);
    lemma_unrooted(slashed(path));
    lemma_slashed_stable(install_path(path));
}

/// Adding a path that the queue holds changes nothing.
pub proof fn law_queued_paths_are_settled(queue: QueueMap, key: Seq<char>)
    requires
        is_queue(queue),
        queue.contains_key(key),
    ensures
        enqueued(queue, queue[key]) == queue,
{
    lemma_slashed_stable(queue[key]);
}

// ---------------------------------------------------------------------------
// Other spellings
// ---------------------------------------------------------------------------

/// Whether `s` is made of slashes, in either direction.
pub open spec fn all_slashes(s: Seq<char>) -> bool {
    forall|i: int| 0 <= i < s.len() ==> (#[trigger] s[i] == '/' || s[i] == '\\')
}

proof fn lemma_leading_slashes(lead: Seq<char>, path: Seq<char>)
    requires
        all_slashes(lead),
    ensures
        install_path(lead + path) == install_path(path),
    decreases lead.len(),
{
    if lead.len() == 0 {
        assert(lead + path =~= path);
    } else {
        let rest = lead.drop_first();
        assert forall|i: int| 0 <= i < rest.len() implies (#[trigger] rest[i] == '/' || rest[i]
            == '\\') by {
            assert(rest[i] == lead[i + 1]);
        }
        lemma_leading_slashes(rest, path);
        let s = slashed(lead + path);
        assert(lead[0] == '/' || lead[0] == '\\');
        assert(s[0] == '/');
        assert(s.drop_first() =~= slashed(rest + path));
    }
}

/// Adding a path again with slashes in the other direction, or with further slashes
/// before it, changes nothing.
pub proof fn law_other_slashes_change_nothing(
    queue: QueueMap,
    path: Seq<char>,
    lead: Seq<char>,
    other: Seq<char>,
)
    requires
        all_slashes(lead),
        slashed(other) == slashed(path),
    ensures
        enqueued(enqueued(queue, path), lead + other) == enqueued(queue, path),
{
    lemma_leading_slashes(lead, other);
}

proof fn lemma_unrooted_lowered(s: Seq<char>)
    ensures
        ascii_lowered(unrooted(s)) == unrooted(ascii_lowered(s)),
    decreases s.len(),
{
    if s.len() > 0 {
        assert(ascii_lowered(s)[0] == ascii_lower(s[0]));
        if s[0] == '/' {
            assert(ascii_lowered(s).drop_first() =~= ascii_lowered(s.drop_first()));
            lemma_unrooted_lowered(s.drop_first());
        }
    }
}

/// Whether a text has an extension does not depend on the case of its letters.
proof fn lemma_extension_lowered(a: Seq<char>, b: Seq<char>)
    requires
        ascii_lowered(a) == ascii_lowered(b),
        has_extension(a),
    ensures
        has_extension(b),
{
    let dot = choose|dot: int| extension_dot(a, dot);
    assert(extension_dot(a, dot));
    assert(a.len() == ascii_lowered(a).len() && b.len() == ascii_lowered(b).len());
    assert forall|j: int| 0 <= j < a.len() implies ascii_lower(a[j]) == ascii_lower(
        #[trigger] b[j],
    ) by {
        assert(ascii_lowered(a)[j] == ascii_lower(a[j]));
        assert(ascii_lowered(b)[j] == ascii_lower(b[j]));
    }
    assert(ascii_lower(a[dot]) == ascii_lower(b[dot]));
    assert forall|j: int| dot < j < b.len() implies is_extension_char(#[trigger] b[j]) by {
        assert(is_extension_char(a[j]));
        assert(ascii_lower(a[j]) == ascii_lower(b[j]));
    }
    assert(extension_dot(b, dot));
}

proof fn lemma_same_spelling(path: Seq<char>, lead: Seq<char>, other: Seq<char>)
    requires
        all_slashes(lead),
        ascii_lowered(slashed(other)) == ascii_lowered(slashed(path)),
    ensures
        ascii_lowered(install_path(lead + other)) == ascii_lowered(install_path(path)),
        has_extension(install_path(lead + other)) == has_extension(install_path(path)),
{
    lemma_leading_slashes(lead, other);
    lemma_unrooted_lowered(slashed(other));
    lemma_unrooted_lowered(slashed(path));
    let a = install_path(path);
    let b = install_path(other);
    if has_extension(a) {
        lemma_extension_lowered(a, b);
    }
    if has_extension(b) {
        lemma_extension_lowered(b, a);
    }
}

/// Adding a path again changes nothing, whatever the case of its ASCII letters, the
/// direction of its slashes and the slashes before it: the first spelling is kept.
pub proof fn law_other_spellings_change_nothing(
    queue: QueueMap,
    path: Seq<char>,
    lead: Seq<char>,
    other: Seq<char>,
)
    requires
        all_slashes(lead),
        ascii_lowered(slashed(other)) == ascii_lowered(slashed(path)),
    ensures
        folded_enqueued(folded_enqueued(queue, path), lead + other) == folded_enqueued(queue, path),
{
    lemma_same_spelling(path, lead, other);
}

} // verus!
