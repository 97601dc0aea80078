//! The detail textures that the file `maps/<map>_detail.txt` names.
use crate::paths::{enqueue, enqueued_all, lemma_enqueued_push, Queue};
use crate::table::StringTable;
use crate::text::{concat3, find, from_utf8, lemma_find_at, lines, lowercase, second_word};
use crate::text::{starts_with, strip_cr, text_second_word, to_lowercase, trim, trim_text};
use vstd::prelude::*;
use vstd::slice::slice_subrange;
use vstd::utf8::{decode_utf8, valid_utf8};

verus! {

/// The detail texture that an entry with the second word `texture` names: that
/// word, unless the entry is a comment, or the word, whose lowercase form is `low`,
/// is no path below `detail`.
pub open spec fn detail_of_entry(
    entry: Seq<char>,
    texture: Seq<char>,
    low: Seq<char>,
) -> Option<Seq<char>> {
    if entry.len() == 0 || "//"@.is_prefix_of(entry) || texture.len() == 0 || !"detail/"@.is_prefix_of(
        low,
    ) {
        None
    } else {
        Some(texture)
    }
}

/// The detail texture that a line of the file names. A line that is not UTF-8
/// names none.
pub open spec fn detail_of_line(line: Seq<u8>) -> Option<Seq<char>> {
    let entry = trim(decode_utf8(line));
    if valid_utf8(line) {
        detail_of_entry(entry, second_word(entry), lowercase(second_word(entry)))
    } else {
        None
    }
}

/// Whether `texture` differs from one of `others` in case at most.
pub open spec fn named_before(others: Seq<Seq<char>>, texture: Seq<char>) -> bool {
    exists|i: int|
        0 <= i < others.len() && lowercase(#[trigger] others[i]) == lowercase(texture)
}

/// The detail textures that the lines name, each once.
pub open spec fn details_of_lines(all: Seq<Seq<u8>>) -> Seq<Seq<char>>
    decreases all.len(),
{
    if all.len() == 0 {
        Seq::empty()
    } else {
        let before = details_of_lines(all.drop_last());
        match detail_of_line(all.last()) {
            Some(texture) if !named_before(before, texture) => before.push(texture),
            _ => before,
        }
    }
}

/// The file of a detail texture.
pub open spec fn detail_file(texture: Seq<char>) -> Seq<char> {
    "gfx/"@ + texture + ".tga"@
}

/// The files of the detail textures that the contents `data` of the file name.
pub open spec fn detail_paths(data: Seq<u8>) -> Seq<Seq<char>> {
    details_of_lines(lines(data, 10u8, 13u8)).map_values(|t: Seq<char>| detail_file(t))
}

/// The end of the line that begins at `from`.
fn line_end(data: &[u8], from: usize) -> (r: usize)
    requires
        from <= data@.len(),
    ensures
        from <= r <= data@.len(),
        r == from + find(data@.skip(from as int), 10u8),
        r < data@.len() ==> data@[r as int] == 10,
{
    let ghost rest = data@.skip(from as int);
    let mut k: usize = from;
    while k < data.len() && data[k] != 10
        invariant
            from <= k <= data@.len(),
            rest == data@.skip(from as int),
            forall|j: int| 0 <= j < k - from ==> rest[j] != 10,
        decreases data@.len() - k,
    {
        k += 1;
    }
    proof {
        lemma_find_at(rest, 10u8, k - from);
    }
    k
}

/// The detail texture that an entry with the second word `texture` names.
pub fn entry_detail(entry: &str, texture: String, low: &str) -> (r: Option<String>)
    ensures
        r is Some <==> detail_of_entry(entry@, texture@, low@) is Some,
        r matches Some(t) ==> detail_of_entry(entry@, texture@, low@) == Some(t@),
{
    if entry.is_empty() || starts_with(entry, "//") || texture.as_str().is_empty() || !starts_with(
        low,
        "detail/",
    ) {
        None
    } else {
        Some(texture)
    }
}

/// The texture that a line names.
fn read_detail(line: &[u8]) -> (r: Option<String>)
    ensures
        r is Some <==> detail_of_line(line@) is Some,
        r matches Some(texture) ==> detail_of_line(line@) == Some(texture@),
{
    match from_utf8(line) {
        Some(text) => {
            let entry: String = trim_text(text);
            let texture: String = text_second_word(entry.as_str());
            let low: String = to_lowercase(texture.as_str());
            entry_detail(entry.as_str(), texture, low.as_str())
        },
        None => None,
    }
}

/// The set of the lowercase forms of `names`.
spec fn lowered(names: Seq<Seq<char>>) -> Set<Seq<char>> {
    Set::new(|low: Seq<char>| exists|i: int| 0 <= i < names.len() && lowercase(#[trigger] names[i]) == low)
}

/// Adds the detail textures that the contents `data` of the file name.
pub fn collect_detail_textures(data: &[u8], queue: &mut Queue)
    ensures
        final(queue)@ == enqueued_all(old(queue)@, detail_paths(data@)),
{
    let n: usize = data.len();
    let ghost all = lines(data@, 10u8, 13u8);
    let ghost mut done = Seq::<Seq<u8>>::empty();
    let ghost file = |t: Seq<char>| detail_file(t);
    let mut seen: StringTable<()> = StringTable::new();
    let mut from: usize = 0;
    proof {
        assert(data@.skip(0) =~= data@);
        assert(done + all =~= all);
        assert(seen@.dom() =~= lowered(details_of_lines(done)));
        assert(details_of_lines(done).map_values(file) =~= Seq::empty());
    }
    while from < n
        invariant
            from <= n == data@.len(),
            file == (|t: Seq<char>| detail_file(t)),
            done + lines(data@.skip(from as int), 10u8, 13u8) == all,
            seen@.dom() == lowered(details_of_lines(done)),
            queue@ == enqueued_all(old(queue)@, details_of_lines(done).map_values(file)),
        decreases n - from,
    {
        let ghost rest = data@.skip(from as int);
        let k: usize = line_end(data, from);
        let to: usize = if k < n && k > from && data[k - 1] == 13 {
            k - 1
        } else {
            k
        };
        let line: &[u8] = slice_subrange(data, from, to);
        let next: usize = if k < n {
            k + 1
        } else {
            n
        };
        let ghost after = done.push(line@);
        let ghost before = details_of_lines(done);
        proof {
            assert(after.drop_last() =~= done);
            if k < n {
                assert(rest.take(k - from).len() > 0 ==> rest.take(k - from).last() == data@[k - 1]);
                assert(line@ =~= strip_cr(rest.take(k - from), 13u8));
                assert(rest.skip(k - from + 1) =~= data@.skip(next as int));
            } else {
                assert(line@ =~= rest);
                assert(data@.skip(next as int) =~= Seq::empty());
                assert(seq![line@] + lines(data@.skip(next as int), 10u8, 13u8) =~= seq![line@]);
            }
            assert(done + (seq![line@] + lines(data@.skip(next as int), 10u8, 13u8)) =~= after
                + lines(data@.skip(next as int), 10u8, 13u8));
        }
        if let Some(texture) = read_detail(line) {
            let low: String = to_lowercase(texture.as_str());
            proof {
                assert(seen@.contains_key(low@) == lowered(before).contains(low@));
                assert(lowered(before).contains(low@) == named_before(before, texture@));
            }
            if !seen.contains_key(low.as_str()) {
                let ghost set = seen@;
                seen.insert(low, ());
                let path: String = concat3("gfx/", texture.as_str(), ".tga");
                enqueue(path.as_str(), queue);
                proof {
                    let now = before.push(texture@);
                    assert(details_of_lines(after) == now);
                    assert(now.map_values(file) =~= before.map_values(file).push(path@));
                    lemma_enqueued_push(old(queue)@, before.map_values(file), path@);
                    assert(seen@.dom() =~= set.dom().insert(lowercase(texture@)));
                    assert forall|x: Seq<char>| #[trigger] lowered(now).contains(x) implies set.dom().insert(
                        lowercase(texture@),
                    ).contains(x) by {
                        let i = choose|i: int| 0 <= i < now.len() && lowercase(#[trigger] now[i]) == x;
                        if i < before.len() {
                            assert(before[i] == now[i]);
                            assert(lowered(before).contains(x));
                        }
                    }
                    assert forall|x: Seq<char>| set.dom().insert(lowercase(texture@)).contains(
                        x,
                    ) implies #[trigger] lowered(now).contains(x) by {
                        if x == lowercase(texture@) {
                            assert(now[now.len() - 1] == texture@);
                        } else {
                            assert(lowered(before).contains(x));
                            let i = choose|i: int|
                                0 <= i < before.len() && lowercase(#[trigger] before[i]) == x;
                            assert(now[i] == before[i]);
                        }
                    }
                    assert(seen@.dom() =~= lowered(now));
                }
            } else {
                proof {
                    assert(details_of_lines(after) == before);
                }
            }
        } else {
            proof {
                assert(details_of_lines(after) == before);
            }
        }
        proof {
            done = after;
        }
        from = next;
    }
    proof {
        assert(data@.skip(n as int) =~= Seq::empty());
        assert(done + Seq::<Seq<u8>>::empty() =~= done);
    }
}

} // verus!
