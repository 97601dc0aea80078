//! Files that come with a model without being referred to.
//!
//! A model can keep its textures in `<name>T.mdl`, and its sequence groups in
//! `<name>01.mdl` and the following. The header of the model tells.
use crate::bsp::{le32, read_i32, signed32};
use crate::paths::{enqueue, enqueued_all, lemma_enqueued_concat, lemma_enqueued_push};
use crate::paths::{Queue, QueueMap};
use crate::server::{find_on_server, lemma_located_present, located, FileRead, FileView};
use crate::server::{Server, ServerMap};
use crate::table::listing;
use crate::text::{concat2, concat3, copy_str, ends_with, lowercase, substring, texts};
use crate::text::{to_chars, to_lowercase, two_digit_text, two_digits};
use vstd::prelude::*;

verus! {

/// The size of the part of the header that is read.
pub const HEADER_SIZE: usize = 184;

/// Where the header tells the number of sequence groups.
pub const GROUPS_AT: usize = 172;

/// Where the header tells the number of textures.
pub const TEXTURES_AT: usize = 180;

/// Whether `header` begins as the header of a model does.
pub open spec fn is_model_header(header: Seq<u8>) -> bool {
    header.len() >= HEADER_SIZE && header[0] == 73 && header[1] == 68 && header[2] == 83
        && header[3] == 84
}

/// The path of a model without its extension.
pub open spec fn stem(rel: Seq<char>) -> Seq<char> {
    rel.take(if rel.len() >= 4 { rel.len() - 4 } else { 0 })
}

/// The file of the sequence group `group`. The group 0 is in the model itself.
pub open spec fn group_file(rel: Seq<char>, group: int) -> Seq<char> {
    stem(rel) + two_digits(group as nat) + ".mdl"@
}

/// The files of the sequence groups from 1 to below `groups`.
pub open spec fn group_files(rel: Seq<char>, groups: int) -> Seq<Seq<char>> {
    Seq::new(
        (if groups > 1 { groups - 1 } else { 0 }) as nat,
        |i: int| group_file(rel, i + 1),
    )
}

/// The files that come with the model `rel` whose header is `header`.
pub open spec fn sibling_paths(rel: Seq<char>, header: Seq<u8>) -> Seq<Seq<char>> {
    if is_model_header(header) {
        let textures = if signed32(le32(header, TEXTURES_AT as int)) == 0 {
            seq![stem(rel) + "T.mdl"@]
        } else {
            Seq::empty()
        };
        textures + group_files(rel, signed32(le32(header, GROUPS_AT as int)))
    } else {
        Seq::empty()
    }
}

/// The models among the paths of `pairs`.
pub open spec fn models_among(pairs: Seq<(Seq<char>, Seq<char>)>) -> Seq<Seq<char>>
    decreases pairs.len(),
{
    if pairs.len() == 0 {
        Seq::empty()
    } else {
        let before = models_among(pairs.drop_last());
        let rel = pairs.last().1;
        if ".mdl"@.is_suffix_of(lowercase(rel)) {
            before.push(rel)
        } else {
            before
        }
    }
}

/// The models in the queue, in the order of their lowercase forms.
pub open spec fn models_in(queue: QueueMap) -> Seq<Seq<char>> {
    models_among(listing(queue))
}

/// The contents of the file `rel`, where the server has it and it can be read.
pub open spec fn contents(
    rel: Seq<char>,
    server: ServerMap,
    dirs: Seq<Seq<char>>,
) -> Option<Seq<u8>> {
    match located(rel, server, dirs) {
        Some(path) => match server[path] {
            FileView::Bytes(data) => Some(data),
            FileView::Failed(_) => None,
        },
        None => None,
    }
}

/// The files that come with the model `rel` on the server.
pub open spec fn model_siblings(
    rel: Seq<char>,
    server: ServerMap,
    dirs: Seq<Seq<char>>,
) -> Seq<Seq<char>> {
    match contents(rel, server, dirs) {
        Some(header) => sibling_paths(rel, header),
        None => Seq::empty(),
    }
}

/// The files that come with the models `rels` on the server.
pub open spec fn all_siblings(
    rels: Seq<Seq<char>>,
    server: ServerMap,
    dirs: Seq<Seq<char>>,
) -> Seq<Seq<char>>
    decreases rels.len(),
{
    if rels.len() == 0 {
        Seq::empty()
    } else {
        all_siblings(rels.drop_last(), server, dirs) + model_siblings(rels.last(), server, dirs)
    }
}

/// The contents of the file `rel`, where the server has it and it can be read.
pub fn read_contents<'a>(rel: &str, server: &'a Server, search_dirs: &Vec<String>) -> (r: Option<
    &'a Vec<u8>,
>)
    ensures
        r is Some <==> contents(rel@, server@, texts(search_dirs@)) is Some,
        r matches Some(data) ==> contents(rel@, server@, texts(search_dirs@)) == Some(data@),
{
    match find_on_server(rel, server, search_dirs) {
        Some(path) => match server.get(path.as_str()) {
            Some(FileRead::Bytes(data)) => Some(data),
            Some(FileRead::Failed(_)) => None,
            None => {
                proof {
                    lemma_located_present(rel@, server@, texts(search_dirs@));
                }
                None
            },
        },
        None => None,
    }
}

/// The models in the queue, in the order of their lowercase forms.
pub fn queued_models(queue: &Queue) -> (r: Vec<String>)
    ensures
        texts(r@) == models_in(queue@),
{
    let n: usize = queue.len();
    let ghost pairs = listing(queue@);
    let mut r: Vec<String> = Vec::new();
    let mut i: usize = 0;
    proof {
        assert(pairs.take(0) =~= Seq::empty());
        assert(texts(r@) =~= Seq::empty());
    }
    while i < n
        invariant
            i <= n == pairs.len(),
            pairs == listing(queue@),
            texts(r@) == models_among(pairs.take(i as int)),
        decreases n - i,
    {
        let rel: &String = queue.value(i);
        let low: String = to_lowercase(rel.as_str());
        proof {
            assert(pairs.take(i + 1).drop_last() =~= pairs.take(i as int));
        }
        if ends_with(low.as_str(), ".mdl") {
            let ghost before = r@;
            r.push(copy_str(rel.as_str()));
            proof {
                assert(texts(r@) =~= texts(before).push(rel@));
            }
        }
        i += 1;
    }
    proof {
        assert(pairs.take(i as int) =~= pairs);
    }
    r
}

/// Adds the files of the sequence groups from 1 to below `groups`.
fn collect_groups(rel: &str, base: &str, groups: i32, queue: &mut Queue)
    requires
        base@ == stem(rel@),
    ensures
        final(queue)@ == enqueued_all(old(queue)@, group_files(rel@, groups as int)),
{
    let ghost all = group_files(rel@, groups as int);
    let mut g: i32 = 1;
    proof {
        assert(all.take(0) =~= Seq::empty());
        assert(all.take(all.len() as int) =~= all);
    }
    while g < groups
        invariant
            1 <= g,
            g <= groups || (g == 1 && all.len() == 0),
            base@ == stem(rel@),
            all == group_files(rel@, groups as int),
            queue@ == enqueued_all(old(queue)@, all.take(g - 1)),
        decreases groups - g,
    {
        let number: String = two_digit_text(g as u64);
        let path: String = concat3(base, number.as_str(), ".mdl");
        enqueue(path.as_str(), queue);
        proof {
            assert(all.take(g as int) =~= all.take(g - 1).push(path@));
            lemma_enqueued_push(old(queue)@, all.take(g - 1), path@);
        }
        g += 1;
    }
    proof {
        assert(all.take(g - 1) =~= all);
    }
}

/// Adds the files that come with the model `rel` whose header is `header`.
pub fn collect_siblings(rel: &str, header: &Vec<u8>, queue: &mut Queue)
    ensures
        final(queue)@ == enqueued_all(old(queue)@, sibling_paths(rel@, header@)),
{
    if header.len() < HEADER_SIZE || header[0] != 73 || header[1] != 68 || header[2] != 83
        || header[3] != 84 {
        return;
    }
    let groups: i32 = read_i32(header.as_slice(), GROUPS_AT);
    let textures: i32 = read_i32(header.as_slice(), TEXTURES_AT);
    let chars: Vec<char> = to_chars(rel);
    let n: usize = chars.len();
    let base: String = substring(
        &chars,
        0,
        if n >= 4 {
            n - 4
        } else {
            0
        },
    );
    let ghost first = if textures == 0 {
        seq![stem(rel@) + "T.mdl"@]
    } else {
        Seq::empty()
    };
    if textures == 0 {
        let path: String = concat2(base.as_str(), "T.mdl");
        enqueue(path.as_str(), queue);
        proof {
            let none = Seq::<Seq<char>>::empty();
            lemma_enqueued_push(old(queue)@, none, path@);
            assert(none.push(path@) =~= first);
        }
    }
    proof {
        assert(queue@ == enqueued_all(old(queue)@, first));
        lemma_enqueued_concat(old(queue)@, first, group_files(rel@, groups as int));
    }
    collect_groups(rel, base.as_str(), groups, queue);
}

/// Adds the files that come with the models in the queue.
pub fn collect_model_siblings(server: &Server, search_dirs: &Vec<String>, queue: &mut Queue)
    ensures
        final(queue)@ == enqueued_all(
            old(queue)@,
            all_siblings(models_in(old(queue)@), server@, texts(search_dirs@)),
        ),
{
    let models: Vec<String> = queued_models(queue);
    let ghost rels = models_in(queue@);
    let ghost dirs = texts(search_dirs@);
    let mut i: usize = 0;
    proof {
        assert(rels.take(0) =~= Seq::empty());
    }
    while i < models.len()
        invariant
            i <= models@.len(),
            rels == texts(models@),
            dirs == texts(search_dirs@),
            queue@ == enqueued_all(
                old(queue)@,
                all_siblings(rels.take(i as int), server@, dirs),
            ),
        decreases models@.len() - i,
    {
        let rel: &str = models[i].as_str();
        let ghost before = queue@;
        if let Some(header) = read_contents(rel, server, search_dirs) {
            collect_siblings(rel, header, queue);
        }
        proof {
            assert(rels.take(i + 1).drop_last() =~= rels.take(i as int));
            assert(rels.take(i + 1).last() == rel@);
            assert(queue@ == enqueued_all(before, model_siblings(rel@, server@, dirs)));
            lemma_enqueued_concat(
                old(queue)@,
                all_siblings(rels.take(i as int), server@, dirs),
                model_siblings(rel@, server@, dirs),
            );
        }
        i += 1;
    }
    proof {
        assert(rels.take(i as int) =~= rels);
    }
}

} // verus!
