//! The entities of a map, parsed from their text.
use crate::table::StringTable;
use crate::text::{find, find_in, lemma_find, lowercase, split, split_text, substring, texts};
use crate::text::{to_chars, to_lowercase};
use vstd::prelude::*;

verus! {

/// An entity: the values of its keys.
pub type Entity = StringTable<String>;

/// The keys of an entity and their values, seen mathematically.
pub type EntityMap = Map<Seq<char>, Seq<char>>;

/// The maps of a list of entities.
pub open spec fn entity_maps(v: Seq<Entity>) -> Seq<EntityMap> {
    v.map_values(|e: Entity| e@)
}

/// The entity with one pair more. A pair with an empty key is left out.
pub open spec fn with_pair(entity: EntityMap, key: Seq<char>, value: Seq<char>) -> EntityMap {
    if key.len() == 0 {
        entity
    } else {
        entity.insert(key, value)
    }
}

/// The entity made of the first `n` pairs of quoted texts, where `pieces` are the
/// texts between the quotes of a block: what stands before the first quote, a
/// key, what stands between key and value, a value, what stands between that and
/// the next key, and so on. Keys are made lowercase. Of two pairs with the same
/// key the later counts.
pub open spec fn entity_of_pieces(pieces: Seq<Seq<char>>, n: int) -> EntityMap
    decreases n,
{
    if n <= 0 {
        Map::empty()
    } else {
        with_pair(
            entity_of_pieces(pieces, n - 1),
            lowercase(pieces[4 * n - 3]),
            pieces[4 * n - 1],
        )
    }
}

/// The entity that a block between braces describes. A pair counts only where all
/// four of its quotes are there.
pub open spec fn entity_of_block(block: Seq<char>) -> EntityMap {
    let pieces = split(block, '"');
    entity_of_pieces(pieces, (pieces.len() - 1) / 4)
}

/// The entities that `text` describes: one for each block between an opening
/// brace and the closing brace that comes next, unless the block holds no pair.
pub open spec fn entities_of(text: Seq<char>) -> Seq<EntityMap>
    decreases text.len(),
{
    let open = find(text, '{');
    let rest = text.skip(open + 1);
    let close = find(rest, '}');
    if 0 <= open < text.len() && 0 <= close < rest.len() {
        let entity = entity_of_block(rest.take(close));
        let others = entities_of(rest.skip(close + 1));
        if entity == EntityMap::empty() {
            others
        } else {
            seq![entity] + others
        }
    } else {
        Seq::empty()
    }
}

/// Adds a pair to the entity.
pub fn add_pair(entity: &mut Entity, key: String, value: String)
    ensures
        final(entity)@ == with_pair(old(entity)@, key@, value@),
{
    if !key.as_str().is_empty() {
        entity.insert(key, value);
    }
}

/// The entity that `block` describes.
fn parse_block(block: &str) -> (r: Entity)
    ensures
        r@ == entity_of_block(block@),
{
    let pieces: Vec<String> = split_text(block, '"');
    let ghost p = split(block@, '"');
    let mut entity: Entity = StringTable::new();
    let count: usize = pieces.len();
    let mut n: usize = 0;
    let mut at: usize = 0;
    while at < count && count - at > 4
        invariant
            texts(pieces@) == p,
            count == pieces@.len(),
            p.len() == count,
            at == 4 * n,
            n > 0 ==> at < count,
            entity@ == entity_of_pieces(p, n as int),
        decreases count - at,
    {
        proof {
            assert(p[at + 1] == pieces@[at + 1]@);
            assert(p[at + 3] == pieces@[at + 3]@);
        }
        let key: String = to_lowercase(pieces[at + 1].as_str());
        add_pair(&mut entity, key, pieces[at + 3].clone());
        n += 1;
        at += 4;
    }
    proof {
        lemma_split_len(block@, '"');
        assert((count - 1) / 4 == n);
    }
    entity
}

/// There is always a piece.
proof fn lemma_split_len(s: Seq<char>, c: char)
    ensures
        split(s, c).len() >= 1,
{
}

/// The entities that `text` describes.
pub fn parse_entities(text: &str) -> (r: Vec<Entity>)
    ensures
        entity_maps(r@) == entities_of(text@),
{
    let chars: Vec<char> = to_chars(text);
    let n: usize = chars.len();
    let mut r: Vec<Entity> = Vec::new();
    let mut from: usize = 0;
    proof {
        assert(text@.skip(0) =~= text@);
        assert(entity_maps(r@) + entities_of(text@) =~= entities_of(text@));
    }
    loop
        invariant
            n == chars@.len(),
            chars@ == text@,
            from <= n,
            entity_maps(r@) + entities_of(text@.skip(from as int)) == entities_of(text@),
        decreases n - from,
    {
        let ghost here = text@.skip(from as int);
        let open: usize = find_in(&chars, '{', from, n);
        proof {
            assert(chars@.subrange(from as int, n as int) =~= here);
            lemma_find(here, '{');
        }
        if open == n {
            proof {
                assert(entity_maps(r@) + Seq::<EntityMap>::empty() =~= entity_maps(r@));
            }
            return r;
        }
        let ghost rest = text@.skip(open + 1);
        let close: usize = find_in(&chars, '}', open + 1, n);
        proof {
            assert(here.skip(open - from + 1) =~= rest);
            assert(chars@.subrange(open + 1, n as int) =~= rest);
            lemma_find(rest, '}');
        }
        if close == n {
            proof {
                assert(entity_maps(r@) + Seq::<EntityMap>::empty() =~= entity_maps(r@));
            }
            return r;
        }
        let block: String = substring(&chars, open + 1, close);
        let entity: Entity = parse_block(block.as_str());
        let ghost before = r@;
        proof {
            assert(block@ =~= rest.take(close - open - 1));
            assert(rest.skip(close - open) =~= text@.skip(close + 1));
        }
        if !entity.is_empty() {
            let ghost e = entity@;
            r.push(entity);
            proof {
                assert(entity_maps(r@) =~= entity_maps(before).push(e));
                assert(entity_maps(before) + (seq![e] + entities_of(text@.skip(close + 1)))
                    =~= entity_maps(r@) + entities_of(text@.skip(close + 1)));
            }
        }
        from = close + 1;
    }
}

} // verus!
