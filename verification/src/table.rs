//! A map from strings, walked in the order of its keys.
//!
//! Keys are ordered as `String` orders them: by the bytes of their UTF-8 form.
use vstd::prelude::*;
use vstd::utf8::{encode_utf8, encode_utf8_decode_utf8};

verus! {

// ---------------------------------------------------------------------------
// The order of keys
// ---------------------------------------------------------------------------

/// Whether `a` comes before `b` in lexicographic order.
pub open spec fn bytes_before(a: Seq<u8>, b: Seq<u8>) -> bool
    decreases a.len(),
{
    if a.len() == 0 || b.len() == 0 {
        a.len() < b.len()
    } else if a[0] == b[0] {
        bytes_before(a.drop_first(), b.drop_first())
    } else {
        a[0] < b[0]
    }
}

/// Whether the key `a` comes before the key `b`.
pub open spec fn precedes(a: Seq<char>, b: Seq<char>) -> bool {
    bytes_before(encode_utf8(a), encode_utf8(b))
}

proof fn lemma_bytes_irreflexive(a: Seq<u8>)
    ensures
        !bytes_before(a, a),
    decreases a.len(),
{
    if a.len() > 0 {
        lemma_bytes_irreflexive(a.drop_first());
    }
}

proof fn lemma_bytes_transitive(a: Seq<u8>, b: Seq<u8>, c: Seq<u8>)
    requires
        bytes_before(a, b),
        bytes_before(b, c),
    ensures
        bytes_before(a, c),
    decreases a.len(),
{
    if a.len() > 0 && a[0] == b[0] && b[0] == c[0] {
        lemma_bytes_transitive(a.drop_first(), b.drop_first(), c.drop_first());
    }
}

/// A common prefix does not bear on the order.
proof fn lemma_bytes_common(a: Seq<u8>, b: Seq<u8>, k: int)
    requires
        0 <= k <= a.len(),
        k <= b.len(),
        forall|j: int| 0 <= j < k ==> a[j] == b[j],
    ensures
        bytes_before(a, b) == bytes_before(a.skip(k), b.skip(k)),
    decreases k,
{
    if k == 0 {
        assert(a.skip(0) =~= a);
        assert(b.skip(0) =~= b);
    } else {
        assert forall|j: int| 0 <= j < k - 1 implies a.drop_first()[j] == b.drop_first()[j] by {
            assert(a[j + 1] == b[j + 1]);
        }
        lemma_bytes_common(a.drop_first(), b.drop_first(), k - 1);
        assert(a.drop_first().skip(k - 1) =~= a.skip(k));
        assert(b.drop_first().skip(k - 1) =~= b.skip(k));
    }
}

/// No key comes before itself.
pub proof fn lemma_precedes_irreflexive(a: Seq<char>)
    ensures
        !precedes(a, a),
{
    lemma_bytes_irreflexive(encode_utf8(a));
}

/// The order of keys is transitive.
pub proof fn lemma_precedes_transitive(a: Seq<char>, b: Seq<char>, c: Seq<char>)
    requires
        precedes(a, b),
        precedes(b, c),
    ensures
        precedes(a, c),
{
    lemma_bytes_transitive(encode_utf8(a), encode_utf8(b), encode_utf8(c));
}

proof fn lemma_bytes_total(a: Seq<u8>, b: Seq<u8>)
    ensures
        bytes_before(a, b) || bytes_before(b, a) || a == b,
    decreases a.len(),
{
    if a.len() > 0 && b.len() > 0 && a[0] == b[0] {
        lemma_bytes_total(a.drop_first(), b.drop_first());
        if a.drop_first() == b.drop_first() {
            assert(a =~= seq![a[0]] + a.drop_first());
            assert(b =~= seq![b[0]] + b.drop_first());
        }
    } else if a.len() == 0 && b.len() == 0 {
        assert(a =~= b);
    }
}

/// Of two different keys one comes before the other.
pub proof fn lemma_precedes_total(a: Seq<char>, b: Seq<char>)
    ensures
        precedes(a, b) || precedes(b, a) || a == b,
{
    lemma_bytes_total(encode_utf8(a), encode_utf8(b));
    encode_utf8_decode_utf8(a);
    encode_utf8_decode_utf8(b);
}

/// How two keys relate.
#[derive(Clone, Copy, PartialEq, Eq, Structural)]
enum Relation {
    Before,
    Same,
    After,
}

/// How the key `a` relates to the key `b`.
fn relate(a: &str, b: &str) -> (r: Relation)
    ensures
        r == Relation::Before <==> precedes(a@, b@),
        r == Relation::Same <==> a@ == b@,
        r == Relation::After <==> precedes(b@, a@),
{
    let x: &[u8] = a.as_bytes();
    let y: &[u8] = b.as_bytes();
    let mut i: usize = 0;
    while i < x.len() && i < y.len() && x[i] == y[i]
        invariant
            i <= x@.len(),
            i <= y@.len(),
            forall|j: int| 0 <= j < i ==> x@[j] == y@[j],
        decreases x@.len() - i,
    {
        i += 1;
    }
    proof {
        lemma_bytes_common(x@, y@, i as int);
        lemma_bytes_common(y@, x@, i as int);
        lemma_precedes_irreflexive(a@);
        encode_utf8_decode_utf8(a@);
        encode_utf8_decode_utf8(b@);
        if i == x@.len() && i == y@.len() {
            assert(x@ =~= y@);
        }
    }
    if i == x.len() {
        if i == y.len() {
            Relation::Same
        } else {
            Relation::Before
        }
    } else if i == y.len() {
        Relation::After
    } else if x[i] < y[i] {
        Relation::Before
    } else {
        Relation::After
    }
}

// ---------------------------------------------------------------------------
// Listings
// ---------------------------------------------------------------------------

/// Whether the keys of `pairs` ascend, so that none occurs twice.
pub open spec fn ascending<T>(pairs: Seq<(Seq<char>, T)>) -> bool {
    forall|i: int, j: int|
        0 <= i < j < pairs.len() ==> precedes((#[trigger] pairs[i]).0, (#[trigger] pairs[j]).0)
}

/// Whether `pairs[i]` is the pair of `key`.
pub open spec fn pair_at<T>(pairs: Seq<(Seq<char>, T)>, key: Seq<char>, i: int) -> bool {
    0 <= i < pairs.len() && pairs[i].0 == key
}

/// The map made of `pairs`.
pub open spec fn map_of<T>(pairs: Seq<(Seq<char>, T)>) -> Map<Seq<char>, T> {
    Map::new(
        |key: Seq<char>| exists|i: int| pair_at(pairs, key, i),
        |key: Seq<char>| pairs[choose|i: int| pair_at(pairs, key, i)].1,
    )
}

/// Whether `pairs` lists the map `m` in the order of its keys.
pub open spec fn is_listing<T>(pairs: Seq<(Seq<char>, T)>, m: Map<Seq<char>, T>) -> bool {
    ascending(pairs) && map_of(pairs) == m
}

/// The pairs of the map `m`, in the order of their keys.
pub open spec fn listing<T>(m: Map<Seq<char>, T>) -> Seq<(Seq<char>, T)> {
    choose|pairs: Seq<(Seq<char>, T)>| is_listing(pairs, m)
}

/// With ascending keys, the pair at `i` is the one that the map holds.
pub proof fn lemma_map_of_at<T>(pairs: Seq<(Seq<char>, T)>, i: int)
    requires
        ascending(pairs),
        0 <= i < pairs.len(),
    ensures
        map_of(pairs).contains_key(pairs[i].0),
        map_of(pairs)[pairs[i].0] == pairs[i].1,
{
    let key = pairs[i].0;
    assert(pair_at(pairs, key, i));
    let c = choose|j: int| pair_at(pairs, key, j);
    assert(pair_at(pairs, key, c));
    lemma_precedes_irreflexive(key);
    if c < i {
        assert(precedes(pairs[c].0, pairs[i].0));
    } else if i < c {
        assert(precedes(pairs[i].0, pairs[c].0));
    }
}

/// Leaving the last pair out removes its key from the map.
proof fn lemma_map_of_drop_last<T>(pairs: Seq<(Seq<char>, T)>)
    requires
        ascending(pairs),
        pairs.len() > 0,
    ensures
        map_of(pairs.drop_last()) == map_of(pairs).remove(pairs.last().0),
        ascending(pairs.drop_last()),
{
    let head = pairs.drop_last();
    let gone = pairs.last().0;
    assert forall|i: int, j: int| 0 <= i < j < head.len() implies precedes(
        (#[trigger] head[i]).0,
        (#[trigger] head[j]).0,
    ) by {
        assert(precedes(pairs[i].0, pairs[j].0));
    }
    let left = map_of(head);
    let right = map_of(pairs).remove(gone);
    assert forall|key: Seq<char>| #[trigger] left.contains_key(key) implies right.contains_key(key)
        && left[key] == right[key] by {
        let i = choose|i: int| pair_at(head, key, i);
        assert(pair_at(head, key, i));
        lemma_map_of_at(pairs, i);
        lemma_map_of_at(head, i);
        assert(precedes(pairs[i].0, pairs.last().0));
        lemma_precedes_irreflexive(key);
    }
    assert forall|key: Seq<char>| #[trigger] right.contains_key(key) implies left.contains_key(key) by {
        let i = choose|i: int| pair_at(pairs, key, i);
        assert(pair_at(pairs, key, i));
        assert(pair_at(head, key, i));
    }
    assert(left =~= right);
}

/// A map has one listing only.
pub proof fn lemma_listing_unique<T>(p: Seq<(Seq<char>, T)>, q: Seq<(Seq<char>, T)>)
    requires
        ascending(p),
        ascending(q),
        map_of(p) == map_of(q),
    ensures
        p == q,
    decreases p.len() + q.len(),
{
    if p.len() == 0 || q.len() == 0 {
        if p.len() > 0 {
            lemma_map_of_at(p, 0);
            assert(map_of(q).contains_key(p[0].0));
            assert(exists|i: int| pair_at(q, p[0].0, i));
        }
        if q.len() > 0 {
            lemma_map_of_at(q, 0);
            assert(map_of(p).contains_key(q[0].0));
            assert(exists|i: int| pair_at(p, q[0].0, i));
        }
        assert(p =~= q);
    } else {
        let a = p.last().0;
        let b = q.last().0;
        lemma_map_of_at(p, p.len() - 1);
        lemma_map_of_at(q, q.len() - 1);
        assert(exists|i: int| pair_at(q, a, i));
        assert(exists|i: int| pair_at(p, b, i));
        let i = choose|i: int| pair_at(q, a, i);
        let j = choose|j: int| pair_at(p, b, j);
        assert(pair_at(q, a, i) && pair_at(p, b, j));
        if a != b {
            assert(precedes(q[i].0, q.last().0));
            assert(precedes(p[j].0, p.last().0));
            lemma_precedes_transitive(a, b, a);
            lemma_precedes_irreflexive(a);
        }
        lemma_map_of_drop_last(p);
        lemma_map_of_drop_last(q);
        lemma_listing_unique(p.drop_last(), q.drop_last());
        assert(p =~= p.drop_last().push(p.last()));
        assert(q =~= q.drop_last().push(q.last()));
    }
}

/// Ascending pairs are the listing of their map.
pub proof fn lemma_listing<T>(pairs: Seq<(Seq<char>, T)>)
    requires
        ascending(pairs),
    ensures
        listing(map_of(pairs)) == pairs,
{
    let m = map_of(pairs);
    assert(is_listing(pairs, m));
    let c = listing(m);
    assert(is_listing(c, m));
    lemma_listing_unique(c, pairs);
}

/// Putting a pair in its place among ascending ones adds it to the map.
proof fn lemma_insert_between<T>(pairs: Seq<(Seq<char>, T)>, at: int, key: Seq<char>, value: T)
    requires
        ascending(pairs),
        0 <= at <= pairs.len(),
        forall|i: int| 0 <= i < at ==> precedes((#[trigger] pairs[i]).0, key),
        forall|i: int| at <= i < pairs.len() ==> precedes(key, (#[trigger] pairs[i]).0),
    ensures
        ascending(pairs.insert(at, (key, value))),
        map_of(pairs.insert(at, (key, value))) == map_of(pairs).insert(key, value),
        !map_of(pairs).contains_key(key),
{
    let after = pairs.insert(at, (key, value));
    assert forall|i: int, j: int| 0 <= i < j < after.len() implies precedes(
        (#[trigger] after[i]).0,
        (#[trigger] after[j]).0,
    ) by {
        let i0 = if i < at { i } else { i - 1 };
        let j0 = if j < at { j } else { j - 1 };
        if i != at && j != at {
            assert(precedes(pairs[i0].0, pairs[j0].0));
        }
    }
    let left = map_of(after);
    let right = map_of(pairs).insert(key, value);
    assert forall|k: Seq<char>| #[trigger] left.contains_key(k) implies right.contains_key(k)
        && left[k] == right[k] by {
        let i = choose|i: int| pair_at(after, k, i);
        assert(pair_at(after, k, i));
        lemma_map_of_at(after, i);
        if i < at {
            lemma_map_of_at(pairs, i);
            lemma_precedes_irreflexive(key);
        } else if i > at {
            lemma_map_of_at(pairs, i - 1);
            lemma_precedes_irreflexive(key);
        }
    }
    assert forall|k: Seq<char>| #[trigger] right.contains_key(k) implies left.contains_key(k) by {
        if k == key {
            assert(pair_at(after, k, at));
        } else {
            let i = choose|i: int| pair_at(pairs, k, i);
            assert(pair_at(pairs, k, i));
            assert(pair_at(after, k, if i < at { i } else { i + 1 }));
        }
    }
    assert(left =~= right);
    lemma_absent(pairs, at, key);
}

/// There is a place for a new key among ascending ones.
proof fn lemma_place<T>(pairs: Seq<(Seq<char>, T)>, key: Seq<char>) -> (at: int)
    requires
        ascending(pairs),
        forall|i: int| 0 <= i < pairs.len() ==> (#[trigger] pairs[i]).0 != key,
    ensures
        0 <= at <= pairs.len(),
        forall|i: int| 0 <= i < at ==> precedes((#[trigger] pairs[i]).0, key),
        forall|i: int| at <= i < pairs.len() ==> precedes(key, (#[trigger] pairs[i]).0),
    decreases pairs.len(),
{
    if pairs.len() == 0 {
        0
    } else {
        let n = pairs.len() - 1;
        let head = pairs.drop_last();
        lemma_precedes_total(pairs[n].0, key);
        if precedes(pairs[n].0, key) {
            assert forall|i: int| 0 <= i < pairs.len() implies precedes(
                (#[trigger] pairs[i]).0,
                key,
            ) by {
                if i < n {
                    lemma_precedes_transitive(pairs[i].0, pairs[n].0, key);
                }
            }
            n + 1
        } else {
            lemma_map_of_drop_last(pairs);
            assert forall|i: int| 0 <= i < head.len() implies (#[trigger] head[i]).0 != key by {
                assert(pairs[i].0 != key);
            }
            let at = lemma_place(head, key);
            assert forall|i: int| 0 <= i < at implies precedes((#[trigger] pairs[i]).0, key) by {
                assert(head[i] == pairs[i]);
            }
            assert forall|i: int| at <= i < pairs.len() implies precedes(
                key,
                (#[trigger] pairs[i]).0,
            ) by {
                if i < n {
                    assert(head[i] == pairs[i]);
                }
            }
            at
        }
    }
}

/// Whether the map `m` can be listed, as the map of any table can.
pub open spec fn listable<T>(m: Map<Seq<char>, T>) -> bool {
    is_listing(listing(m), m)
}

/// The empty map can be listed.
pub proof fn lemma_listable_empty<T>()
    ensures
        listable(Map::<Seq<char>, T>::empty()),
{
    let none = Seq::<(Seq<char>, T)>::empty();
    assert(map_of(none) =~= Map::<Seq<char>, T>::empty()) by {
        assert forall|key: Seq<char>| !(#[trigger] map_of(none).contains_key(key)) by {
            if map_of(none).contains_key(key) {
                let i = choose|i: int| pair_at(none, key, i);
                assert(pair_at(none, key, i));
            }
        }
    }
    lemma_listing(none);
}

/// A map that can be listed still can with one key more.
pub proof fn lemma_listable_insert<T>(m: Map<Seq<char>, T>, key: Seq<char>, value: T)
    requires
        listable(m),
        !m.contains_key(key),
    ensures
        listable(m.insert(key, value)),
{
    let pairs = listing(m);
    assert forall|i: int| 0 <= i < pairs.len() implies (#[trigger] pairs[i]).0 != key by {
        lemma_map_of_at(pairs, i);
    }
    let at = lemma_place(pairs, key);
    lemma_insert_between(pairs, at, key, value);
    lemma_listing(pairs.insert(at, (key, value)));
}

/// The listing of a map holds the pairs of the map.
pub proof fn lemma_listed<T>(m: Map<Seq<char>, T>, key: Seq<char>) -> (i: int)
    requires
        listable(m),
        m.contains_key(key),
    ensures
        0 <= i < listing(m).len(),
        listing(m)[i] == (key, m[key]),
{
    let pairs = listing(m);
    assert(map_of(pairs).contains_key(key));
    let i = choose|i: int| pair_at(pairs, key, i);
    assert(pair_at(pairs, key, i));
    lemma_map_of_at(pairs, i);
    i
}

/// The listing of a map without `key` is that of the map without the pair of `key`.
pub proof fn lemma_listing_remove<T>(m: Map<Seq<char>, T>, key: Seq<char>) -> (at: int)
    requires
        listable(m),
        m.contains_key(key),
    ensures
        0 <= at < listing(m).len(),
        listing(m)[at] == (key, m[key]),
        listable(m.remove(key)),
        listing(m.remove(key)) == listing(m).remove(at),
{
    let pairs = listing(m);
    let at = lemma_listed(m, key);
    let after = pairs.remove(at);
    assert forall|i: int, j: int| 0 <= i < j < after.len() implies precedes(
        (#[trigger] after[i]).0,
        (#[trigger] after[j]).0,
    ) by {
        let i0 = if i < at { i } else { i + 1 };
        let j0 = if j < at { j } else { j + 1 };
        assert(precedes(pairs[i0].0, pairs[j0].0));
    }
    let left = map_of(after);
    let right = m.remove(key);
    assert forall|k: Seq<char>| #[trigger] left.contains_key(k) implies right.contains_key(k)
        && left[k] == right[k] by {
        let i = choose|i: int| pair_at(after, k, i);
        assert(pair_at(after, k, i));
        let i0 = if i < at { i } else { i + 1 };
        lemma_map_of_at(after, i);
        lemma_map_of_at(pairs, i0);
        lemma_precedes_irreflexive(key);
        if i0 < at {
            assert(precedes(pairs[i0].0, pairs[at].0));
        } else {
            assert(precedes(pairs[at].0, pairs[i0].0));
        }
    }
    assert forall|k: Seq<char>| #[trigger] right.contains_key(k) implies left.contains_key(k) by {
        assert(map_of(pairs).contains_key(k));
        let i = choose|i: int| pair_at(pairs, k, i);
        assert(pair_at(pairs, k, i));
        assert(pair_at(after, k, if i < at { i } else { i - 1 }));
    }
    assert(left =~= right);
    lemma_listing(after);
    at
}

/// A key that falls between two neighbours is not in the map.
proof fn lemma_absent<T>(pairs: Seq<(Seq<char>, T)>, at: int, key: Seq<char>)
    requires
        0 <= at <= pairs.len(),
        forall|i: int| 0 <= i < at ==> precedes((#[trigger] pairs[i]).0, key),
        forall|i: int| at <= i < pairs.len() ==> precedes(key, (#[trigger] pairs[i]).0),
    ensures
        !map_of(pairs).contains_key(key),
{
    lemma_precedes_irreflexive(key);
    if map_of(pairs).contains_key(key) {
        let i = choose|i: int| pair_at(pairs, key, i);
        assert(pair_at(pairs, key, i));
    }
}

/// Another value in the pair at `at` is another value of its key in the map.
proof fn lemma_update_at<T>(pairs: Seq<(Seq<char>, T)>, at: int, value: T)
    requires
        ascending(pairs),
        0 <= at < pairs.len(),
    ensures
        ascending(pairs.update(at, (pairs[at].0, value))),
        map_of(pairs.update(at, (pairs[at].0, value))) == map_of(pairs).insert(pairs[at].0, value),
{
    let key = pairs[at].0;
    let after = pairs.update(at, (key, value));
    assert forall|i: int, j: int| 0 <= i < j < after.len() implies precedes(
        (#[trigger] after[i]).0,
        (#[trigger] after[j]).0,
    ) by {
        assert(precedes(pairs[i].0, pairs[j].0));
    }
    let left = map_of(after);
    let right = map_of(pairs).insert(key, value);
    assert forall|k: Seq<char>| #[trigger] left.contains_key(k) implies right.contains_key(k)
        && left[k] == right[k] by {
        let i = choose|i: int| pair_at(after, k, i);
        assert(pair_at(after, k, i));
        lemma_map_of_at(after, i);
        lemma_map_of_at(pairs, i);
        if i != at && k == key {
            lemma_map_of_at(after, at);
            lemma_precedes_irreflexive(key);
            if i < at {
                assert(precedes(pairs[i].0, pairs[at].0));
            } else {
                assert(precedes(pairs[at].0, pairs[i].0));
            }
        }
    }
    assert forall|k: Seq<char>| #[trigger] right.contains_key(k) implies left.contains_key(k) by {
        if k == key {
            assert(pair_at(after, k, at));
        } else {
            let i = choose|i: int| pair_at(pairs, k, i);
            assert(pair_at(pairs, k, i));
            assert(pair_at(after, k, i));
        }
    }
    assert(left =~= right);
}

// ---------------------------------------------------------------------------
// The table
// ---------------------------------------------------------------------------

/// A map from strings to values of type `V`.
pub struct StringTable<V: View> {
    /// The pairs, in the order of their keys.
    entries: Vec<(String, V)>,
}

impl<V: View> StringTable<V> {
    closed spec fn pairs(&self) -> Seq<(Seq<char>, V::V)> {
        Seq::new(self.entries@.len(), |i: int| (self.entries@[i].0@, self.entries@[i].1@))
    }

    /// The keys ascend.
    #[verifier::type_invariant]
    closed spec fn ordered(&self) -> bool {
        ascending(self.pairs())
    }
}

impl<V: View> View for StringTable<V> {
    type V = Map<Seq<char>, V::V>;

    closed spec fn view(&self) -> Map<Seq<char>, V::V> {
        map_of(self.pairs())
    }
}

impl<V: View> StringTable<V> {
    /// An empty table.
    pub fn new() -> (r: StringTable<V>)
        ensures
            r@ == Map::<Seq<char>, V::V>::empty(),
    {
        let r: StringTable<V> = StringTable { entries: Vec::new() };
        proof {
            assert forall|key: Seq<char>| !(#[trigger] r@.contains_key(key)) by {
                if r@.contains_key(key) {
                    let i = choose|i: int| pair_at(r.pairs(), key, i);
                    assert(pair_at(r.pairs(), key, i));
                }
            }
            assert(r@ =~= Map::<Seq<char>, V::V>::empty());
        }
        r
    }

    /// The number of pairs.
    pub fn len(&self) -> (r: usize)
        ensures
            r == listing(self@).len(),
            is_listing(listing(self@), self@),
    {
        proof {
            use_type_invariant(self);
            lemma_listing(self.pairs());
        }
        self.entries.len()
    }

    /// Whether there is no pair.
    pub fn is_empty(&self) -> (r: bool)
        ensures
            r == (self@ == Map::<Seq<char>, V::V>::empty()),
    {
        let n: usize = self.len();
        proof {
            use_type_invariant(self);
            lemma_listing(self.pairs());
            if n > 0 {
                lemma_map_of_at(self.pairs(), 0);
            } else {
                assert forall|key: Seq<char>| !(#[trigger] self@.contains_key(key)) by {
                    if self@.contains_key(key) {
                        let i = choose|i: int| pair_at(self.pairs(), key, i);
                        assert(pair_at(self.pairs(), key, i));
                    }
                }
                assert(self@ =~= Map::<Seq<char>, V::V>::empty());
            }
        }
        n == 0
    }

    /// The key of the pair at `i`, in the order of the keys.
    pub fn key(&self, i: usize) -> (r: &String)
        requires
            i < listing(self@).len(),
        ensures
            r@ == listing(self@)[i as int].0,
    {
        proof {
            use_type_invariant(self);
            lemma_listing(self.pairs());
        }
        &self.entries[i].0
    }

    /// The value of the pair at `i`, in the order of the keys.
    pub fn value(&self, i: usize) -> (r: &V)
        requires
            i < listing(self@).len(),
        ensures
            r@ == listing(self@)[i as int].1,
    {
        proof {
            use_type_invariant(self);
            lemma_listing(self.pairs());
        }
        &self.entries[i].1
    }

    /// The place of `key`: where it is, or where it would have to go.
    fn place(&self, key: &str) -> (r: Result<usize, usize>)
        ensures
            r matches Ok(i) ==> i < self.entries@.len() && self.entries@[i as int].0@ == key@,
            r matches Err(at) ==> at <= self.entries@.len() && (forall|i: int|
                0 <= i < at ==> precedes((#[trigger] self.pairs()[i]).0, key@)) && (forall|i: int|
                at <= i < self.entries@.len() ==> precedes(key@, (#[trigger] self.pairs()[i]).0)),
    {
        proof {
            use_type_invariant(self);
        }
        let mut low: usize = 0;
        let mut high: usize = self.entries.len();
        while low < high
            invariant
                low <= high <= self.entries@.len(),
                ascending(self.pairs()),
                forall|i: int| 0 <= i < low ==> precedes((#[trigger] self.pairs()[i]).0, key@),
                forall|i: int|
                    high <= i < self.entries@.len() ==> precedes(
                        key@,
                        (#[trigger] self.pairs()[i]).0,
                    ),
            decreases high - low,
        {
            let mid: usize = low + (high - low) / 2;
            let ghost middle = self.pairs()[mid as int].0;
            match relate(self.entries[mid].0.as_str(), key) {
                Relation::Same => {
                    return Ok(mid);
                },
                Relation::Before => {
                    proof {
                        assert forall|i: int| 0 <= i < mid + 1 implies precedes(
                            (#[trigger] self.pairs()[i]).0,
                            key@,
                        ) by {
                            if i < mid {
                                lemma_precedes_transitive(self.pairs()[i].0, middle, key@);
                            }
                        }
                    }
                    low = mid + 1;
                },
                Relation::After => {
                    proof {
                        assert forall|i: int| mid <= i < self.entries@.len() implies precedes(
                            key@,
                            (#[trigger] self.pairs()[i]).0,
                        ) by {
                            if mid < i {
                                lemma_precedes_transitive(key@, middle, self.pairs()[i].0);
                            }
                        }
                    }
                    high = mid;
                },
            }
        }
        Err(low)
    }

    /// The value of `key`, if it has one.
    pub fn get(&self, key: &str) -> (r: Option<&V>)
        ensures
            r is Some <==> self@.contains_key(key@),
            r matches Some(v) ==> v@ == self@[key@],
    {
        proof {
            use_type_invariant(self);
        }
        match self.place(key) {
            Ok(i) => {
                proof {
                    lemma_map_of_at(self.pairs(), i as int);
                }
                Some(&self.entries[i].1)
            },
            Err(at) => {
                proof {
                    lemma_absent(self.pairs(), at as int, key@);
                }
                None
            },
        }
    }

    /// Whether `key` has a value.
    pub fn contains_key(&self, key: &str) -> (r: bool)
        ensures
            r == self@.contains_key(key@),
    {
        match self.get(key) {
            Some(_) => true,
            None => false,
        }
    }

    /// Gives `key` the value `value`, in place of any that it had.
    pub fn insert(&mut self, key: String, value: V)
        ensures
            final(self)@ == old(self)@.insert(key@, value@),
    {
        proof {
            use_type_invariant(&*self);
        }
        let place: Result<usize, usize> = self.place(key.as_str());
        let ghost before = self.pairs();
        let ghost k = key@;
        let ghost v = value@;
        let mut entries: Vec<(String, V)> = Vec::new();
        std::mem::swap(&mut entries, &mut self.entries);
        match place {
            Ok(i) => {
                entries[i] = (key, value);
                proof {
                    let after = Seq::new(
                        entries@.len(),
                        |i: int| (entries@[i].0@, entries@[i].1@),
                    );
                    lemma_update_at(before, i as int, v);
                    assert(after =~= before.update(i as int, (k, v)));
                }
            },
            Err(at) => {
                entries.insert(at, (key, value));
                proof {
                    let after = Seq::new(
                        entries@.len(),
                        |i: int| (entries@[i].0@, entries@[i].1@),
                    );
                    lemma_insert_between(before, at as int, k, v);
                    assert(after =~= before.insert(at as int, (k, v)));
                }
            },
        }
        self.entries = entries;
    }
}

} // verus!
