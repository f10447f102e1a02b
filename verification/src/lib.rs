//! A minimal consistent-hashing ring: nodes are placed on a circular, sorted
//! key space and every key is owned by the nearest node at or after it,
//! wrapping past the maximum key back to the first node.

use vstd::prelude::*;

pub mod range;

verus! {

use crate::range::KeyRange;
use vstd::multiset::Multiset;

/// The errors a ring operation can report.
#[derive(Debug, Clone, Copy, PartialEq, Eq, Structural)]
pub enum Error {
    /// Adding a node whose key is already on the ring.
    DuplicateNode,
    /// A lookup or removal found no matching node, or the ring is empty.
    NodeNotFound,
}

/// A hashing capability: derives the 64-bit ring key of a value of type `T`.
///
/// `key_spec` names the key mathematically; `get_key` computes it. The
/// contract ties the two together, so hashing is deterministic: the same
/// capability instance maps the same input to the same key, always.
pub trait RingHasher<T>: Sized {
    /// The key this capability assigns to `input`.
    spec fn key_spec(&self, input: &T) -> u64;

    /// Computes the key of `input`.
    fn get_key(&self, input: &T) -> (r: u64)
        ensures
            r == self.key_spec(input),
    ;
}

/// Default hash builder. Based on `SipHasher`, which produces 64-bit hashes.
#[derive(Debug, Clone, Copy)]
pub struct DefaultHashBuilder;

/// The key that `DefaultHashBuilder` assigns to a `u64`: its SipHash-2-4
/// digest under the all-zero key.
pub uninterp spec fn sip_key_of_u64(input: u64) -> u64;

/// Relies on siphasher's `SipHasher` (SipHash-2-4, both keys fixed to zero by
/// `SipHasher::new`): `write_u64` feeds the value's little-endian bytes into
/// the digest, so the hash of a `u64` is a function of the value alone.
#[verifier::external_body]
fn sip_hash_u64(input: &u64) -> (r: u64)
    ensures
        r == sip_key_of_u64(*input),
{
    let mut hasher = siphasher::sip::SipHasher::new();
    std::hash::Hash::hash(input, &mut hasher);
    std::hash::Hasher::finish(&hasher)
}

impl RingHasher<u64> for DefaultHashBuilder {
    closed spec fn key_spec(&self, input: &u64) -> u64 {
        sip_key_of_u64(*input)
    }

    fn get_key(&self, input: &u64) -> (r: u64) {
        sip_hash_u64(input)
    }
}

/// Node is an internal struct used to encapsulate the nodes that will be added
/// and removed from `HashRing`.
#[derive(Clone)]
struct Node<T> {
    key: u64,
    data: T,
}

/// A node sequence seen as entries: (key, data) pairs.
spec fn ents<T>(s: Seq<Node<T>>) -> Seq<(u64, T)> {
    s.map_values(|n: Node<T>| (n.key, n.data))
}

/// The keys of a sequence of ring entries, in order.
pub open spec fn keys_of<T>(entries: Seq<(u64, T)>) -> Seq<u64> {
    entries.map_values(|e: (u64, T)| e.0)
}

/// The entries are strictly ascending by key: sorted, with no duplicates.
pub open spec fn sorted_keys<T>(entries: Seq<(u64, T)>) -> bool {
    forall|i: int, j: int| 0 <= i < j < entries.len() ==> entries[i].0 < entries[j].0
}

/// Some entry carries the key `k`.
pub open spec fn contains_key<T>(entries: Seq<(u64, T)>, k: u64) -> bool {
    exists|i: int| 0 <= i < entries.len() && entries[i].0 == k
}

/// No two entries share a key.
pub open spec fn distinct_keys<T>(entries: Seq<(u64, T)>) -> bool {
    forall|i: int, j: int|
        0 <= i < entries.len() && 0 <= j < entries.len() && i != j ==> entries[i].0 != entries[j].0
}

/// Strictly ascending keys leave no room for duplicates.
pub proof fn lemma_sorted_keys_distinct<T>(entries: Seq<(u64, T)>)
    requires
        sorted_keys(entries),
    ensures
        distinct_keys(entries),
{
}

/// A hash ring: node entries kept sorted ascending by key, plus the hashing
/// capability used to derive keys.
#[derive(Clone)]
pub struct HashRing<T, S: RingHasher<T> = DefaultHashBuilder> {
    hash_builder: S,
    data: Vec<Node<T>>,
}

impl<T, S: RingHasher<T>> View for HashRing<T, S> {
    type V = Seq<(u64, T)>;

    closed spec fn view(&self) -> Seq<(u64, T)> {
        ents(self.data@)
    }
}

impl<T, S: RingHasher<T>> HashRing<T, S> {
    /// The hashing capability this ring was built with.
    pub closed spec fn hasher(&self) -> S {
        self.hash_builder
    }

    /// The key this ring assigns to `input`.
    pub open spec fn spec_key(&self, input: &T) -> u64 {
        self.hasher().key_spec(input)
    }

    /// The ring's entries are strictly ascending by key. Lookups require this;
    /// `add_node_unchecked` may break it, `sort` restores it.
    pub open spec fn sorted(&self) -> bool {
        sorted_keys(self@)
    }

    /// Creates an empty `HashRing` which will use the given hash builder.
    pub fn with_hasher(hash_builder: S) -> (r: Self)
        ensures
            r@ == Seq::<(u64, T)>::empty(),
            r.hasher() == hash_builder,
    {
        HashRing { hash_builder, data: Vec::new() }
    }

    /// Get the number of nodes in the hash ring.
    pub fn len(&self) -> (r: usize)
        ensures
            r == self@.len(),
    {
        self.data.len()
    }

    /// Returns true if the ring has no elements.
    pub fn is_empty(&self) -> (r: bool)
        ensures
            r == (self@.len() == 0),
    {
        self.data.len() == 0
    }

    /// Hashes `data` and returns its key into the hash ring.
    pub fn key(&self, data: &T) -> (r: u64)
        ensures
            r == self.spec_key(data),
    {
        self.hash_builder.get_key(data)
    }
}

impl<T> Default for HashRing<T> where DefaultHashBuilder: RingHasher<T> {
    /// An empty ring with the default hash builder.
    fn default() -> (r: Self)
        ensures
            r@ == Seq::<(u64, T)>::empty(),
            r.hasher() == DefaultHashBuilder,
    {
        HashRing { hash_builder: DefaultHashBuilder, data: Vec::new() }
    }
}

impl<T> HashRing<T> where DefaultHashBuilder: RingHasher<T> {
    /// Create a new `HashRing`.
    pub fn new() -> (r: Self)
        ensures
            r@ == Seq::<(u64, T)>::empty(),
            r.hasher() == DefaultHashBuilder,
    {
        Default::default()
    }
}

/// The first position whose key is at or after `k`; the length if every key
/// is below `k`.
pub open spec fn spec_first_at_or_after(keys: Seq<u64>, k: u64) -> int
    decreases keys.len(),
{
    if keys.len() == 0 {
        0
    } else if keys[0] >= k {
        0
    } else {
        1 + spec_first_at_or_after(keys.drop_first(), k)
    }
}

/// The index of the node that owns key `k` on a non-empty ring: the first
/// node at or after `k`, wrapping to the first node when `k` is past every
/// node. This is the clockwise-successor rule of consistent hashing.
pub open spec fn spec_owner_index<T>(entries: Seq<(u64, T)>, k: u64) -> int {
    let f = spec_first_at_or_after(keys_of(entries), k);
    if f == entries.len() {
        0
    } else {
        f
    }
}

/// `spec_first_at_or_after` returns the unique boundary position: everything
/// before it is below `k`, and the position itself (if in range) is not.
pub proof fn lemma_first_at_or_after(keys: Seq<u64>, k: u64, i: int)
    requires
        0 <= i <= keys.len(),
        forall|j: int| 0 <= j < i ==> keys[j] < k,
        i < keys.len() ==> keys[i] >= k,
    ensures
        spec_first_at_or_after(keys, k) == i,
    decreases keys.len(),
{
    if keys.len() == 0 {
    } else if keys[0] >= k {
        assert(i == 0);
    } else {
        let rest = keys.drop_first();
        assert(forall|j: int| 0 <= j < i - 1 ==> rest[j] < k);
        lemma_first_at_or_after(rest, k, i - 1);
    }
}

/// On a non-empty ring every key has an owner.
pub proof fn lemma_coverage<T>(entries: Seq<(u64, T)>, k: u64)
    requires
        entries.len() > 0,
    ensures
        0 <= spec_owner_index(entries, k) < entries.len(),
{
    lemma_first_at_or_after_in_range(keys_of(entries), k);
}

proof fn lemma_first_at_or_after_in_range(keys: Seq<u64>, k: u64)
    ensures
        0 <= spec_first_at_or_after(keys, k) <= keys.len(),
    decreases keys.len(),
{
    if keys.len() == 0 {
    } else if keys[0] >= k {
    } else {
        lemma_first_at_or_after_in_range(keys.drop_first(), k);
    }
}

impl<T, S: RingHasher<T>> HashRing<T, S> {
    /// Internal method for traversing the hash ring: binary search for an
    /// entry with exactly this key. `Ok` carries its position; `Err` carries
    /// the position where such an entry would be inserted.
    fn find_node(&self, key: u64) -> (r: Result<usize, usize>)
        requires
            self.sorted(),
        ensures
            match r {
                Ok(i) => 0 <= i < self@.len() && self@[i as int].0 == key,
                Err(i) => i <= self@.len() && (forall|j: int| 0 <= j < i ==> self@[j].0 < key)
                    && (forall|j: int| i <= j < self@.len() ==> self@[j].0 > key),
            },
    {
        let mut lo: usize = 0;
        let mut hi: usize = self.data.len();
        while lo < hi
            invariant
                lo <= hi <= self@.len(),
                self.sorted(),
                self@.len() == self.data@.len(),
                forall|j: int| 0 <= j < lo ==> self@[j].0 < key,
                forall|j: int| hi <= j < self@.len() ==> self@[j].0 > key,
            decreases hi - lo,
        {
            let mid = lo + (hi - lo) / 2;
            let k = self.data[mid].key;
            assert(k == self@[mid as int].0);
            if k < key {
                lo = mid + 1;
            } else if k > key {
                hi = mid;
            } else {
                return Ok(mid);
            }
        }
        Err(lo)
    }
}

/// Where a fresh entry lands when inserted in key order: after every entry
/// whose key is at or below its own.
pub open spec fn spec_insert_by_key<T>(s: Seq<(u64, T)>, x: (u64, T)) -> Seq<(u64, T)>
    decreases s.len(),
{
    if s.len() == 0 {
        seq![x]
    } else if s.last().0 <= x.0 {
        s.push(x)
    } else {
        spec_insert_by_key(s.drop_last(), x).push(s.last())
    }
}

/// The entries rearranged into ascending key order: each entry in turn is
/// placed after those with keys at or below its own (a stable insertion sort).
pub open spec fn spec_sort_by_key<T>(s: Seq<(u64, T)>) -> Seq<(u64, T)>
    decreases s.len(),
{
    if s.len() == 0 {
        Seq::empty()
    } else {
        spec_insert_by_key(spec_sort_by_key(s.drop_last()), s.last())
    }
}

/// Inserting `x` at a position with everything at or below `x`'s key on the
/// left and everything above it on the right is exactly the key-ordered
/// insertion. In particular, the position `add_node` finds by binary search
/// is the one `sort` would settle the entry into.
pub proof fn lemma_insert_by_key_at<T>(s: Seq<(u64, T)>, x: (u64, T), idx: int)
    requires
        0 <= idx <= s.len(),
        idx > 0 ==> s[idx - 1].0 <= x.0,
        forall|j: int| idx <= j < s.len() ==> s[j].0 > x.0,
    ensures
        spec_insert_by_key(s, x) == s.insert(idx, x),
    decreases s.len(),
{
    if idx == s.len() {
        if s.len() == 0 {
            assert(s.insert(0, x) =~= seq![x]);
        } else {
            assert(s.insert(idx, x) =~= s.push(x));
        }
    } else {
        lemma_insert_by_key_at(s.drop_last(), x, idx);
        assert(s.insert(idx, x) =~= s.drop_last().insert(idx, x).push(s.last()));
    }
}

impl<T, S: RingHasher<T>> HashRing<T, S> {
    /// Adds `node` to the hash ring. Returns the new node's index, or an
    /// error if the hash ring already contains a node with the same key.
    pub fn add_node(&mut self, node: T) -> (r: Result<usize, Error>)
        requires
            old(self).sorted(),
        ensures
            final(self).hasher() == old(self).hasher(),
            final(self).sorted(),
            contains_key(old(self)@, old(self).spec_key(&node)) ==> r == Err::<
                usize,
                Error,
            >(Error::DuplicateNode) && final(self)@ == old(self)@,
            !contains_key(old(self)@, old(self).spec_key(&node)) ==> (r matches Ok(idx) && ({
                let k = old(self).spec_key(&node);
                &&& idx <= old(self)@.len()
                &&& forall|j: int| 0 <= j < idx ==> old(self)@[j].0 < k
                &&& forall|j: int| idx <= j < old(self)@.len() ==> old(self)@[j].0 > k
                &&& final(self)@ == old(self)@.insert(idx as int, (k, node))
                &&& final(self)@ == spec_insert_by_key(old(self)@, (k, node))
            })),
    {
        let key = self.key(&node);

        let index = match self.find_node(key) {
            Err(index) => index,
            Ok(i) => {
                proof {
                    assert(contains_key(self@, key)) by {
                        assert(self@[i as int].0 == key);
                    }
                }
                return Err(Error::DuplicateNode);
            },
        };

        proof {
            assert(!contains_key(self@, key)) by {
                assert(forall|j: int| 0 <= j < self@.len() ==> self@[j].0 != key);
            }
        }

        self.data.insert(index, Node { key, data: node });

        proof {
            assert(self@ =~= old(self)@.insert(index as int, (key, node)));
            lemma_insert_by_key_at(old(self)@, (key, node), index as int);
            assert(sorted_keys(self@)) by {
                assert(forall|i: int, j: int|
                    0 <= i < j < self@.len() ==> self@[i].0 < self@[j].0);
            }
        }

        Ok(index)
    }

    /// Similar to `add_node()`, but doesn't check for duplicate nodes, and
    /// doesn't keep the ring sorted: the nodes must be sorted with `sort()`
    /// after all of them are added, before any lookup.
    pub fn add_node_unchecked(&mut self, node: T)
        ensures
            final(self).hasher() == old(self).hasher(),
            final(self)@ == old(self)@.push((old(self).spec_key(&node), node)),
    {
        let key = self.key(&node);
        self.data.push(Node { key, data: node });
        proof {
            assert(self@ =~= old(self)@.push((key, node)));
        }
    }

    /// Sorts the ring by key, ascending. This is required after adding nodes
    /// with `add_node_unchecked()`. Idempotent.
    pub fn sort(&mut self)
        ensures
            final(self).hasher() == old(self).hasher(),
            final(self)@ == spec_sort_by_key(old(self)@),
    {
        let ghost orig = old(self)@;
        let mut out: Vec<Node<T>> = Vec::new();
        proof {
            assert(orig.take(0) =~= Seq::<(u64, T)>::empty());
            assert(orig.skip(0) =~= orig);
            assert(ents(out@) =~= Seq::<(u64, T)>::empty());
        }
        while self.data.len() > 0
            invariant
                self.data@.len() <= orig.len(),
                ents(self.data@) == orig.skip(orig.len() - self.data@.len()),
                ents(out@) == spec_sort_by_key(orig.take(orig.len() - self.data@.len())),
                self.hash_builder == old(self).hash_builder,
            decreases self.data@.len(),
        {
            let ghost k = orig.len() - self.data@.len();
            let ghost pre = self.data@;
            let n = self.data.remove(0);
            proof {
                assert(self.data@ == pre.remove(0));
                assert(ents(self.data@) =~= orig.skip(k + 1)) by {
                    assert(ents(pre) == orig.skip(k));
                    assert(forall|m: int|
                        0 <= m < self.data@.len() ==> #[trigger] ents(self.data@)[m] == ents(
                            pre,
                        )[m + 1]);
                    assert(forall|m: int|
                        0 <= m < self.data@.len() ==> #[trigger] orig.skip(k + 1)[m] == orig.skip(
                            k,
                        )[m + 1]);
                }
                assert((n.key, n.data) == ents(pre)[0]);
                assert((n.key, n.data) == orig.skip(k)[0]);
                assert((n.key, n.data) == orig[k]);
            }
            let ghost before = ents(out@);
            insert_node_sorted(&mut out, n);
            proof {
                assert(orig.take(k + 1).drop_last() =~= orig.take(k));
                assert(orig.take(k + 1).last() == orig[k]);
                assert(ents(out@) == spec_insert_by_key(spec_sort_by_key(orig.take(k)), orig[k]));
                assert(ents(out@) == spec_sort_by_key(orig.take(k + 1)));
            }
        }
        proof {
            assert(orig.take(orig.len() as int) =~= orig);
        }
        self.data = out;
    }

    /// Removes `node` from the hash ring. Returns an `Error` if the hash ring
    /// does not contain a node with its key.
    pub fn remove_node(&mut self, node: &T) -> (r: Result<(), Error>)
        requires
            old(self).sorted(),
        ensures
            final(self).hasher() == old(self).hasher(),
            final(self).sorted(),
            !contains_key(old(self)@, old(self).spec_key(node)) ==> r == Err::<
                (),
                Error,
            >(Error::NodeNotFound) && final(self)@ == old(self)@,
            contains_key(old(self)@, old(self).spec_key(node)) ==> (r == Ok::<(), Error>(())
                && exists|i: int|
                {
                    &&& 0 <= i < old(self)@.len()
                    &&& old(self)@[i].0 == old(self).spec_key(node)
                    &&& final(self)@ == old(self)@.remove(i)
                }),
    {
        let key = self.key(node);

        match self.find_node(key) {
            Ok(index) => {
                self.data.remove(index);
                proof {
                    assert(self@ =~= old(self)@.remove(index as int));
                    assert(contains_key(old(self)@, key)) by {
                        assert(old(self)@[index as int].0 == key);
                    }
                    assert((index as int) < old(self)@.len() && old(self)@[index as int].0 == key
                        && self@ == old(self)@.remove(index as int));
                }
                Ok(())
            },
            Err(_) => {
                proof {
                    assert(!contains_key(self@, key)) by {
                        assert(forall|j: int| 0 <= j < self@.len() ==> self@[j].0 != key);
                    }
                }
                Err(Error::NodeNotFound)
            },
        }
    }
}

/// Inserts `n` into a vector kept in ascending key order, after every node
/// whose key is at or below its own.
fn insert_node_sorted<T>(out: &mut Vec<Node<T>>, n: Node<T>)
    ensures
        ents(final(out)@) == spec_insert_by_key(ents(old(out)@), (n.key, n.data)),
{
    let key = n.key;
    let mut j: usize = out.len();
    while j > 0 && out[j - 1].key > key
        invariant
            j <= out@.len(),
            out@ == old(out)@,
            forall|t: int| j <= t < out@.len() ==> ents(out@)[t].0 > key,
        decreases j,
    {
        j -= 1;
    }
    proof {
        if j > 0 {
            assert(ents(out@)[j - 1].0 <= key);
        }
    }
    out.insert(j, n);
    proof {
        assert(ents(out@) =~= ents(old(out)@).insert(j as int, (n.key, n.data)));
        lemma_insert_by_key_at(ents(old(out)@), (n.key, n.data), j as int);
    }
}

/// The entries are ascending by key; duplicate keys may sit side by side.
pub open spec fn sorted_keys_le<T>(entries: Seq<(u64, T)>) -> bool {
    forall|i: int, j: int| 0 <= i < j < entries.len() ==> entries[i].0 <= entries[j].0
}

/// What key-ordered insertion does to the entries: one entry longer, the
/// multiset of entries gains exactly the new entry, key membership gains
/// exactly the new key, order by key is preserved, and a fresh key keeps a
/// strict order strict.
pub proof fn lemma_insert_by_key_props<T>(s: Seq<(u64, T)>, x: (u64, T))
    ensures
        spec_insert_by_key(s, x).len() == s.len() + 1,
        spec_insert_by_key(s, x).to_multiset() == s.to_multiset().insert(x),
        forall|k: u64|
            contains_key(spec_insert_by_key(s, x), k) <==> contains_key(s, k) || k == x.0,
        sorted_keys_le(s) ==> sorted_keys_le(spec_insert_by_key(s, x)),
        sorted_keys(s) && !contains_key(s, x.0) ==> sorted_keys(spec_insert_by_key(s, x)),
    decreases s.len(),
{
    broadcast use vstd::seq_lib::group_to_multiset_ensures;

    let res = spec_insert_by_key(s, x);
    if s.len() == 0 {
        assert(res =~= Seq::<(u64, T)>::empty().push(x));
        assert(Seq::<(u64, T)>::empty().to_multiset() =~= Multiset::<(u64, T)>::empty());
        assert forall|k: u64| contains_key(res, k) <==> contains_key(s, k) || k == x.0 by {
            assert(res[0] == x);
        }
    } else if s.last().0 <= x.0 {
        assert(res == s.push(x));
        assert forall|k: u64| contains_key(res, k) <==> contains_key(s, k) || k == x.0 by {
            if contains_key(res, k) {
                let i = choose|i: int| 0 <= i < res.len() && res[i].0 == k;
                if i < s.len() {
                    assert(s[i].0 == k);
                } else {
                    assert(res[i] == x);
                }
            }
            if contains_key(s, k) {
                let i = choose|i: int| 0 <= i < s.len() && s[i].0 == k;
                assert(res[i].0 == k);
            }
            if k == x.0 {
                assert(res[s.len() as int].0 == k);
            }
        }
    } else {
        let inner = spec_insert_by_key(s.drop_last(), x);
        lemma_insert_by_key_props(s.drop_last(), x);
        assert(res == inner.push(s.last()));
        assert(s =~= s.drop_last().push(s.last()));
        assert(s.to_multiset() == s.drop_last().to_multiset().insert(s.last()));
        assert(res.to_multiset() =~= s.to_multiset().insert(x));
        assert forall|k: u64| contains_key(res, k) <==> contains_key(s, k) || k == x.0 by {
            if contains_key(res, k) {
                let i = choose|i: int| 0 <= i < res.len() && res[i].0 == k;
                if i < inner.len() {
                    assert(res[i] == inner[i]);
                    assert(contains_key(inner, k));
                    if contains_key(s.drop_last(), k) {
                        let j = choose|j: int| 0 <= j < s.drop_last().len() && s.drop_last()[j].0
                            == k;
                        assert(s[j].0 == k);
                    }
                } else {
                    assert(res[i] == s.last());
                    assert(s[s.len() - 1].0 == k);
                }
            }
            if contains_key(s, k) {
                let i = choose|i: int| 0 <= i < s.len() && s[i].0 == k;
                if i < s.len() - 1 {
                    assert(s.drop_last()[i].0 == k);
                    assert(contains_key(s.drop_last(), k));
                    let j = choose|j: int| 0 <= j < inner.len() && inner[j].0 == k;
                    assert(res[j].0 == k);
                } else {
                    assert(res[res.len() - 1].0 == k);
                }
            }
            if k == x.0 {
                assert(inner.to_multiset().count(x) > 0) by {
                    assert(inner.to_multiset() == s.drop_last().to_multiset().insert(x));
                }
                assert(inner.contains(x));
                let j = choose|j: int| 0 <= j < inner.len() && inner[j] == x;
                assert(res[j].0 == k);
            }
        }
        if sorted_keys_le(s) {
            assert(sorted_keys_le(s.drop_last()));
            assert forall|i: int, j: int| 0 <= i < j < res.len() implies res[i].0 <= res[j].0 by {
                if j == res.len() - 1 {
                    assert(res[j] == s.last());
                    assert(contains_key(inner, res[i].0)) by {
                        assert(inner[i].0 == res[i].0);
                    }
                    if contains_key(s.drop_last(), res[i].0) {
                        let m = choose|m: int|
                            0 <= m < s.drop_last().len() && s.drop_last()[m].0 == res[i].0;
                        assert(s[m].0 == res[i].0);
                        assert(s[m].0 <= s.last().0);
                    } else {
                        assert(res[i].0 == x.0);
                    }
                }
            }
        }
        if sorted_keys(s) && !contains_key(s, x.0) {
            assert(sorted_keys(s.drop_last()));
            assert(!contains_key(s.drop_last(), x.0)) by {
                if contains_key(s.drop_last(), x.0) {
                    let m = choose|m: int|
                        0 <= m < s.drop_last().len() && s.drop_last()[m].0 == x.0;
                    assert(s[m].0 == x.0);
                }
            }
            assert forall|i: int, j: int| 0 <= i < j < res.len() implies res[i].0 < res[j].0 by {
                if j == res.len() - 1 {
                    assert(res[j] == s.last());
                    assert(contains_key(inner, res[i].0)) by {
                        assert(inner[i].0 == res[i].0);
                    }
                    if contains_key(s.drop_last(), res[i].0) {
                        let m = choose|m: int|
                            0 <= m < s.drop_last().len() && s.drop_last()[m].0 == res[i].0;
                        assert(s[m].0 == res[i].0);
                        assert(s[m].0 < s.last().0);
                    } else {
                        assert(res[i].0 == x.0);
                    }
                }
            }
        }
    }
}

/// Sorting keeps exactly the same entries (as a multiset) and the same keys,
/// and orders them ascending by key; distinct keys make the order strict.
pub proof fn lemma_sort_by_key_props<T>(s: Seq<(u64, T)>)
    ensures
        spec_sort_by_key(s).len() == s.len(),
        spec_sort_by_key(s).to_multiset() == s.to_multiset(),
        forall|k: u64| contains_key(spec_sort_by_key(s), k) <==> contains_key(s, k),
        sorted_keys_le(spec_sort_by_key(s)),
        distinct_keys(s) ==> sorted_keys(spec_sort_by_key(s)),
    decreases s.len(),
{
    broadcast use vstd::seq_lib::group_to_multiset_ensures;

    if s.len() == 0 {
    } else {
        let prefix = s.drop_last();
        let sorted = spec_sort_by_key(prefix);
        lemma_sort_by_key_props(prefix);
        lemma_insert_by_key_props(sorted, s.last());
        assert(s =~= prefix.push(s.last()));
        assert(s.to_multiset() == prefix.to_multiset().insert(s.last()));
        assert forall|k: u64| contains_key(spec_sort_by_key(s), k) <==> contains_key(s, k) by {
            if contains_key(s, k) {
                let i = choose|i: int| 0 <= i < s.len() && s[i].0 == k;
                if i < s.len() - 1 {
                    assert(prefix[i].0 == k);
                    assert(contains_key(prefix, k));
                }
            }
            if contains_key(prefix, k) {
                let i = choose|i: int| 0 <= i < prefix.len() && prefix[i].0 == k;
                assert(s[i].0 == k);
            }
        }
        if distinct_keys(s) {
            assert(distinct_keys(prefix));
            assert(!contains_key(prefix, s.last().0)) by {
                if contains_key(prefix, s.last().0) {
                    let m = choose|m: int| 0 <= m < prefix.len() && prefix[m].0 == s.last().0;
                    assert(s[m].0 == s[s.len() - 1].0);
                }
            }
        }
    }
}

/// Sorted order is unique: two rings that hold the same entries, both
/// strictly sorted by key, are identical. Hence bulk-loading nodes with
/// `add_node_unchecked` and then calling `sort` produces exactly the ring
/// that the same nodes build through sequential `add_node` calls.
pub proof fn lemma_round_trip<T>(s: Seq<(u64, T)>, t: Seq<(u64, T)>)
    requires
        sorted_keys(s),
        sorted_keys(t),
        s.to_multiset() == t.to_multiset(),
    ensures
        s == t,
    decreases s.len(),
{
    broadcast use vstd::seq_lib::group_to_multiset_ensures;

    if s.len() == 0 {
        assert(t.len() == 0);
        assert(s =~= t);
    } else {
        assert(s.len() == s.to_multiset().len());
        assert(t.len() == t.to_multiset().len());
        assert(t.len() == s.len());
        assert(t.to_multiset().count(s[0]) > 0) by {
            assert(s.contains(s[0]));
        }
        assert(t.contains(s[0]));
        let j = choose|j: int| 0 <= j < t.len() && t[j] == s[0];
        assert(s.to_multiset().count(t[0]) > 0) by {
            assert(t.contains(t[0]));
        }
        assert(s.contains(t[0]));
        let i = choose|i: int| 0 <= i < s.len() && s[i] == t[0];
        assert(t[0].0 <= t[j].0);
        assert(s[0].0 <= s[i].0);
        assert(t[0].0 == s[0].0);
        assert(i == 0) by {
            if i > 0 {
                assert(s[0].0 < s[i].0);
            }
        }
        assert(t[0] == s[0]);
        assert(s.drop_first() =~= s.remove(0));
        assert(t.drop_first() =~= t.remove(0));
        assert(s.remove(0).to_multiset() == s.to_multiset().remove(s[0]));
        assert(t.remove(0).to_multiset() == t.to_multiset().remove(t[0]));
        assert(sorted_keys(s.drop_first()));
        assert(sorted_keys(t.drop_first()));
        lemma_round_trip(s.drop_first(), t.drop_first());
        assert(s =~= t) by {
            assert(forall|m: int|
                0 < m < s.len() ==> s[m] == s.drop_first()[m - 1] && t[m] == t.drop_first()[m
                    - 1]);
        }
    }
}

/// Reference to a hash ring node. Acts as a cursor (using `prev()` and
/// `next()` methods), and provides additional node data like range and hash
/// key.
#[derive(Clone)]
pub struct NodeRef<'a, T, S: RingHasher<T>> {
    ring: &'a HashRing<T, S>,
    index: usize,
}

impl<'a, T, S: RingHasher<T>> NodeRef<'a, T, S> {
    /// The entries of the ring this reference points into.
    pub closed spec fn entries(self) -> Seq<(u64, T)> {
        self.ring@
    }

    /// The position of the referenced node on the ring.
    pub closed spec fn spec_index(self) -> int {
        self.index as int
    }

    /// The reference points at an existing node.
    pub open spec fn wf(self) -> bool {
        0 <= self.spec_index() < self.entries().len()
    }

    /// Returns the node's hash key.
    pub fn key(&self) -> (r: &u64)
        requires
            self.wf(),
        ensures
            *r == self.entries()[self.spec_index()].0,
    {
        &self.ring.data[self.index].key
    }

    /// Returns the node's data.
    pub fn data(&self) -> (r: &T)
        requires
            self.wf(),
        ensures
            *r == self.entries()[self.spec_index()].1,
    {
        &self.ring.data[self.index].data
    }
}

impl<T, S: RingHasher<T>> HashRing<T, S> {
    /// Returns the `NodeRef` by node index within the hash ring, or an error
    /// if the index is out of bounds.
    pub fn get_by_index(&self, index: usize) -> (r: Result<NodeRef<'_, T, S>, Error>)
        ensures
            index < self@.len() ==> (r matches Ok(nr) && nr.entries() == self@ && nr.spec_index()
                == index),
            index >= self@.len() ==> r == Err::<NodeRef<'_, T, S>, Error>(Error::NodeNotFound),
    {
        if index < self.len() {
            Ok(NodeRef { ring: self, index })
        } else {
            Err(Error::NodeNotFound)
        }
    }

    /// Returns the `NodeRef` for the node owning `key`, or an error if the
    /// hash ring is empty.
    pub fn get_by_key(&self, key: &u64) -> (r: Result<NodeRef<'_, T, S>, Error>)
        requires
            self.sorted(),
        ensures
            self@.len() == 0 ==> r == Err::<NodeRef<'_, T, S>, Error>(Error::NodeNotFound),
            self@.len() > 0 ==> (r matches Ok(nr) && nr.wf() && nr.entries() == self@
                && nr.spec_index() == spec_owner_index(self@, *key)),
    {
        if self.data.is_empty() {
            return Err(Error::NodeNotFound);
        }

        let index = match self.find_node(*key) {
            Err(index) => {
                proof {
                    lemma_first_at_or_after(keys_of(self@), *key, index as int);
                }
                index
            },
            Ok(index) => {
                proof {
                    assert(forall|j: int| 0 <= j < index ==> self@[j].0 < self@[index as int].0);
                    lemma_first_at_or_after(keys_of(self@), *key, index as int);
                }
                index
            },
        };

        let index = if index == self.data.len() {
            0
        } else {
            index
        };

        self.get_by_index(index)
    }

    /// Returns the `NodeRef` for the node owning the key derived from `key`,
    /// or an error if the hash ring is empty.
    pub fn get_by_hash(&self, key: &T) -> (r: Result<NodeRef<'_, T, S>, Error>)
        requires
            self.sorted(),
        ensures
            self@.len() == 0 ==> r == Err::<NodeRef<'_, T, S>, Error>(Error::NodeNotFound),
            self@.len() > 0 ==> (r matches Ok(nr) && nr.wf() && nr.entries() == self@
                && nr.spec_index() == spec_owner_index(self@, self.spec_key(key))),
    {
        self.get_by_key(&self.key(key))
    }

    /// Searches the ring for `node` and returns its `NodeRef`, or an error if
    /// the node is not found.
    pub fn node(&self, node: &T) -> (r: Result<NodeRef<'_, T, S>, Error>)
        requires
            self.sorted(),
        ensures
            !contains_key(self@, self.spec_key(node)) ==> r == Err::<
                NodeRef<'_, T, S>,
                Error,
            >(Error::NodeNotFound),
            contains_key(self@, self.spec_key(node)) ==> (r matches Ok(nr) && nr.entries() == self@
                && nr.wf() && self@[nr.spec_index()].0 == self.spec_key(node)),
    {
        if self.data.is_empty() {
            return Err(Error::NodeNotFound);
        }

        let key = self.key(node);

        match self.find_node(key) {
            Ok(index) => self.get_by_index(index),
            Err(_) => Err(Error::NodeNotFound),
        }
    }
}

impl<'a, T, S: RingHasher<T>> NodeRef<'a, T, S> {
    /// The position of this node's circular successor.
    pub open spec fn spec_next_index(self) -> int {
        if self.spec_index() + 1 == self.entries().len() {
            0
        } else {
            self.spec_index() + 1
        }
    }

    /// The position of this node's circular predecessor.
    pub open spec fn spec_prev_index(self) -> int {
        if self.spec_index() == 0 {
            self.entries().len() - 1
        } else {
            self.spec_index() - 1
        }
    }

    /// Returns the previous node on the hash ring. If the hash ring contains
    /// only one node, the returned reference will be for the same node.
    pub fn prev(&self) -> (r: Self)
        requires
            self.wf(),
        ensures
            r.entries() == self.entries(),
            r.spec_index() == self.spec_prev_index(),
            r.wf(),
    {
        let ring = self.ring;
        let index = if self.index == 0 {
            ring.data.len() - 1
        } else {
            self.index - 1
        };
        Self { ring, index }
    }

    /// Returns the next node on the hash ring. If the hash ring contains
    /// only one node, the returned reference will be for the same node.
    pub fn next(&self) -> (r: Self)
        requires
            self.wf(),
        ensures
            r.entries() == self.entries(),
            r.spec_index() == self.spec_next_index(),
            r.wf(),
    {
        let ring = self.ring;
        let index = if self.index == ring.data.len() - 1 {
            0
        } else {
            self.index + 1
        };
        Self { ring, index }
    }

    /// The span of keys this node owns: from its own key up to (but not
    /// including) its circular successor's key. On a single-node ring the two
    /// coincide and the range covers the whole key space.
    pub open spec fn spec_range(self) -> KeyRange {
        KeyRange {
            start: self.entries()[self.spec_index()].0,
            end: self.entries()[self.spec_next_index()].0,
        }
    }

    /// Returns the node's range on the hash ring.
    pub fn range(&self) -> (r: KeyRange)
        requires
            self.wf(),
        ensures
            r == self.spec_range(),
    {
        KeyRange { start: *self.key(), end: *self.next().key() }
    }
}

/// The ring positions visited from `cur` onward: `count` steps forward,
/// wrapping from the last position (`len - 1`) back to `0`.
pub open spec fn spec_cycle(cur: int, count: nat, len: int) -> Seq<int>
    decreases count,
{
    if count == 0 {
        Seq::empty()
    } else {
        seq![cur] + spec_cycle(
            if cur + 1 == len {
                0int
            } else {
                cur + 1
            },
            (count - 1) as nat,
            len,
        )
    }
}

/// How many nodes a single full lap that began at `start` has left to visit
/// when it stands at `cur`.
pub open spec fn spec_lap_remaining(cur: int, start: int, len: int) -> nat {
    if cur < start {
        (start - cur) as nat
    } else {
        (len - (cur - start)) as nat
    }
}

/// Where iteration starts: at the owner of the given key, or at position 0.
pub open spec fn spec_iter_start<T>(entries: Seq<(u64, T)>, start: Option<u64>) -> int {
    match start {
        Some(k) => spec_owner_index(entries, k),
        None => 0,
    }
}

proof fn lemma_cycle_indices(cur: int, count: nat, len: int)
    requires
        0 <= cur < len,
        count <= len,
    ensures
        spec_cycle(cur, count, len).len() == count,
        forall|i: int|
            0 <= i < count ==> spec_cycle(cur, count, len)[i] == (if cur + i < len {
                cur + i
            } else {
                cur + i - len
            }),
    decreases count,
{
    if count == 0 {
    } else {
        let cur2 = if cur + 1 == len {
            0int
        } else {
            cur + 1
        };
        lemma_cycle_indices(cur2, (count - 1) as nat, len);
        let lap = spec_cycle(cur, count, len);
        let rest = spec_cycle(cur2, (count - 1) as nat, len);
        assert forall|i: int|
            0 <= i < count implies lap[i] == (if cur + i < len {
                cur + i
            } else {
                cur + i - len
            }) by {
            if i > 0 {
                assert(lap[i] == rest[i - 1]);
            }
        }
    }
}

/// Iteration completeness: one full lap that begins at position `first`
/// visits exactly `len` positions, each position of the ring exactly once,
/// in ascending order from `first` and wrapping past the end.
pub proof fn lemma_iter_complete(first: int, len: int)
    requires
        0 <= first < len,
    ensures
        ({
            let lap = spec_cycle(first, len as nat, len);
            &&& lap.len() == len
            &&& forall|i: int|
                0 <= i < len ==> lap[i] == (if first + i < len {
                    first + i
                } else {
                    first + i - len
                })
            &&& forall|i: int, j: int| 0 <= i < j < len ==> lap[i] != lap[j]
            &&& forall|p: int| 0 <= p < len ==> lap.contains(p)
        }),
{
    lemma_cycle_indices(first, len as nat, len);
    let lap = spec_cycle(first, len as nat, len);
    assert forall|p: int| 0 <= p < len implies lap.contains(p) by {
        let i = if p >= first {
            p - first
        } else {
            p + len - first
        };
        assert(lap[i] == p);
    }
}

/// Ring adjacency: a node's range starts at its own key and ends exactly
/// where its successor's range starts, at the successor's key.
pub proof fn lemma_ring_adjacency<'a, T, S: RingHasher<T>>(a: NodeRef<'a, T, S>, b: NodeRef<'a, T, S>)
    requires
        a.wf(),
        b.wf(),
        a.entries() == b.entries(),
        b.spec_index() == a.spec_next_index(),
    ensures
        a.spec_range().start == a.entries()[a.spec_index()].0,
        a.spec_range().end == b.spec_range().start,
        b.spec_range().start == b.entries()[b.spec_index()].0,
{
}

/// Single-node degeneracy: on a ring of one node, both neighbours of that
/// node are the node itself, and its range covers every key.
pub proof fn lemma_single_node<'a, T, S: RingHasher<T>>(nr: NodeRef<'a, T, S>, k: u64)
    requires
        nr.wf(),
        nr.entries().len() == 1,
    ensures
        nr.spec_next_index() == nr.spec_index(),
        nr.spec_prev_index() == nr.spec_index(),
        nr.spec_range().start == nr.spec_range().end,
        nr.spec_range().spec_contains(k),
{
}

/// A single lap over the ring: yields each node once, starting from a chosen
/// node and proceeding in ring order with wraparound, then stops for good.
pub struct Iter<'a, T, S: RingHasher<T>> {
    start: usize,
    next: Option<NodeRef<'a, T, S>>,
}

impl<'a, T, S: RingHasher<T>> Iter<'a, T, S> {
    /// The entries of the ring this lap walks over; empty once exhausted.
    pub closed spec fn entries(self) -> Seq<(u64, T)> {
        match self.next {
            Some(nr) => nr.entries(),
            None => Seq::empty(),
        }
    }

    /// The ring positions this lap has yet to yield, in order.
    pub closed spec fn remaining(self) -> Seq<int> {
        match self.next {
            Some(nr) => spec_cycle(
                nr.spec_index(),
                spec_lap_remaining(nr.spec_index(), self.start as int, nr.entries().len() as int),
                nr.entries().len() as int,
            ),
            None => Seq::empty(),
        }
    }

    /// The cursor points at an existing node of the lap's ring.
    pub closed spec fn wf(self) -> bool {
        self.next matches Some(nr) ==> nr.wf() && (self.start as int) < nr.entries().len()
    }

    /// A lap that starts at `node` and will yield every node of its ring.
    pub fn new(node: NodeRef<'a, T, S>) -> (r: Self)
        requires
            node.wf(),
        ensures
            r.wf(),
            r.entries() == node.entries(),
            r.remaining() == spec_cycle(
                node.spec_index(),
                node.entries().len() as nat,
                node.entries().len() as int,
            ),
    {
        Self { start: node.index, next: Some(node) }
    }

    /// A lap that yields nothing.
    pub fn empty() -> (r: Self)
        ensures
            r.wf(),
            r.remaining() == Seq::<int>::empty(),
    {
        Self { start: 0, next: None }
    }

    /// Yields the node at the next position of the lap, or `None` once the
    /// lap has come full circle.
    pub fn next(&mut self) -> (r: Option<NodeRef<'a, T, S>>)
        requires
            old(self).wf(),
        ensures
            final(self).wf(),
            match r {
                Some(nr) => {
                    &&& old(self).remaining().len() > 0
                    &&& nr.wf()
                    &&& nr.entries() == old(self).entries()
                    &&& nr.spec_index() == old(self).remaining()[0]
                    &&& final(self).remaining() == old(self).remaining().drop_first()
                    &&& (final(self).remaining().len() > 0 ==> final(self).entries() == old(
                        self,
                    ).entries())
                },
                None => old(self).remaining().len() == 0 && final(self).remaining().len() == 0,
            },
    {
        let current = self.next.take();

        match &current {
            Some(c) => {
                let ghost cur = c.spec_index();
                let ghost len = c.entries().len() as int;
                let ghost st = self.start as int;
                let ghost lap = spec_lap_remaining(cur, st, len);
                proof {
                    assert(lap >= 1);
                    assert(old(self).remaining() == spec_cycle(cur, lap, len));
                    assert(old(self).remaining()[0] == cur);
                    assert(old(self).remaining().drop_first() =~= spec_cycle(
                        if cur + 1 == len {
                            0int
                        } else {
                            cur + 1
                        },
                        (lap - 1) as nat,
                        len,
                    ));
                }
                let n = c.next();
                if n.index != self.start {
                    proof {
                        assert(spec_lap_remaining(n.spec_index(), st, len) == lap - 1);
                    }
                    self.next = Some(n);
                }
            },
            None => {},
        }

        current
    }
}

impl<T, S: RingHasher<T>> HashRing<T, S> {
    /// Returns a lap over the ring: every node exactly once, in ring order,
    /// starting at the owner of `start` (or at position 0 if no start key is
    /// given). On an empty ring the lap yields nothing.
    pub fn iter(&self, start: Option<u64>) -> (r: Iter<'_, T, S>)
        requires
            start is Some ==> self.sorted(),
        ensures
            r.wf(),
            self@.len() == 0 ==> r.remaining() == Seq::<int>::empty(),
            self@.len() > 0 ==> r.entries() == self@ && r.remaining() == spec_cycle(
                spec_iter_start(self@, start),
                self@.len() as nat,
                self@.len() as int,
            ),
    {
        let start_node = match start {
            Some(start_key) => {
                proof {
                    if self@.len() > 0 {
                        lemma_coverage(self@, start_key);
                    }
                }
                self.get_by_key(&start_key)
            },
            None => self.get_by_index(0),
        };

        match start_node {
            Ok(node) => Iter::new(node),
            Err(_) => Iter::empty(),
        }
    }
}

} // verus!
