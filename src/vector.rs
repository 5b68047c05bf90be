//! The integer side of similarity search: the byte histogram behind the
//! default text embedding, an order-preserving key for single-precision
//! scores, and the stable top-k ranking by those keys.
use vstd::prelude::*;
use vstd::string::StringSliceAdditionalSpecFns;

use crate::text::same_text;

verus! {

/// The dimension of the default text embedding.
pub const DEFAULT_DIM: usize = 256;

/// How many of `bytes` fall in bucket `j` when byte `b` goes to bucket
/// `b mod dim`.
pub open spec fn bucket_count(bytes: Seq<u8>, dim: nat, j: nat) -> nat
    decreases bytes.len(),
{
    if bytes.len() == 0 {
        0
    } else {
        bucket_count(bytes.drop_last(), dim, j) + if (bytes.last() as nat) % dim == j {
            1nat
        } else {
            0nat
        }
    }
}

/// The histogram of the UTF-8 bytes of `text` over `dim` buckets: byte `b`
/// counts towards bucket `b mod dim`.
pub fn byte_histogram(text: &str, dim: usize) -> (r: Vec<usize>)
    requires
        dim > 0,
    ensures
        r@.len() == dim,
        forall|j: int| 0 <= j < dim ==> r@[j] == bucket_count(text.spec_bytes(), dim as nat, j as nat),
{
    let bytes = text.as_bytes();
    let mut r: Vec<usize> = Vec::new();
    let mut j: usize = 0;
    while j < dim
        invariant
            j <= dim,
            r@.len() == j,
            forall|m: int| 0 <= m < j ==> r@[m] == 0,
        decreases dim - j,
    {
        r.push(0);
        j = j + 1;
    }
    let mut i: usize = 0;
    while i < bytes.len()
        invariant
            bytes@ == text.spec_bytes(),
            dim > 0,
            i <= bytes@.len(),
            r@.len() == dim,
            forall|m: int| 0 <= m < dim ==> r@[m] == bucket_count(bytes@.take(i as int), dim as nat, m as nat),
            forall|m: int| 0 <= m < dim ==> r@[m] <= i,
        decreases bytes@.len() - i,
    {
        assert(bytes@.take(i + 1).drop_last() =~= bytes@.take(i as int));
        let b = (bytes[i] as usize) % dim;
        r.set(b, r[b] + 1);
        i = i + 1;
    }
    assert(bytes@.take(bytes@.len() as int) =~= bytes@);
    r
}

/// The value order of a single-precision bit pattern that is not NaN: the
/// sign and magnitude read as one integer (both zeros rank equal).
pub open spec fn float_rank(bits: u32) -> int {
    if bits >= 0x8000_0000 {
        0x8000_0000 - bits
    } else {
        bits as int
    }
}

/// The key of a bit pattern: its rank moved into the unsigned range, with
/// negative zero one below positive zero.
pub open spec fn order_key(bits: u32) -> int {
    if bits >= 0x8000_0000 {
        float_rank(bits) + 0x7fff_ffff
    } else {
        float_rank(bits) + 0x8000_0000
    }
}

/// An unsigned key that orders single-precision bit patterns as their
/// values are ordered.
pub fn score_order_key(bits: u32) -> (r: u32)
    ensures
        r == order_key(bits),
{
    if bits >= 0x8000_0000 {
        u32::MAX - bits
    } else {
        bits + 0x8000_0000
    }
}

/// Keys order bit patterns as their values are ordered: a smaller value has
/// a smaller key, and a smaller key never stands for a larger value.
pub proof fn lemma_order_key_monotone(a: u32, b: u32)
    ensures
        float_rank(a) < float_rank(b) ==> order_key(a) < order_key(b),
        order_key(a) < order_key(b) ==> float_rank(a) <= float_rank(b),
{
}

/// Index `a` ranks before index `b`: a higher key, or an equal key and an
/// earlier index.
pub open spec fn ranks_before(keys: Seq<u32>, a: usize, b: usize) -> bool {
    keys[a as int] > keys[b as int] || (keys[a as int] == keys[b as int] && a < b)
}

/// `order` lists indices, each ranking before the next.
pub open spec fn ranked(keys: Seq<u32>, order: Seq<usize>) -> bool {
    forall|i: int| 0 <= i < order.len() - 1 ==> ranks_before(keys, #[trigger] order[i], order[i + 1])
}

/// `order` holds each index below `n` once.
pub open spec fn covers(order: Seq<usize>, n: nat) -> bool {
    &&& order.len() == n
    &&& forall|i: int| 0 <= i < order.len() ==> (#[trigger] order[i]) < n
    &&& order.no_duplicates()
}

/// The indices of `keys` by descending key, equal keys in index order, at
/// most `k` of them: the first `min(k, n)` of the one ranked order of all
/// indices.
pub fn rank_top_k(keys: &Vec<u32>, k: usize) -> (r: Vec<usize>)
    ensures
        exists|all: Seq<usize>|
            covers(all, keys@.len()) && #[trigger] ranked(keys@, all) && r@ == all.take(
                if k < all.len() { k as int } else { all.len() as int },
            ),
        r@.len() <= k,
        forall|i: int| 0 <= i < r@.len() - 1 ==> keys@[#[trigger] r@[i] as int] >= keys@[r@[i + 1] as int],
{
    let mut order: Vec<usize> = Vec::new();
    let mut i: usize = 0;
    while i < keys.len()
        invariant
            i <= keys.len(),
            covers(order@, i as nat),
            ranked(keys@, order@),
            forall|m: int| 0 <= m < order@.len() ==> (#[trigger] order@[m]) < i,
        decreases keys.len() - i,
    {
        let mut p: usize = 0;
        while p < order.len() && keys[order[p]] >= keys[i]
            invariant
                p <= order.len(),
                covers(order@, i as nat),
                i < keys.len(),
                forall|m: int| 0 <= m < p ==> keys@[#[trigger] order@[m] as int] >= keys@[i as int],
            decreases order.len() - p,
        {
            p = p + 1;
        }
        let ghost before = order@;
        order.insert(p, i);
        proof {
            assert(order@ == before.insert(p as int, i));
            assert forall|m: int| 0 <= m < order@.len() - 1 implies ranks_before(keys@, #[trigger] order@[m], order@[m + 1]) by {
                if m + 1 < p {
                    assert(order@[m] == before[m] && order@[m + 1] == before[m + 1]);
                } else if m + 1 == p {
                    assert(order@[m] == before[m]);
                    assert(before[m] < i);
                } else if m == p {
                    assert(order@[m + 1] == before[m]);
                } else {
                    assert(order@[m] == before[m - 1] && order@[m + 1] == before[m]);
                }
            }
            assert forall|a: int, b: int| 0 <= a < b < order@.len() implies order@[a] != order@[b] by {
                if a < p && b < p {
                    assert(before[a] != before[b]);
                } else if a < p && b == p {
                } else if a < p {
                    assert(before[a] != before[b - 1]);
                } else if a == p {
                } else {
                    assert(before[a - 1] != before[b - 1]);
                }
            }
        }
        i = i + 1;
    }
    let ghost all = order@;
    order.truncate(k);
    assert(order@ =~= all.take(if k < all.len() { k as int } else { all.len() as int }));
    assert(forall|m: int| 0 <= m < order@.len() ==> order@[m] == all[m]);
    order
}

/// Vectors keyed by id, in order of first insertion. Upserting an id that is
/// present replaces its vector in place, so the order of entries only grows
/// at the end.
pub struct VectorIndex<V> {
    ids: Vec<String>,
    vectors: Vec<V>,
}

impl<V> VectorIndex<V> {
    /// The ids, in order of first insertion.
    pub closed spec fn keys(&self) -> Seq<Seq<char>> {
        self.ids.deep_view()
    }

    /// The vectors, in the order of their ids.
    pub closed spec fn values(&self) -> Seq<V> {
        self.vectors@
    }

    /// As many vectors as ids, and no id twice.
    pub open spec fn wf(&self) -> bool {
        self.keys().len() == self.values().len() && self.keys().no_duplicates()
    }

    pub fn new() -> (r: VectorIndex<V>)
        ensures
            r.wf(),
            r.keys().len() == 0,
    {
        let r = VectorIndex { ids: Vec::new(), vectors: Vec::new() };
        assert(r.keys() =~= Seq::<Seq<char>>::empty());
        r
    }

    pub fn len(&self) -> (r: usize)
        requires
            self.wf(),
        ensures
            r == self.keys().len(),
    {
        self.ids.len()
    }

    /// Stores `vector` under `id`, replacing the vector already there.
    pub fn upsert(&mut self, id: String, vector: V)
        requires
            old(self).wf(),
        ensures
            final(self).wf(),
            old(self).keys().contains(id@) ==> exists|p: int|
                0 <= p < old(self).keys().len() && old(self).keys()[p] == id@ && final(self).keys()
                    == old(self).keys() && #[trigger] final(self).values() == old(self).values().update(p, vector),
            !old(self).keys().contains(id@) ==> final(self).keys() == old(self).keys().push(id@)
                && final(self).values() == old(self).values().push(vector),
    {
        let mut p: usize = 0;
        while p < self.ids.len()
            invariant
                self.wf(),
                self == old(self),
                p <= self.ids.len(),
                forall|k: int| 0 <= k < p ==> self.keys()[k] != id@,
            decreases self.ids.len() - p,
        {
            if same_text(self.ids[p].as_str(), id.as_str()) {
                assert(self.keys()[p as int] == id@);
                self.vectors.set(p, vector);
                return;
            }
            p = p + 1;
        }
        let ghost before = self.keys();
        self.ids.push(id);
        self.vectors.push(vector);
        assert(self.keys() =~= before.push(id@));
    }

    /// The id of entry `i`.
    pub fn id_at(&self, i: usize) -> (r: &String)
        requires
            self.wf(),
            i < self.keys().len(),
        ensures
            r@ == self.keys()[i as int],
    {
        &self.ids[i]
    }

    /// The vector of entry `i`.
    pub fn value_at(&self, i: usize) -> (r: &V)
        requires
            self.wf(),
            i < self.keys().len(),
        ensures
            *r == self.values()[i as int],
    {
        &self.vectors[i]
    }
}

} // verus!
