use vstd::prelude::*;

use crate::ivec::{IVec, IVEC_SIZE};
use crate::key::{
    key_eq, key_less, key_ok, spec_encode, lemma_decode_encode, lemma_lt_total, lemma_lt_transitive, lex_lt,
    prefix_decode, prefix_encode, spec_decode,
};
use crate::sorted::{
    at_or_above, below, lemma_absent, lemma_cut, lemma_to_map_at, lemma_insert, lemma_map_len, lemma_remove, lemma_split_point, lemma_update,
    sorted_keys, to_map,
};

verus! {

/// Identifier of a page in the page cache.
pub type PageId = u64;

/// Footprint of a `Data` value itself.
pub const DATA_SIZE: u64 = 32;

/// Footprint of the vector header that holds the entries.
pub const VEC_SIZE: u64 = 24;

/// Footprint of a child page id.
pub const PAGE_ID_SIZE: u64 = 8;

/// The payload of a page. Keys are stored encoded against the page's lower
/// bound, and their decoded forms strictly increase.
#[derive(Debug)]
pub enum Data {
    /// Separator keys and the child pages they route to.
    Index(Vec<(IVec, PageId)>),
    /// Keys and their values.
    Leaf(Vec<(IVec, IVec)>),
}

/// What a `Data` value stands for, with its keys decoded.
pub enum DataModel {
    Index(Map<Seq<u8>, PageId>),
    Leaf(Map<Seq<u8>, Seq<u8>>),
}

impl DataModel {
    /// The entries whose key comes before `bound`.
    pub open spec fn below(self, bound: Seq<u8>) -> DataModel {
        match self {
            DataModel::Index(m) => DataModel::Index(below(m, bound)),
            DataModel::Leaf(m) => DataModel::Leaf(below(m, bound)),
        }
    }

    /// The entries whose key does not come before `bound`.
    pub open spec fn at_or_above(self, bound: Seq<u8>) -> DataModel {
        match self {
            DataModel::Index(m) => DataModel::Index(at_or_above(m, bound)),
            DataModel::Leaf(m) => DataModel::Leaf(at_or_above(m, bound)),
        }
    }
}

impl DataModel {
    /// The keys present.
    pub open spec fn keys(self) -> Set<Seq<u8>> {
        match self {
            DataModel::Index(m) => m.dom(),
            DataModel::Leaf(m) => m.dom(),
        }
    }

    /// The entries of both, when both are of one kind; otherwise `self`.
    pub open spec fn union(self, other: DataModel) -> DataModel {
        match (self, other) {
            (DataModel::Index(a), DataModel::Index(b)) => DataModel::Index(a.union_prefer_right(b)),
            (DataModel::Leaf(a), DataModel::Leaf(b)) => DataModel::Leaf(a.union_prefer_right(b)),
            _ => self,
        }
    }
}

proof fn lemma_cut_map<W>(m: Map<Seq<u8>, W>, bound: Seq<u8>)
    ensures
        below(m, bound).dom().disjoint(at_or_above(m, bound).dom()),
        below(m, bound).union_prefer_right(at_or_above(m, bound)) == m,
{
    assert(below(m, bound).union_prefer_right(at_or_above(m, bound)) =~= m);
}

/// Splitting a payload of more than two entries at its split key leaves two
/// halves, the entries below the key (which stay) and the entries from it on
/// (which move), that share no key and together hold every entry; the moving
/// half is never empty and holds at most half the entries, rounded up.
pub proof fn lemma_split_halves(d: Data, lo: Seq<u8>, split: Seq<u8>, right: Data)
    requires
        d.wf(lo),
        d.spec_len() > 2,
        split == d.key_at(lo, Data::split_point(d.spec_len())),
        right.model(split) == d.model(lo).at_or_above(split),
        right.spec_len() == d.spec_len() - Data::split_point(d.spec_len()),
    ensures
        d.model(lo).below(split).keys().disjoint(right.model(split).keys()),
        d.model(lo).below(split).union(right.model(split)) == d.model(lo),
        0 < right.spec_len() <= (d.spec_len() + 1) / 2,
{
    match d {
        Data::Index(v) => lemma_cut_map(to_map(decode_index(lo, v@)), split),
        Data::Leaf(v) => lemma_cut_map(to_map(decode_leaf(lo, v@)), split),
    }
}

/// A well-formed payload has as many keys as entries.
pub proof fn lemma_model_len(d: Data, lo: Seq<u8>)
    requires
        d.wf(lo),
    ensures
        d.model(lo).keys().finite(),
        d.model(lo).keys().len() == d.spec_len(),
{
    match d {
        Data::Index(v) => lemma_map_len(decode_index(lo, v@)),
        Data::Leaf(v) => lemma_map_len(decode_leaf(lo, v@)),
    }
}

/// Leaf entries with their keys decoded against `lo`.
pub open spec fn decode_leaf(lo: Seq<u8>, v: Seq<(IVec, IVec)>) -> Seq<(Seq<u8>, Seq<u8>)> {
    Seq::new(v.len(), |i: int| (spec_decode(lo, v[i].0@), v[i].1@))
}

/// Index entries with their keys decoded against `lo`.
pub open spec fn decode_index(lo: Seq<u8>, v: Seq<(IVec, PageId)>) -> Seq<(Seq<u8>, PageId)> {
    Seq::new(v.len(), |i: int| (spec_decode(lo, v[i].0@), v[i].1))
}

/// Every stored key is a well-formed encoding against `lo`.
pub open spec fn keys_ok<W>(lo: Seq<u8>, v: Seq<(IVec, W)>) -> bool {
    forall|i: int| 0 <= i < v.len() ==> key_ok(lo, #[trigger] v[i].0@)
}

/// Footprint of one index entry.
pub open spec fn index_entry_cost(e: (IVec, PageId)) -> int {
    e.0@.len() + IVEC_SIZE + PAGE_ID_SIZE
}

/// Footprint of one leaf entry.
pub open spec fn leaf_entry_cost(e: (IVec, IVec)) -> int {
    e.0@.len() + IVEC_SIZE + e.1@.len() + IVEC_SIZE
}

pub open spec fn index_cost(v: Seq<(IVec, PageId)>) -> int
    decreases v.len(),
{
    if v.len() == 0 {
        0
    } else {
        index_cost(v.drop_last()) + index_entry_cost(v.last())
    }
}

pub open spec fn leaf_cost(v: Seq<(IVec, IVec)>) -> int
    decreases v.len(),
{
    if v.len() == 0 {
        0
    } else {
        leaf_cost(v.drop_last()) + leaf_entry_cost(v.last())
    }
}

/// `x`, capped at the largest `u64`.
pub open spec fn cap(x: int) -> u64 {
    if x > u64::MAX { u64::MAX } else if x < 0 { 0 } else { x as u64 }
}

proof fn lemma_cost_nonneg_index(v: Seq<(IVec, PageId)>)
    ensures
        index_cost(v) >= 0,
    decreases v.len(),
{
    if v.len() > 0 {
        lemma_cost_nonneg_index(v.drop_last());
    }
}

proof fn lemma_cost_nonneg_leaf(v: Seq<(IVec, IVec)>)
    ensures
        leaf_cost(v) >= 0,
    decreases v.len(),
{
    if v.len() > 0 {
        lemma_cost_nonneg_leaf(v.drop_last());
    }
}

/// Where `key` stands among the entries of `v`, whose keys decoded against
/// `lo` are the keys of `s`: the first position whose key does not come
/// before `key`, and whether that key equals it. Found by binary search.
fn find_pos<W, X>(v: &Vec<(IVec, W)>, lo: &[u8], key: &[u8], Ghost(s): Ghost<Seq<(Seq<u8>, X)>>) -> (r: (
    usize,
    bool,
))
    requires
        keys_ok(lo@, v@),
        s.len() == v@.len(),
        forall|i: int| 0 <= i < s.len() ==> #[trigger] s[i].0 == spec_decode(lo@, v@[i].0@),
        sorted_keys(s),
    ensures
        r.0 <= s.len(),
        forall|j: int| 0 <= j < r.0 ==> lex_lt(#[trigger] s[j].0, key@),
        r.1 == (r.0 < s.len() && s[r.0 as int].0 == key@),
        !r.1 ==> forall|j: int| r.0 <= j < s.len() ==> lex_lt(key@, #[trigger] s[j].0),
        forall|j: int| r.0 <= j < s.len() ==> !lex_lt(#[trigger] s[j].0, key@),
{
    let mut low: usize = 0;
    let mut high: usize = v.len();
    while low < high
        invariant
            keys_ok(lo@, v@),
            s.len() == v@.len(),
            forall|i: int| 0 <= i < s.len() ==> #[trigger] s[i].0 == spec_decode(lo@, v@[i].0@),
            sorted_keys(s),
            low <= high <= s.len(),
            forall|j: int| 0 <= j < low ==> lex_lt(#[trigger] s[j].0, key@),
            forall|j: int| high <= j < s.len() ==> !lex_lt(#[trigger] s[j].0, key@),
        decreases high - low,
    {
        let mid = low + (high - low) / 2;
        assert(key_ok(lo@, v@[mid as int].0@));
        let dk = prefix_decode(lo, v[mid].0.as_bytes());
        assert(dk@ == s[mid as int].0);
        if key_less(dk.as_slice(), key) {
            proof {
                assert forall|j: int| 0 <= j <= mid implies lex_lt(#[trigger] s[j].0, key@) by {
                    if j < mid {
                        lemma_lt_transitive(s[j].0, s[mid as int].0, key@);
                    }
                }
            }
            low = mid + 1;
        } else {
            proof {
                assert forall|j: int| mid <= j < s.len() implies !lex_lt(#[trigger] s[j].0, key@) by {
                    if j > mid && lex_lt(s[j].0, key@) {
                        lemma_lt_transitive(s[mid as int].0, s[j].0, key@);
                    }
                }
            }
            high = mid;
        }
    }
    let mut found = false;
    if low < v.len() {
        assert(key_ok(lo@, v@[low as int].0@));
        let dk = prefix_decode(lo, v[low].0.as_bytes());
        found = key_eq(dk.as_slice(), key);
    }
    proof {
        if !found {
            assert forall|j: int| low <= j < s.len() implies lex_lt(key@, #[trigger] s[j].0) by {
                if s[j].0 == key@ {
                    if j > low {
                        assert(lex_lt(s[low as int].0, s[j].0));
                    }
                }
                lemma_lt_total(s[j].0, key@);
            }
        }
    }
    (low, found)
}

/// What a `Data` value holds, with keys as stored.
pub enum DataView {
    Index(Seq<(Seq<u8>, PageId)>),
    Leaf(Seq<(Seq<u8>, Seq<u8>)>),
}

impl DataView {
    /// Number of entries.
    pub open spec fn len(self) -> nat {
        match self {
            DataView::Index(e) => e.len(),
            DataView::Leaf(e) => e.len(),
        }
    }

    /// The first `n` entries, of the same kind.
    pub open spec fn take(self, n: int) -> DataView {
        match self {
            DataView::Index(e) => DataView::Index(e.take(n)),
            DataView::Leaf(e) => DataView::Leaf(e.take(n)),
        }
    }
}

/// `after` is what `drop_gte(bound, prefix)` leaves of `before`: its first
/// entries, stored unchanged and in order, exactly those whose decoded key
/// comes before `bound`.
pub open spec fn dropped_from(after: Data, before: Data, prefix: Seq<u8>, bound: Seq<u8>) -> bool {
    &&& after.spec_len() <= before.spec_len()
    &&& after@ == before@.take(after.spec_len() as int)
    &&& forall|j: int| 0 <= j < after.spec_len() ==> lex_lt(#[trigger] before.key_at(prefix, j), bound)
    &&& forall|j: int|
        after.spec_len() <= j < before.spec_len() ==> !lex_lt(#[trigger] before.key_at(prefix, j), bound)
}

/// Dropping the entries at or above a bound a second time changes nothing.
pub proof fn lemma_drop_gte_idempotent(a: Data, b: Data, c: Data, prefix: Seq<u8>, bound: Seq<u8>)
    requires
        dropped_from(b, a, prefix, bound),
        dropped_from(c, b, prefix, bound),
    ensures
        c@ == b@,
{
    if c.spec_len() < b.spec_len() {
        let j = c.spec_len() as int;
        assert(!lex_lt(b.key_at(prefix, j), bound));
        match (a, b) {
            (Data::Index(x), Data::Index(y)) => {
                assert(b@->Index_0[j] == a@->Index_0[j]);
            },
            (Data::Leaf(x), Data::Leaf(y)) => {
                assert(b@->Leaf_0[j] == a@->Leaf_0[j]);
            },
            (Data::Index(x), Data::Leaf(y)) => {
                assert(b@ is Index);
            },
            (Data::Leaf(x), Data::Index(y)) => {
                assert(b@ is Leaf);
            },
        }
        assert(b.key_at(prefix, j) == a.key_at(prefix, j));
        assert(lex_lt(a.key_at(prefix, j), bound));
    }
    match b {
        Data::Index(y) => assert(c@->Index_0 =~= b@->Index_0),
        Data::Leaf(y) => assert(c@->Leaf_0 =~= b@->Leaf_0),
    }
}

impl View for Data {
    type V = DataView;

    open spec fn view(&self) -> DataView {
        match self {
            Data::Index(v) => DataView::Index(Seq::new(v@.len(), |i: int| (v@[i].0@, v@[i].1))),
            Data::Leaf(v) => DataView::Leaf(Seq::new(v@.len(), |i: int| (v@[i].0@, v@[i].1@))),
        }
    }
}

/// Two payloads that hold the same bytes stand for the same entries.
pub proof fn lemma_same_view(a: &Data, b: &Data, lo: Seq<u8>)
    requires
        a@ == b@,
    ensures
        a.wf(lo) == b.wf(lo),
        a.model(lo) == b.model(lo),
        a.spec_len() == b.spec_len(),
{
    match a {
        Data::Index(x) => {
            assert(b is Index);
            let y = b->Index_0;
            assert(b@->Index_0 == Seq::new(y@.len(), |i: int| (y@[i].0@, y@[i].1)));
            assert(a@->Index_0.len() == b@->Index_0.len());
            assert forall|i: int| 0 <= i < x@.len() implies x@[i].0@ == y@[i].0@ && x@[i].1 == y@[i].1 by {
                assert(a@->Index_0[i] == b@->Index_0[i]);
            }
            assert(decode_index(lo, x@) =~= decode_index(lo, y@));
        },
        Data::Leaf(x) => {
            assert(b is Leaf);
            let y = b->Leaf_0;
            assert(b@->Leaf_0 == Seq::new(y@.len(), |i: int| (y@[i].0@, y@[i].1@)));
            assert(a@->Leaf_0.len() == b@->Leaf_0.len());
            assert forall|i: int| 0 <= i < x@.len() implies x@[i].0@ == y@[i].0@ && x@[i].1@ == y@[i].1@ by {
                assert(a@->Leaf_0[i] == b@->Leaf_0[i]);
            }
            assert(decode_leaf(lo, x@) =~= decode_leaf(lo, y@));
        },
    }
}

impl Data {
    /// The leaf entries keyed by decoded key; empty for an index payload.
    pub open spec fn leaf_map(&self, lo: Seq<u8>) -> Map<Seq<u8>, Seq<u8>> {
        match self {
            Data::Leaf(v) => to_map(decode_leaf(lo, v@)),
            Data::Index(_) => Map::empty(),
        }
    }

    /// The index entries keyed by decoded separator; empty for a leaf payload.
    pub open spec fn index_map(&self, lo: Seq<u8>) -> Map<Seq<u8>, PageId> {
        match self {
            Data::Index(v) => to_map(decode_index(lo, v@)),
            Data::Leaf(_) => Map::empty(),
        }
    }

    /// Keys are well-formed encodings against `lo`, and their decoded forms
    /// strictly increase.
    pub open spec fn wf(&self, lo: Seq<u8>) -> bool {
        match self {
            Data::Index(v) => keys_ok(lo, v@) && sorted_keys(decode_index(lo, v@)),
            Data::Leaf(v) => keys_ok(lo, v@) && sorted_keys(decode_leaf(lo, v@)),
        }
    }

    /// The entries, keyed by decoded key.
    pub open spec fn model(&self, lo: Seq<u8>) -> DataModel {
        match self {
            Data::Index(v) => DataModel::Index(to_map(decode_index(lo, v@))),
            Data::Leaf(v) => DataModel::Leaf(to_map(decode_leaf(lo, v@))),
        }
    }

    pub open spec fn spec_len(&self) -> nat {
        match self {
            Data::Index(v) => v@.len(),
            Data::Leaf(v) => v@.len(),
        }
    }

    /// Memory taken by the payload.
    pub open spec fn spec_size(&self) -> u64 {
        match self {
            Data::Index(v) => cap(DATA_SIZE + VEC_SIZE + index_cost(v@)),
            Data::Leaf(v) => cap(DATA_SIZE + VEC_SIZE + leaf_cost(v@)),
        }
    }

    /// Number of entries.
    pub fn len(&self) -> (r: usize)
        ensures
            r == self.spec_len(),
    {
        match self {
            Data::Index(v) => v.len(),
            Data::Leaf(v) => v.len(),
        }
    }

    /// Whether there is no entry.
    pub fn is_empty(&self) -> (r: bool)
        ensures
            r == (self.spec_len() == 0),
    {
        self.len() == 0
    }

    /// Memory taken by the payload: its own footprint, the vector header, and
    /// each entry's key and value. Saturates instead of overflowing.
    pub fn size_in_bytes(&self) -> (r: u64)
        ensures
            r == self.spec_size(),
    {
        match self {
            Data::Index(v) => {
                let mut sz: u64 = 0;
                let mut i: usize = 0;
                while i < v.len()
                    invariant
                        i <= v@.len(),
                        sz == cap(index_cost(v@.take(i as int))),
                    decreases v@.len() - i,
                {
                    proof {
                        assert(v@.take(i + 1).drop_last() =~= v@.take(i as int));
                        lemma_cost_nonneg_index(v@.take(i as int));
                    }
                    sz = sz.saturating_add(v[i].0.len() as u64).saturating_add(IVEC_SIZE).saturating_add(
                        PAGE_ID_SIZE,
                    );
                    i = i + 1;
                }
                proof {
                    assert(v@.take(v@.len() as int) =~= v@);
                    lemma_cost_nonneg_index(v@);
                }
                DATA_SIZE.saturating_add(sz.saturating_add(VEC_SIZE))
            },
            Data::Leaf(v) => {
                let mut sz: u64 = 0;
                let mut i: usize = 0;
                while i < v.len()
                    invariant
                        i <= v@.len(),
                        sz == cap(leaf_cost(v@.take(i as int))),
                    decreases v@.len() - i,
                {
                    proof {
                        assert(v@.take(i + 1).drop_last() =~= v@.take(i as int));
                        lemma_cost_nonneg_leaf(v@.take(i as int));
                    }
                    sz = sz.saturating_add(v[i].0.len() as u64).saturating_add(IVEC_SIZE).saturating_add(
                        v[i].1.len() as u64,
                    ).saturating_add(IVEC_SIZE);
                    i = i + 1;
                }
                proof {
                    assert(v@.take(v@.len() as int) =~= v@);
                    lemma_cost_nonneg_leaf(v@);
                }
                DATA_SIZE.saturating_add(sz.saturating_add(VEC_SIZE))
            },
        }
    }

    /// An independent copy.
    pub fn duplicate(&self) -> (r: Data)
        ensures
            r@ == self@,
    {
        match self {
            Data::Index(v) => {
                let mut out: Vec<(IVec, PageId)> = Vec::new();
                let mut i: usize = 0;
                while i < v.len()
                    invariant
                        i <= v@.len(),
                        out@.len() == i,
                        forall|j: int| 0 <= j < i ==> (#[trigger] out@[j]).0@ == v@[j].0@ && out@[j].1 == v@[j].1,
                    decreases v@.len() - i,
                {
                    out.push((v[i].0.duplicate(), v[i].1));
                    i = i + 1;
                }
                let r = Data::Index(out);
                assert(r@->Index_0 =~= self@->Index_0);
                r
            },
            Data::Leaf(v) => {
                let mut out: Vec<(IVec, IVec)> = Vec::new();
                let mut i: usize = 0;
                while i < v.len()
                    invariant
                        i <= v@.len(),
                        out@.len() == i,
                        forall|j: int| 0 <= j < i ==> (#[trigger] out@[j]).0@ == v@[j].0@ && out@[j].1@ == v@[j].1@,
                    decreases v@.len() - i,
                {
                    out.push((v[i].0.duplicate(), v[i].1.duplicate()));
                    i = i + 1;
                }
                let r = Data::Leaf(out);
                assert(r@->Leaf_0 =~= self@->Leaf_0);
                r
            },
        }
    }

    /// Sets `key` (encoded against `lo`) to `value` in a leaf payload,
    /// replacing any value it had and keeping the keys sorted.
    pub fn set(&mut self, lo: &[u8], key: IVec, value: IVec)
        requires
            *old(self) is Leaf,
            old(self).wf(lo@),
            key_ok(lo@, key@),
        ensures
            *final(self) is Leaf,
            final(self).wf(lo@),
            final(self).leaf_map(lo@) == old(self).leaf_map(lo@).insert(spec_decode(lo@, key@), value@),
    {
        let mut cur = Data::Leaf(Vec::new());
        core::mem::swap(self, &mut cur);
        match cur {
            Data::Leaf(mut v) => {
                let ghost s: Seq<(Seq<u8>, Seq<u8>)> = decode_leaf(lo@, v@);
                let ghost kv = (key@, value@);
                let dk = prefix_decode(lo, key.as_bytes());
                let (idx, found) = find_pos::<IVec, Seq<u8>>(&v, lo, dk.as_slice(), Ghost(s));
                if found {
                    let _ = v.remove(idx);
                    v.insert(idx, (key, value));
                    proof {
                        lemma_update(s, idx as int, kv.1);
                        assert(decode_leaf(lo@, v@) =~= s.update(idx as int, (s[idx as int].0, kv.1)));
                    }
                } else {
                    v.insert(idx, (key, value));
                    proof {
                        lemma_insert(s, idx as int, dk@, kv.1);
                        assert(decode_leaf(lo@, v@) =~= s.insert(idx as int, (dk@, kv.1)));
                    }
                }
                *self = Data::Leaf(v);
            },
            Data::Index(v) => {
                *self = Data::Index(v);
            },
        }
    }

    /// The value stored under the decoded key `key` in a leaf payload.
    pub fn get(&self, lo: &[u8], key: &[u8]) -> (r: Option<&IVec>)
        requires
            *self is Leaf,
            self.wf(lo@),
        ensures
            r is Some == self.leaf_map(lo@).contains_key(key@),
            r is Some ==> r->Some_0@ == self.leaf_map(lo@)[key@],
    {
        match self {
            Data::Leaf(v) => {
                let ghost s: Seq<(Seq<u8>, Seq<u8>)> = decode_leaf(lo@, v@);
                let (idx, found) = find_pos::<IVec, Seq<u8>>(v, lo, key, Ghost(s));
                if found {
                    proof {
                        lemma_to_map_at(s, idx as int);
                    }
                    Some(&v[idx].1)
                } else {
                    proof {
                        lemma_absent(s, idx as int, key@);
                    }
                    None
                }
            },
            Data::Index(_) => None,
        }
    }

    /// Removes `key` (encoded against `lo`) from a leaf payload; nothing
    /// changes when it is absent.
    pub fn del(&mut self, lo: &[u8], key: &IVec)
        requires
            *old(self) is Leaf,
            old(self).wf(lo@),
            key_ok(lo@, key@),
        ensures
            *final(self) is Leaf,
            final(self).wf(lo@),
            final(self).leaf_map(lo@) == old(self).leaf_map(lo@).remove(spec_decode(lo@, key@)),
    {
        let mut cur = Data::Leaf(Vec::new());
        core::mem::swap(self, &mut cur);
        match cur {
            Data::Leaf(mut v) => {
                let ghost s: Seq<(Seq<u8>, Seq<u8>)> = decode_leaf(lo@, v@);
                let dk = prefix_decode(lo, key.as_bytes());
                let (idx, found) = find_pos::<IVec, Seq<u8>>(&v, lo, dk.as_slice(), Ghost(s));
                if found {
                    let _ = v.remove(idx);
                    proof {
                        lemma_remove(s, idx as int);
                        assert(decode_leaf(lo@, v@) =~= s.remove(idx as int));
                    }
                } else {
                    proof {
                        lemma_absent(s, idx as int, dk@);
                        assert(to_map(s).remove(dk@) =~= to_map(s));
                    }
                }
                *self = Data::Leaf(v);
            },
            Data::Index(v) => {
                *self = Data::Index(v);
            },
        }
    }

    /// Adds the separator `at` (not encoded) routing to `to` in an index
    /// payload, keeping the separators sorted.
    pub fn insert_separator(&mut self, lo: &[u8], at: &[u8], to: PageId)
        requires
            *old(self) is Index,
            old(self).wf(lo@),
            !old(self).index_map(lo@).contains_key(at@),
        ensures
            *final(self) is Index,
            final(self).wf(lo@),
            final(self).index_map(lo@) == old(self).index_map(lo@).insert(at@, to),
    {
        let mut cur = Data::Index(Vec::new());
        core::mem::swap(self, &mut cur);
        match cur {
            Data::Index(mut v) => {
                let ghost s: Seq<(Seq<u8>, PageId)> = decode_index(lo@, v@);
                let enc = prefix_encode(lo, at);
                let (idx, found) = find_pos::<PageId, PageId>(&v, lo, at, Ghost(s));
                if found {
                    proof {
                        lemma_to_map_at(s, idx as int);
                    }
                }
                v.insert(idx, (enc, to));
                proof {
                    lemma_insert(s, idx as int, at@, to);
                    assert(decode_index(lo@, v@) =~= s.insert(idx as int, (at@, to)));
                }
                *self = Data::Index(v);
            },
            Data::Leaf(v) => {
                *self = Data::Leaf(v);
            },
        }
    }

    /// Drops every entry whose decoded key does not come before `bound`.
    pub fn drop_gte(&mut self, bound: &[u8], prefix: &[u8])
        requires
            old(self).wf(prefix@),
        ensures
            final(self).wf(prefix@),
            final(self).model(prefix@) == old(self).model(prefix@).below(bound@),
            dropped_from(*final(self), *old(self), prefix@, bound@),
    {
        let ghost before = *self;
        let mut cur = Data::Leaf(Vec::new());
        core::mem::swap(self, &mut cur);
        match cur {
            Data::Index(mut v) => {
                let ghost s: Seq<(Seq<u8>, PageId)> = decode_index(prefix@, v@);
                let (idx, _found) = find_pos::<PageId, PageId>(&v, prefix, bound, Ghost(s));
                v.truncate(idx);
                proof {
                    lemma_cut(s, idx as int, bound@);
                    assert(decode_index(prefix@, v@) =~= s.take(idx as int));
                }
                *self = Data::Index(v);
                assert(self@->Index_0 =~= before@->Index_0.take(idx as int));
                assert forall|j: int| 0 <= j < before.spec_len() implies #[trigger] before.key_at(prefix@, j) == s[j].0 by {}
            },
            Data::Leaf(mut v) => {
                let ghost s: Seq<(Seq<u8>, Seq<u8>)> = decode_leaf(prefix@, v@);
                let (idx, _found) = find_pos::<IVec, Seq<u8>>(&v, prefix, bound, Ghost(s));
                v.truncate(idx);
                proof {
                    lemma_cut(s, idx as int, bound@);
                    assert(decode_leaf(prefix@, v@) =~= s.take(idx as int));
                }
                *self = Data::Leaf(v);
                assert(self@->Leaf_0 =~= before@->Leaf_0.take(idx as int));
                assert forall|j: int| 0 <= j < before.spec_len() implies #[trigger] before.key_at(prefix@, j) == s[j].0 by {}
            },
        }
    }

    /// Key of entry `i` as stored.
    pub open spec fn stored_key(&self, i: int) -> Seq<u8> {
        match self {
            Data::Index(v) => v@[i].0@,
            Data::Leaf(v) => v@[i].0@,
        }
    }

    /// Decoded key of entry `i`.
    pub open spec fn key_at(&self, lo: Seq<u8>, i: int) -> Seq<u8> {
        match self {
            Data::Index(v) => spec_decode(lo, v@[i].0@),
            Data::Leaf(v) => spec_decode(lo, v@[i].0@),
        }
    }

    /// Position at which a payload of `n` entries is split: the right half
    /// starts there, so it holds the upper half and no more.
    pub open spec fn split_point(n: nat) -> int {
        n as int / 2 + 1
    }

    /// Splits the payload in two: returns the first key of the upper part and
    /// the upper part, its keys encoded against that key. The entries are
    /// already in key order, so no sorting is needed.
    pub fn split(&self, lhs_prefix: &[u8]) -> (r: (IVec, Data))
        requires
            self.wf(lhs_prefix@),
            self.spec_len() > 2,
        ensures
            r.0@ == self.key_at(lhs_prefix@, Data::split_point(self.spec_len())),
            r.1.wf(r.0@),
            r.1.model(r.0@) == self.model(lhs_prefix@).at_or_above(r.0@),
            r.1.spec_len() == self.spec_len() - Data::split_point(self.spec_len()),
            r.1 is Leaf == self is Leaf,
            forall|j: int| 0 <= j < r.1.spec_len() ==> #[trigger] r.1.stored_key(j) == spec_encode(
                r.0@,
                self.key_at(lhs_prefix@, Data::split_point(self.spec_len()) + j),
            ),
            match (self@, r.1@) {
                (DataView::Index(a), DataView::Index(b)) => forall|j: int|
                    0 <= j < b.len() ==> #[trigger] b[j].1 == a[Data::split_point(self.spec_len()) + j].1,
                (DataView::Leaf(a), DataView::Leaf(b)) => forall|j: int|
                    0 <= j < b.len() ==> #[trigger] b[j].1 == a[Data::split_point(self.spec_len()) + j].1,
                _ => false,
            },
    {
        let lo = lhs_prefix;
        match self {
            Data::Index(v) => {
                let ghost s: Seq<(Seq<u8>, PageId)> = decode_index(lo@, v@);
                let n = v.len();
                let m = n / 2 + 1;
                assert(key_ok(lo@, v@[m as int].0@));
                let split = prefix_decode(lo, v[m].0.as_bytes());
                let mut out: Vec<(IVec, PageId)> = Vec::new();
                let mut j: usize = m;
                while j < n
                    invariant
                        s == decode_index(lo@, v@),
                        keys_ok(lo@, v@),
                        n == v@.len(),
                        m <= j <= n,
                        split@ == s[m as int].0,
                        keys_ok(split@, out@),
                        out@.len() == j - m,
                        forall|k: int| 0 <= k < out@.len() ==> spec_decode(split@, (#[trigger] out@[k]).0@) == s[m + k].0 && out@[k].1 == s[m + k].1,
                        forall|k: int| 0 <= k < out@.len() ==> (#[trigger] out@[k]).0@ == spec_encode(split@, s[m + k].0) && out@[k].1 == v@[m + k].1,
                    decreases n - j,
                {
                    assert(key_ok(lo@, v@[j as int].0@));
                    let dk = prefix_decode(lo, v[j].0.as_bytes());
                    let enc = prefix_encode(split.as_slice(), dk.as_slice());
                    out.push((enc, v[j].1));
                    j = j + 1;
                }
                proof {
                    assert(decode_index(split@, out@) =~= s.skip(m as int));
                    lemma_split_point(s, m as int);
                    lemma_cut(s, m as int, split@);
                }
                (IVec::from_vec(split), Data::Index(out))
            },
            Data::Leaf(v) => {
                let ghost s: Seq<(Seq<u8>, Seq<u8>)> = decode_leaf(lo@, v@);
                let n = v.len();
                let m = n / 2 + 1;
                assert(key_ok(lo@, v@[m as int].0@));
                let split = prefix_decode(lo, v[m].0.as_bytes());
                let mut out: Vec<(IVec, IVec)> = Vec::new();
                let mut j: usize = m;
                while j < n
                    invariant
                        s == decode_leaf(lo@, v@),
                        keys_ok(lo@, v@),
                        n == v@.len(),
                        m <= j <= n,
                        split@ == s[m as int].0,
                        keys_ok(split@, out@),
                        out@.len() == j - m,
                        forall|k: int| 0 <= k < out@.len() ==> spec_decode(split@, (#[trigger] out@[k]).0@) == s[m + k].0 && out@[k].1@ == s[m + k].1,
                        forall|k: int| 0 <= k < out@.len() ==> (#[trigger] out@[k]).0@ == spec_encode(split@, s[m + k].0) && out@[k].1@ == v@[m + k].1@,
                    decreases n - j,
                {
                    assert(key_ok(lo@, v@[j as int].0@));
                    let dk = prefix_decode(lo, v[j].0.as_bytes());
                    let enc = prefix_encode(split.as_slice(), dk.as_slice());
                    out.push((enc, v[j].1.duplicate()));
                    j = j + 1;
                }
                proof {
                    assert(decode_leaf(split@, out@) =~= s.skip(m as int));
                    lemma_split_point(s, m as int);
                    lemma_cut(s, m as int, split@);
                }
                (IVec::from_vec(split), Data::Leaf(out))
            },
        }
    }

    /// The leaf entries, or `None` for an index payload.
    pub fn leaf_ref(&self) -> (r: Option<&Vec<(IVec, IVec)>>)
        ensures
            match self {
                Data::Leaf(v) => r == Some(v),
                Data::Index(_) => r is None,
            },
    {
        match self {
            Data::Index(_) => None,
            Data::Leaf(items) => Some(items),
        }
    }
}

} // verus!
