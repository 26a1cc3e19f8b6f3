use vstd::prelude::*;
use vstd::view::View as _;

use crate::data::{lemma_same_view, Data, DataModel, PageId};
use crate::frag::{Frag, Page};
use crate::ivec::{saturating_add, IVec};
use crate::key::{key_ok, prefix_decode, spec_decode};

verus! {

/// Footprint of a `View` value itself.
pub const VIEW_SIZE: u64 = 48;

/// A user-supplied way to combine a key's value with a merge operand: given
/// the key, its value if any, and the operand, it gives the new value, or
/// none to remove the key.
pub trait MergeOperator {
    spec fn spec_merge(&self, key: Seq<u8>, old: Option<Seq<u8>>, operand: Seq<u8>) -> Option<Seq<u8>>;

    fn merge(&self, key: &[u8], old: Option<&[u8]>, operand: &[u8]) -> (r: Option<Vec<u8>>)
        ensures
            r is Some == self.spec_merge(key@, opt_bytes(old), operand@) is Some,
            r is Some ==> self.spec_merge(key@, opt_bytes(old), operand@) == Some(r->Some_0@),
    ;
}

/// The bytes of an optional slice.
pub open spec fn opt_bytes(o: Option<&[u8]>) -> Option<Seq<u8>> {
    match o {
        Some(b) => Some(b@),
        None => None,
    }
}

/// A merge operator that appends the operand to the value held, or takes the
/// operand as the value of a new key.
pub struct Concatenate;

impl MergeOperator for Concatenate {
    open spec fn spec_merge(&self, key: Seq<u8>, old: Option<Seq<u8>>, operand: Seq<u8>) -> Option<Seq<u8>> {
        match old {
            Some(v) => Some(v + operand),
            None => Some(operand),
        }
    }

    fn merge(&self, key: &[u8], old: Option<&[u8]>, operand: &[u8]) -> (r: Option<Vec<u8>>) {
        let mut out: Vec<u8> = Vec::new();
        let ghost start: Seq<u8> = match old {
            Some(b) => b@,
            None => Seq::empty(),
        };
        match old {
            Some(b) => {
                let mut i: usize = 0;
                while i < b.len()
                    invariant
                        i <= b@.len(),
                        out@ == b@.take(i as int),
                    decreases b@.len() - i,
                {
                    out.push(b[i]);
                    i = i + 1;
                    assert(out@ =~= b@.take(i as int));
                }
                assert(b@.take(b@.len() as int) =~= b@);
            },
            None => {
                assert(out@ =~= start);
            },
        }
        let mut j: usize = 0;
        while j < operand.len()
            invariant
                j <= operand@.len(),
                out@ == start + operand@.take(j as int),
            decreases operand@.len() - j,
        {
            out.push(operand[j]);
            j = j + 1;
            assert(out@ =~= start + operand@.take(j as int));
        }
        assert(operand@.take(operand@.len() as int) =~= operand@);
        assert(start + operand@ == match old { Some(b) => b@ + operand@, None => operand@ }) by {
            if old is None {
                assert(start + operand@ =~= operand@);
            }
        }
        Some(out)
    }
}

/// What one delta record does to a page's entries; keys of `Put` and `Del`
/// are encoded against `lo`.
pub open spec fn apply_frag<M: MergeOperator>(m: DataModel, f: Frag, lo: Seq<u8>, op: M) -> DataModel {
    match f {
        Frag::Merge(k, x) => match m {
            DataModel::Leaf(e) => {
                let key = spec_decode(lo, k@);
                let held = if e.contains_key(key) { Some(e[key]) } else { None };
                match op.spec_merge(key, held, x@) {
                    Some(nv) => DataModel::Leaf(e.insert(key, nv)),
                    None => DataModel::Leaf(e.remove(key)),
                }
            },
            _ => m,
        },
        Frag::Put(k, v) => match m {
            DataModel::Leaf(e) => DataModel::Leaf(e.insert(spec_decode(lo, k@), v@)),
            _ => m,
        },
        Frag::Del(k) => match m {
            DataModel::Leaf(e) => DataModel::Leaf(e.remove(spec_decode(lo, k@))),
            _ => m,
        },
        Frag::ChildSplit(cs) => m.below(cs.at@),
        Frag::ParentSplit(ps) => match m {
            DataModel::Index(e) => DataModel::Index(e.insert(ps.at@, ps.to)),
            _ => m,
        },
        _ => m,
    }
}

/// Whether a delta record may be applied to entries `m`: point changes go to
/// leaves only, separators to indexes only and never twice, and a snapshot
/// never stands among the deltas.
pub open spec fn frag_applies(m: DataModel, f: Frag, lo: Seq<u8>) -> bool {
    match f {
        Frag::Put(k, _) => m is Leaf && key_ok(lo, k@),
        Frag::Del(k) => m is Leaf && key_ok(lo, k@),
        Frag::ParentSplit(ps) => m is Index && !m->Index_0.contains_key(ps.at@),
        Frag::Merge(k, _) => m is Leaf && key_ok(lo, k@),
        Frag::Base(_) => false,
        _ => true,
    }
}

/// The snapshot at the end of a chain.
pub open spec fn chain_base(ch: Seq<&Frag>) -> Page {
    ch.last()->Base_0
}

/// The entries after applying the deltas `ch[i..]` but the snapshot, oldest
/// (nearest the snapshot) first.
pub open spec fn fold_from<M: MergeOperator>(ch: Seq<&Frag>, i: int, op: M) -> DataModel
    decreases ch.len() - i,
{
    if i < 0 || i >= ch.len() - 1 {
        chain_base(ch).data.model(chain_base(ch).lo@)
    } else {
        apply_frag(fold_from(ch, i + 1, op), *ch[i], chain_base(ch).lo@, op)
    }
}

/// The current entries of the page that the chain stands for.
pub open spec fn chain_data<M: MergeOperator>(ch: Seq<&Frag>, op: M) -> DataModel {
    fold_from(ch, 0, op)
}

/// A well-formed chain: newest first, it ends in its only snapshot, which is
/// well formed, and each delta applies to the entries before it.
pub open spec fn chain_ok<M: MergeOperator>(ch: Seq<&Frag>, op: M) -> bool {
    &&& ch.len() >= 1
    &&& *ch.last() is Base
    &&& forall|i: int| 0 <= i < ch.len() - 1 ==> !(*#[trigger] ch[i] is Base)
    &&& chain_base(ch).wf()
    &&& forall|i: int| 0 <= i < ch.len() - 1 ==> frag_applies(fold_from(ch, i + 1, op), *#[trigger] ch[i], chain_base(ch).lo@)
}

/// The newest split witness among `ch[i..]` but the snapshot, if any.
pub open spec fn split_witness(ch: Seq<&Frag>, i: int) -> Option<(Seq<u8>, PageId)>
    decreases ch.len() - i,
{
    if i < 0 || i >= ch.len() - 1 {
        None
    } else if *ch[i] is ChildSplit {
        Some((ch[i]->ChildSplit_0.at@, ch[i]->ChildSplit_0.to))
    } else {
        split_witness(ch, i + 1)
    }
}

/// Lower bound of the page.
pub open spec fn chain_lo(ch: Seq<&Frag>) -> Seq<u8> {
    chain_base(ch).lo@
}

/// Upper bound of the page: the newest split witness, else the snapshot's.
pub open spec fn chain_hi(ch: Seq<&Frag>) -> Seq<u8> {
    match split_witness(ch, 0) {
        Some(w) => w.0,
        None => chain_base(ch).hi@,
    }
}

/// Right sibling of the page: the newest split witness, else the snapshot's.
pub open spec fn chain_next(ch: Seq<&Frag>) -> PageId {
    match split_witness(ch, 0) {
        Some(w) => w.1,
        None => chain_base(ch).next,
    }
}

/// Whether a record is a snapshot.
fn is_base(f: &Frag) -> (r: bool)
    ensures
        r == (*f is Base),
{
    match f {
        Frag::Base(_) => true,
        _ => false,
    }
}

/// The current state of a page, read from its delta chain (newest first)
/// without changing it. The snapshot's position and the folded entries are
/// computed once and kept.
pub struct View<'a, M: MergeOperator> {
    frags: &'a [&'a Frag],
    merge_op: &'a M,
    cached_base: Option<usize>,
    cached_data: Option<Data>,
}

impl<'a, M: MergeOperator> View<'a, M> {
    /// The merge operator used on merge operands.
    pub closed spec fn operator(&self) -> M {
        *self.merge_op
    }

    /// The chain read.
    pub closed spec fn chain(&self) -> Seq<&'a Frag> {
        self.frags@
    }

    /// The folded entries, once computed.
    pub closed spec fn materialized(&self) -> Option<Data> {
        self.cached_data
    }

    /// What is kept agrees with the chain.
    pub closed spec fn inv(&self) -> bool {
        &&& self.cached_base is Some ==> chain_ok(self.frags@, *self.merge_op) && self.cached_base->Some_0 == self.frags@.len() - 1
        &&& self.cached_data is Some ==> {
            &&& chain_ok(self.frags@, *self.merge_op)
            &&& self.cached_data->Some_0.wf(chain_lo(self.frags@))
            &&& self.cached_data->Some_0.model(chain_lo(self.frags@)) == chain_data(self.frags@, *self.merge_op)
        }
    }

    /// Memory taken by the view and what it computed.
    pub open spec fn spec_size(&self) -> u64 {
        saturating_add(
            saturating_add(saturating_add(VIEW_SIZE, chain_lo(self.chain()).len() as int), chain_hi(self.chain()).len() as int),
            self.materialized()->Some_0.spec_size() as int,
        )
    }

    /// A view of `frags`, newest record first, folding merge operands with
    /// `merge_op`. Nothing is checked or computed.
    pub fn new(frags: &'a [&'a Frag], merge_op: &'a M) -> (r: View<'a, M>)
        ensures
            r.chain() == frags@,
            r.operator() == *merge_op,
            r.materialized() is None,
            r.inv(),
    {
        View { frags, merge_op, cached_base: None, cached_data: None }
    }

    /// Whether the chain is empty.
    pub fn is_free(&self) -> (r: bool)
        ensures
            r == (self.chain().len() == 0),
    {
        self.frags.len() == 0
    }

    /// Position of the snapshot in the chain.
    fn base_offset(&mut self) -> (r: usize)
        requires
            chain_ok(old(self).chain(), old(self).operator()),
            old(self).inv(),
        ensures
            r == old(self).chain().len() - 1,
            final(self).chain() == old(self).chain(),
            final(self).operator() == old(self).operator(),
            final(self).materialized() == old(self).materialized(),
            final(self).inv(),
    {
        match self.cached_base {
            Some(c) => c,
            None => {
                let frags = self.frags;
                let mut i: usize = 0;
                while i < frags.len() && !is_base(frags[i])
                    invariant
                        chain_ok(frags@, *self.merge_op),
                        i <= frags@.len() - 1,
                    decreases frags@.len() - i,
                {
                    i = i + 1;
                }
                self.cached_base = Some(i);
                i
            },
        }
    }

    /// The snapshot at the end of the chain.
    fn base(&mut self) -> (r: &'a Page)
        requires
            chain_ok(old(self).chain(), old(self).operator()),
            old(self).inv(),
        ensures
            *r == chain_base(old(self).chain()),
            final(self).chain() == old(self).chain(),
            final(self).operator() == old(self).operator(),
            final(self).materialized() == old(self).materialized(),
            final(self).inv(),
    {
        let off = self.base_offset();
        let f: &'a Frag = self.frags[off];
        f.unwrap_base()
    }

    /// Lower bound of the page.
    pub fn lo(&mut self) -> (r: &'a [u8])
        requires
            chain_ok(old(self).chain(), old(self).operator()),
            old(self).inv(),
        ensures
            r@ == chain_lo(old(self).chain()),
            final(self).chain() == old(self).chain(),
            final(self).operator() == old(self).operator(),
            final(self).materialized() == old(self).materialized(),
            final(self).inv(),
    {
        self.base().lo.as_bytes()
    }

    /// Upper bound of the page: the key of the newest split witness, else the
    /// snapshot's.
    #[verifier::loop_isolation(false)]
    pub fn hi(&mut self) -> (r: &'a [u8])
        requires
            chain_ok(old(self).chain(), old(self).operator()),
            old(self).inv(),
        ensures
            r@ == chain_hi(old(self).chain()),
            final(self).chain() == old(self).chain(),
            final(self).operator() == old(self).operator(),
            final(self).materialized() == old(self).materialized(),
            final(self).inv(),
    {
        let off = self.base_offset();
        let frags = self.frags;
        let mut i: usize = 0;
        while i < off
            invariant
                off == frags@.len() - 1,
                i <= off,
                split_witness(frags@, 0) == split_witness(frags@, i as int),
            decreases off - i,
        {
            let f: &'a Frag = frags[i];
            match f {
                Frag::ChildSplit(cs) => {
                    return cs.at.as_bytes();
                },
                _ => {},
            }
            i = i + 1;
        }
        self.base().hi.as_bytes()
    }

    /// Right sibling of the page: the target of the newest split witness,
    /// else the snapshot's.
    #[verifier::loop_isolation(false)]
    pub fn next(&mut self) -> (r: PageId)
        requires
            chain_ok(old(self).chain(), old(self).operator()),
            old(self).inv(),
        ensures
            r == chain_next(old(self).chain()),
            final(self).chain() == old(self).chain(),
            final(self).operator() == old(self).operator(),
            final(self).materialized() == old(self).materialized(),
            final(self).inv(),
    {
        let off = self.base_offset();
        let frags = self.frags;
        let mut i: usize = 0;
        while i < off
            invariant
                off == frags@.len() - 1,
                i <= off,
                split_witness(frags@, 0) == split_witness(frags@, i as int),
            decreases off - i,
        {
            let f: &'a Frag = frags[i];
            match f {
                Frag::ChildSplit(cs) => {
                    return cs.to;
                },
                _ => {},
            }
            i = i + 1;
        }
        self.base().next
    }

    /// The page's current entries: the snapshot's, with every delta applied
    /// in chain order, oldest first. Computed once, then kept.
    pub fn data(&mut self) -> (r: &Data)
        requires
            chain_ok(old(self).chain(), old(self).operator()),
            old(self).inv(),
        ensures
            r.wf(chain_lo(old(self).chain())),
            r.model(chain_lo(old(self).chain())) == chain_data(old(self).chain(), old(self).operator()),
            final(self).materialized() == Some(*r),
            old(self).materialized() is Some ==> final(self).materialized() == old(self).materialized(),
            final(self).chain() == old(self).chain(),
            final(self).operator() == old(self).operator(),
            final(self).inv(),
    {
        if self.cached_data.is_none() {
            let off = self.base_offset();
            let base = self.base();
            let frags = self.frags;
            let merge_op: &'a M = self.merge_op;
            let lo: &'a [u8] = base.lo.as_bytes();
            let mut d = base.data.duplicate();
            proof {
                lemma_same_view(&d, &base.data, lo@);
            }
            let mut i: usize = off;
            while i > 0
                invariant
                    chain_ok(frags@, *merge_op),
                    off == frags@.len() - 1,
                    i <= off,
                    lo@ == chain_lo(frags@),
                    d.wf(lo@),
                    d.model(lo@) == fold_from(frags@, i as int, *merge_op),
                decreases i,
            {
                i = i - 1;
                let f: &'a Frag = frags[i];
                assert(frag_applies(fold_from(frags@, i + 1, *merge_op), *frags@[i as int], lo@));
                match f {
                    Frag::Put(k, v) => d.set(lo, k.duplicate(), v.duplicate()),
                    Frag::Del(k) => d.del(lo, k),
                    Frag::Merge(k, x) => {
                        let dk = prefix_decode(lo, k.as_bytes());
                        let res = match d.get(lo, dk.as_slice()) {
                            Some(held) => merge_op.merge(dk.as_slice(), Some(held.as_bytes()), x.as_bytes()),
                            None => merge_op.merge(dk.as_slice(), None, x.as_bytes()),
                        };
                        match res {
                            Some(nv) => d.set(lo, k.duplicate(), IVec::from_vec(nv)),
                            None => d.del(lo, k),
                        }
                    },
                    Frag::ChildSplit(cs) => d.drop_gte(cs.at.as_bytes(), lo),
                    Frag::ParentSplit(ps) => d.insert_separator(lo, ps.at.as_bytes(), ps.to),
                    _ => {},
                }
            }
            self.cached_data = Some(d);
        }
        match &self.cached_data {
            Some(d) => d,
            None => {
                assert(false);
                unreached()
            },
        }
    }

    /// Memory taken by the view: its own footprint, the two bounds and the
    /// folded entries. Saturates instead of overflowing.
    pub fn size_in_bytes(&mut self) -> (r: u64)
        requires
            chain_ok(old(self).chain(), old(self).operator()),
            old(self).inv(),
        ensures
            final(self).materialized() is Some,
            old(self).materialized() is Some ==> final(self).materialized() == old(self).materialized(),
            r == final(self).spec_size(),
            final(self).chain() == old(self).chain(),
            final(self).operator() == old(self).operator(),
            final(self).inv(),
    {
        let lo_sz = self.lo().len();
        let hi_sz = self.hi().len();
        let data_sz = self.data().size_in_bytes();
        VIEW_SIZE.saturating_add(lo_sz as u64).saturating_add(hi_sz as u64).saturating_add(data_sz)
    }

    /// Whether the page must split: it holds more than two entries and takes
    /// more than `max_sz` bytes.
    pub fn should_split(&mut self, max_sz: u64) -> (r: bool)
        requires
            chain_ok(old(self).chain(), old(self).operator()),
            old(self).inv(),
        ensures
            final(self).materialized() is Some,
            old(self).materialized() is Some ==> final(self).materialized() == old(self).materialized(),
            r == (final(self).materialized()->Some_0.spec_len() > 2 && final(self).spec_size() > max_sz),
            r == (chain_data(old(self).chain(), old(self).operator()).keys().len() > 2 && final(self).spec_size() > max_sz),
            final(self).chain() == old(self).chain(),
            final(self).operator() == old(self).operator(),
            final(self).inv(),
    {
        let n = self.data().len();
        let sz = self.size_in_bytes();
        proof {
            let d = self.materialized()->Some_0;
            crate::data::lemma_model_len(d, chain_lo(self.chain()));
        }
        n > 2 && sz > max_sz
    }

    /// The new right sibling of a page that must split: the upper half of
    /// the entries, from the split key up to the old upper bound, pointing to
    /// the old right sibling.
    #[verifier::rlimit(40)]
    pub fn split(&mut self) -> (r: Page)
        requires
            chain_ok(old(self).chain(), old(self).operator()),
            old(self).inv(),
            chain_data(old(self).chain(), old(self).operator()).keys().len() > 2,
        ensures
            final(self).materialized() is Some,
            ({
                let d = final(self).materialized()->Some_0;
                let ch = old(self).chain();
                &&& r.lo@ == d.key_at(chain_lo(ch), Data::split_point(d.spec_len()))
                &&& r.wf()
                &&& r.data.model(r.lo@) == chain_data(ch, old(self).operator()).at_or_above(r.lo@)
                &&& r.data.spec_len() == d.spec_len() - Data::split_point(d.spec_len())
                &&& r.hi@ == chain_hi(ch)
                &&& r.next == chain_next(ch)
            }),
            final(self).chain() == old(self).chain(),
            final(self).operator() == old(self).operator(),
            old(self).materialized() is Some ==> final(self).materialized() == old(self).materialized(),
            final(self).inv(),
    {
        let _ = self.data();
        proof {
            crate::data::lemma_model_len(self.materialized()->Some_0, chain_lo(self.chain()));
        }
        let lo = self.lo();
        let hi = self.hi();
        let next = self.next();
        let d = self.data();
        let (split, right) = d.split(lo);
        assert(right.model(split@) == d.model(lo@).at_or_above(split@));
        Page { data: right, lo: split, hi: IVec::new(hi), next }
    }
}

/// A point change: a `Put` or a `Del`.
pub open spec fn is_point(f: Frag) -> bool {
    f is Put || f is Del
}

/// The decoded key of a point change.
pub open spec fn point_key(f: Frag, lo: Seq<u8>) -> Seq<u8> {
    match f {
        Frag::Put(k, _) => spec_decode(lo, k@),
        Frag::Del(k) => spec_decode(lo, k@),
        _ => Seq::empty(),
    }
}

proof fn lemma_fold_suffix<M: MergeOperator>(a: Seq<&Frag>, b: Seq<&Frag>, j: int, op: M)
    requires
        a.len() == b.len(),
        a.len() >= 1,
        0 <= j < a.len(),
        forall|k: int| j <= k < a.len() ==> a[k] == b[k],
    ensures
        fold_from(a, j, op) == fold_from(b, j, op),
    decreases a.len() - j,
{
    assert(a[a.len() - 1] == b[a.len() - 1]);
    if j < a.len() - 1 {
        lemma_fold_suffix(a, b, j + 1, op);
    }
}

proof fn lemma_fold_prefix<M: MergeOperator>(a: Seq<&Frag>, b: Seq<&Frag>, i: int, j: int, op: M)
    requires
        a.len() == b.len(),
        a.len() >= 1,
        a.last() == b.last(),
        0 <= j <= i < a.len() - 1,
        fold_from(a, i, op) == fold_from(b, i, op),
        forall|k: int| j <= k < i ==> a[k] == b[k],
    ensures
        fold_from(a, j, op) == fold_from(b, j, op),
    decreases i - j,
{
    if j < i {
        lemma_fold_prefix(a, b, i, j + 1, op);
        assert(a[j] == b[j]);
    }
}

proof fn lemma_points_commute<M: MergeOperator>(m: Map<Seq<u8>, Seq<u8>>, f: Frag, g: Frag, lo: Seq<u8>, op: M)
    requires
        is_point(f),
        is_point(g),
        point_key(f, lo) != point_key(g, lo),
    ensures
        apply_frag(apply_frag(DataModel::Leaf(m), f, lo, op), g, lo, op) == apply_frag(
            apply_frag(DataModel::Leaf(m), g, lo, op),
            f,
            lo,
            op,
        ),
{
    let a = point_key(f, lo);
    let b = point_key(g, lo);
    match (f, g) {
        (Frag::Put(_, v), Frag::Put(_, w)) => {
            assert(m.insert(a, v@).insert(b, w@) =~= m.insert(b, w@).insert(a, v@));
        },
        (Frag::Put(_, v), Frag::Del(_)) => {
            assert(m.insert(a, v@).remove(b) =~= m.remove(b).insert(a, v@));
        },
        (Frag::Del(_), Frag::Put(_, w)) => {
            assert(m.remove(a).insert(b, w@) =~= m.insert(b, w@).remove(a));
        },
        (Frag::Del(_), Frag::Del(_)) => {
            assert(m.remove(a).remove(b) =~= m.remove(b).remove(a));
        },
        _ => {},
    }
}

/// Two neighbouring point changes (`Put` or `Del`) on different keys may
/// trade places in a chain: the page's entries stay the same.
pub proof fn lemma_disjoint_changes_commute<M: MergeOperator>(ch: Seq<&Frag>, i: int, swapped: Seq<&Frag>, op: M)
    requires
        chain_ok(ch, op),
        0 <= i,
        i + 2 < ch.len(),
        is_point(*ch[i]),
        is_point(*ch[i + 1]),
        point_key(*ch[i], chain_lo(ch)) != point_key(*ch[i + 1], chain_lo(ch)),
        swapped == ch.update(i, ch[i + 1]).update(i + 1, ch[i]),
    ensures
        chain_data(swapped, op) == chain_data(ch, op),
{
    let lo = chain_lo(ch);
    lemma_fold_suffix(ch, swapped, i + 2, op);
    let m = fold_from(ch, i + 2, op);
    assert(frag_applies(fold_from(ch, i + 1 + 1, op), *ch[i + 1], lo));
    assert(m is Leaf);
    assert(swapped.last() == ch.last());
    assert(fold_from(ch, i + 1, op) == apply_frag(m, *ch[i + 1], lo, op));
    assert(fold_from(ch, i, op) == apply_frag(fold_from(ch, i + 1, op), *ch[i], lo, op));
    assert(fold_from(swapped, i + 1, op) == apply_frag(m, *ch[i], lo, op));
    assert(fold_from(swapped, i, op) == apply_frag(fold_from(swapped, i + 1, op), *ch[i + 1], lo, op));
    lemma_points_commute(m->Leaf_0, *ch[i + 1], *ch[i], lo, op);
    lemma_fold_prefix(ch, swapped, i, 0, op);
}

/// A `Del` newer than a `Put` of the same key leaves the key absent.
pub proof fn lemma_newer_delete_wins<M: MergeOperator>(ch: Seq<&Frag>, i: int, op: M)
    requires
        chain_ok(ch, op),
        0 <= i,
        i + 2 < ch.len(),
        *ch[i] is Del,
        *ch[i + 1] is Put,
        point_key(*ch[i], chain_lo(ch)) == point_key(*ch[i + 1], chain_lo(ch)),
    ensures
        fold_from(ch, i, op) is Leaf,
        !fold_from(ch, i, op)->Leaf_0.contains_key(point_key(*ch[i], chain_lo(ch))),
        i == 0 ==> !chain_data(ch, op)->Leaf_0.contains_key(point_key(*ch[i], chain_lo(ch))),
{
    let lo = chain_lo(ch);
    assert(frag_applies(fold_from(ch, i + 1, op), *ch[i], lo));
    assert(fold_from(ch, i, op) == apply_frag(fold_from(ch, i + 1, op), *ch[i], lo, op));
}

} // verus!
