use vstd::prelude::*;
use vstd::view::View as _;

use crate::data::Data;
use crate::frag::{Frag, Page, FRAG_SIZE};
use crate::ivec::{saturating_add, IVec};
use crate::view::{chain_data, chain_hi, chain_lo, chain_next, chain_ok, MergeOperator, View};

verus! {

/// What log replay learned so far: the highest counter issued.
#[derive(Debug, Clone, Copy, PartialEq, Eq, Structural)]
pub struct Recovery {
    pub counter: usize,
}

/// A chain of counter records only.
pub open spec fn counter_chain(ch: Seq<&Frag>) -> bool {
    ch.len() >= 1 && forall|i: int| 0 <= i < ch.len() ==> *#[trigger] ch[i] is Counter
}

/// The highest counter among the counter records of `ch`.
pub open spec fn max_counter(ch: Seq<&Frag>) -> usize
    decreases ch.len(),
{
    if ch.len() == 0 {
        0
    } else {
        let rest = max_counter(ch.drop_last());
        let c = ch.last()->Counter_0;
        if c > rest { c } else { rest }
    }
}

/// A chain that compaction accepts: one that ends in a page snapshot, or one
/// of counters only.
pub open spec fn mergeable<M: MergeOperator>(ch: Seq<&Frag>, op: M) -> bool {
    chain_ok(ch, op) || counter_chain(ch)
}

/// Policy by which the page cache compacts chains, tracks recovery state and
/// estimates memory use.
pub struct BLinkMaterializer<M: MergeOperator> {
    recovery: Recovery,
    merge_operator: M,
}

impl<M: MergeOperator> BLinkMaterializer<M> {
    /// The merge operator used on merge operands.
    pub closed spec fn operator(&self) -> M {
        self.merge_operator
    }

    /// The recovery state held.
    pub closed spec fn recovery_state(&self) -> Recovery {
        self.recovery
    }

    /// A materializer that starts from `recovery`, or from a zero counter,
    /// and folds merge operands with `merge_operator`.
    pub fn new(recovery: &Option<Recovery>, merge_operator: M) -> (r: Self)
        ensures
            r.operator() == merge_operator,
            r.recovery_state() == match *recovery {
                Some(x) => x,
                None => Recovery { counter: 0 },
            },
    {
        let start = match recovery {
            Some(x) => *x,
            None => Recovery { counter: 0 },
        };
        BLinkMaterializer { recovery: start, merge_operator }
    }

    /// Compacts a chain (newest first) into one record: a snapshot with
    /// every delta applied, or the highest counter of a counter chain.
    pub fn merge(&self, frags: &[&Frag]) -> (r: Frag)
        requires
            mergeable(frags@, self.operator()),
        ensures
            chain_ok(frags@, self.operator()) ==> {
                &&& r is Base
                &&& r->Base_0.wf()
                &&& r->Base_0.lo@ == chain_lo(frags@)
                &&& r->Base_0.data.model(chain_lo(frags@)) == chain_data(frags@, self.operator())
                &&& r->Base_0.hi@ == chain_hi(frags@)
                &&& r->Base_0.next == chain_next(frags@)
            },
            counter_chain(frags@) ==> r == Frag::Counter(max_counter(frags@)),
    {
        if frags.len() >= 1 && frags[frags.len() - 1].is_counter() {
            proof {
                assert(!chain_ok(frags@, self.operator()));
            }
            let mut max: usize = 0;
            let mut i: usize = 0;
            while i < frags.len()
                invariant
                    counter_chain(frags@),
                    i <= frags@.len(),
                    max == max_counter(frags@.take(i as int)),
                decreases frags@.len() - i,
            {
                assert(frags@.take(i + 1).drop_last() =~= frags@.take(i as int));
                let f: &Frag = frags[i];
                assert(*f is Counter);
                let c = f.counter_value();
                if c > max {
                    max = c;
                }
                i = i + 1;
            }
            assert(frags@.take(frags@.len() as int) =~= frags@);
            Frag::Counter(max)
        } else {
            proof {
                if counter_chain(frags@) {
                    assert(*frags@[frags@.len() - 1] is Counter);
                }
            }
            let mut view = View::new(frags, &self.merge_operator);
            let lo = IVec::new(view.lo());
            let hi = IVec::new(view.hi());
            let next = view.next();
            let data: Data = view.data().duplicate();
            proof {
                let d = view.materialized()->Some_0;
                crate::data::lemma_same_view(&data, &d, lo@);
            }
            Frag::Base(Page { data, lo, hi, next })
        }
    }

    /// Replays one record: a counter raises the recovered counter to at
    /// least its value, and the state reached is returned; any other record
    /// gives nothing.
    pub fn recover(&mut self, frag: &Frag) -> (r: Option<Recovery>)
        ensures
            match *frag {
                Frag::Counter(c) => {
                    &&& final(self).operator() == old(self).operator()
                    &&& final(self).recovery_state().counter == if c > old(self).recovery_state().counter {
                        c
                    } else {
                        old(self).recovery_state().counter
                    }
                    &&& r == Some(final(self).recovery_state())
                },
                _ => r is None && final(self).recovery_state() == old(self).recovery_state() && final(self).operator()
                    == old(self).operator(),
            },
    {
        match frag {
            Frag::Counter(c) => {
                if *c > self.recovery.counter {
                    self.recovery.counter = *c;
                }
                Some(self.recovery)
            },
            _ => None,
        }
    }

    /// Estimated memory taken by a record: a fixed amount, plus the page for
    /// a snapshot. Saturates instead of overflowing.
    pub fn size_in_bytes(&self, frag: &Frag) -> (r: usize)
        ensures
            r == if frag.spec_size() > usize::MAX {
                usize::MAX
            } else {
                frag.spec_size() as usize
            },
    {
        let sz: u64 = match frag {
            Frag::Base(node) => FRAG_SIZE.saturating_add(node.size_in_bytes()),
            _ => FRAG_SIZE,
        };
        if sz > usize::MAX as u64 {
            usize::MAX
        } else {
            sz as usize
        }
    }
}

} // verus!
