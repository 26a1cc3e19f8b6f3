use vstd::prelude::*;

use crossbeam::epoch::Guard;

use crate::tx::defer_release;

verus! {

/// Longest byte sequence that is stored inline.
pub const CUTOFF: usize = 15;

/// Footprint of an `IVec` value itself, whichever its storage.
pub const IVEC_SIZE: u64 = 24;

/// The two physical forms of a buffer.
#[derive(Debug)]
enum Storage {
    /// At most `CUTOFF` bytes, kept in place: the length, then the bytes.
    Inline(u8, [u8; 15]),
    /// More than `CUTOFF` bytes, on the heap.
    Remote(Vec<u8>),
}

/// An immutable byte sequence. Short sequences are held inline, long ones on
/// the heap; which form is used depends only on the length.
#[derive(Debug)]
pub struct IVec {
    storage: Storage,
}

impl View for IVec {
    type V = Seq<u8>;

    closed spec fn view(&self) -> Seq<u8> {
        match self.storage {
            Storage::Inline(len, bytes) => bytes@.take(len as int),
            Storage::Remote(v) => v@,
        }
    }
}

impl IVec {
    #[verifier::type_invariant]
    closed spec fn storage_fits(&self) -> bool {
        match self.storage {
            Storage::Inline(len, _) => len as usize <= CUTOFF,
            Storage::Remote(v) => v.len() > CUTOFF,
        }
    }

    /// Whether the bytes are held inline.
    pub closed spec fn spec_is_inline(&self) -> bool {
        self.storage is Inline
    }

    /// A buffer holding a copy of `v`; inline exactly when `v` is short.
    pub fn new(v: &[u8]) -> (r: IVec)
        ensures
            r@ == v@,
            r.spec_is_inline() == (v@.len() <= CUTOFF),
    {
        if v.len() <= CUTOFF {
            let mut bytes: [u8; 15] = [0u8; 15];
            let mut i: usize = 0;
            while i < v.len()
                invariant
                    i <= v@.len() <= CUTOFF,
                    bytes@.len() == 15,
                    forall|j: int| 0 <= j < i ==> bytes@[j] == v@[j],
                decreases v@.len() - i,
            {
                bytes[i] = v[i];
                i = i + 1;
            }
            let r = IVec { storage: Storage::Inline(v.len() as u8, bytes) };
            assert(r@ =~= v@);
            r
        } else {
            let mut heap: Vec<u8> = Vec::with_capacity(v.len());
            let mut i: usize = 0;
            while i < v.len()
                invariant
                    i <= v@.len(),
                    heap@ == v@.take(i as int),
                decreases v@.len() - i,
            {
                heap.push(v[i]);
                i = i + 1;
                assert(heap@ =~= v@.take(i as int));
            }
            assert(v@.take(v@.len() as int) =~= v@);
            IVec { storage: Storage::Remote(heap) }
        }
    }

    /// A buffer that takes over the bytes of `v`.
    pub fn from_vec(v: Vec<u8>) -> (r: IVec)
        ensures
            r@ == v@,
            r.spec_is_inline() == (v@.len() <= CUTOFF),
    {
        if v.len() <= CUTOFF {
            IVec::new(v.as_slice())
        } else {
            IVec { storage: Storage::Remote(v) }
        }
    }

    /// Whether the bytes are held inline.
    pub fn is_inline(&self) -> (r: bool)
        ensures
            r == self.spec_is_inline(),
            r == (self@.len() <= CUTOFF),
    {
        proof { use_type_invariant(self); }
        match &self.storage {
            Storage::Inline(_, _) => true,
            Storage::Remote(_) => false,
        }
    }

    /// Number of bytes held.
    pub fn len(&self) -> (r: usize)
        ensures
            r == self@.len(),
    {
        proof { use_type_invariant(self); }
        match &self.storage {
            Storage::Inline(len, _) => *len as usize,
            Storage::Remote(v) => v.len(),
        }
    }

    /// Whether no byte is held.
    pub fn is_empty(&self) -> (r: bool)
        ensures
            r == (self@.len() == 0),
    {
        self.len() == 0
    }

    /// The bytes held, whichever the storage.
    pub fn as_bytes(&self) -> (r: &[u8])
        ensures
            r@ == self@,
    {
        proof { use_type_invariant(self); }
        match &self.storage {
            Storage::Inline(len, bytes) => {
                let all: &[u8] = bytes.as_slice();
                vstd::slice::slice_subrange(all, 0, *len as usize)
            },
            Storage::Remote(v) => v.as_slice(),
        }
    }

    /// The byte at position `i`.
    pub fn byte_at(&self, i: usize) -> (r: u8)
        requires
            i < self@.len(),
        ensures
            r == self@[i as int],
    {
        let b = self.as_bytes();
        b[i]
    }

    /// A copy of the bytes held.
    pub fn to_vec(&self) -> (r: Vec<u8>)
        ensures
            r@ == self@,
    {
        let b = self.as_bytes();
        let mut out: Vec<u8> = Vec::with_capacity(b.len());
        let mut i: usize = 0;
        while i < b.len()
            invariant
                i <= b@.len(),
                out@ == b@.take(i as int),
            decreases b@.len() - i,
        {
            out.push(b[i]);
            i = i + 1;
            assert(out@ =~= b@.take(i as int));
        }
        assert(b@.take(b@.len() as int) =~= b@);
        out
    }

    /// An independent buffer with the same bytes and the same storage.
    pub fn duplicate(&self) -> (r: IVec)
        ensures
            r@ == self@,
            r.spec_is_inline() == self.spec_is_inline(),
    {
        proof { use_type_invariant(self); }
        IVec::new(self.as_bytes())
    }

    /// Gives the heap storage, if any, back to the allocator once no reader
    /// that began under an earlier guard can still see it. Inline storage
    /// needs no release. Returns whether a release was handed to the guard.
    pub fn deallocate(self, guard: &Guard) -> (deferred: bool)
        ensures
            deferred == !self.spec_is_inline(),
    {
        match self.storage {
            Storage::Inline(_, _) => false,
            Storage::Remote(v) => {
                defer_release(guard, v);
                true
            },
        }
    }

    /// Memory taken: the value's own footprint, plus the heap allocation when
    /// the bytes are held remotely. Saturates instead of overflowing.
    pub fn size_in_bytes(&self) -> (r: u64)
        ensures
            r == spec_ivec_size(self@.len()),
    {
        if self.is_inline() {
            IVEC_SIZE
        } else {
            IVEC_SIZE.saturating_add(self.len() as u64)
        }
    }
}

/// Memory taken by a buffer of `len` bytes.
pub open spec fn spec_ivec_size(len: nat) -> u64 {
    if len <= CUTOFF {
        IVEC_SIZE
    } else {
        saturating_add(IVEC_SIZE, len as int)
    }
}

/// `a + b`, capped at the largest `u64`.
pub open spec fn saturating_add(a: u64, b: int) -> u64 {
    if a + b > u64::MAX { u64::MAX } else { (a + b) as u64 }
}

impl PartialEq for IVec {
    fn eq(&self, other: &IVec) -> (r: bool)
        ensures
            r == (self@ == other@),
    {
        let a = self.as_bytes();
        let b = other.as_bytes();
        if a.len() != b.len() {
            return false;
        }
        let mut i: usize = 0;
        while i < a.len()
            invariant
                a@ == self@,
                b@ == other@,
                a@.len() == b@.len(),
                i <= a@.len(),
                forall|j: int| 0 <= j < i ==> a@[j] == b@[j],
            decreases a@.len() - i,
        {
            if a[i] != b[i] {
                assert(a@[i as int] != b@[i as int]);
                return false;
            }
            i = i + 1;
        }
        assert(a@ =~= b@);
        true
    }
}

impl vstd::std_specs::cmp::PartialEqSpecImpl for IVec {
    open spec fn obeys_eq_spec() -> bool {
        true
    }

    open spec fn eq_spec(&self, other: &IVec) -> bool {
        self@ == other@
    }
}

} // verus!
