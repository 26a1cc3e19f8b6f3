use vstd::prelude::*;

use crate::ivec::IVec;

verus! {

/// Strict lexicographic order on byte strings: a proper prefix comes first.
pub open spec fn lex_lt(a: Seq<u8>, b: Seq<u8>) -> bool
    decreases a.len(),
{
    if a.len() == 0 {
        b.len() > 0
    } else if b.len() == 0 {
        false
    } else if a[0] != b[0] {
        a[0] < b[0]
    } else {
        lex_lt(a.drop_first(), b.drop_first())
    }
}

/// Length of the longest common prefix of `a` and `b`.
pub open spec fn shared_len(a: Seq<u8>, b: Seq<u8>) -> nat
    decreases a.len(),
{
    if a.len() == 0 || b.len() == 0 || a[0] != b[0] {
        0
    } else {
        1 + shared_len(a.drop_first(), b.drop_first())
    }
}

/// Largest shared prefix that an encoded key can record.
pub const MAX_SHARED: usize = 255;

/// How many leading bytes of `key` an encoding against `prefix` leaves out.
pub open spec fn encoded_shared(prefix: Seq<u8>, key: Seq<u8>) -> nat {
    if shared_len(prefix, key) <= MAX_SHARED {
        shared_len(prefix, key)
    } else {
        MAX_SHARED as nat
    }
}

/// A key encoded against `prefix`: one byte giving the number of leading
/// bytes shared with `prefix`, then the rest of the key.
pub open spec fn spec_encode(prefix: Seq<u8>, key: Seq<u8>) -> Seq<u8> {
    seq![encoded_shared(prefix, key) as u8] + key.skip(encoded_shared(prefix, key) as int)
}

/// Whether `enc` is a well-formed encoding against `prefix`.
pub open spec fn key_ok(prefix: Seq<u8>, enc: Seq<u8>) -> bool {
    enc.len() >= 1 && enc[0] as int <= prefix.len()
}

/// The key that `enc` stands for, given the prefix it was encoded against.
pub open spec fn spec_decode(prefix: Seq<u8>, enc: Seq<u8>) -> Seq<u8> {
    prefix.take(enc[0] as int) + enc.skip(1)
}

pub proof fn lemma_lt_irreflexive(a: Seq<u8>)
    ensures
        !lex_lt(a, a),
    decreases a.len(),
{
    if a.len() > 0 {
        lemma_lt_irreflexive(a.drop_first());
    }
}

pub proof fn lemma_lt_transitive(a: Seq<u8>, b: Seq<u8>, c: Seq<u8>)
    requires
        lex_lt(a, b),
        lex_lt(b, c),
    ensures
        lex_lt(a, c),
    decreases a.len(),
{
    if a.len() > 0 && b.len() > 0 && c.len() > 0 && a[0] == b[0] && b[0] == c[0] {
        lemma_lt_transitive(a.drop_first(), b.drop_first(), c.drop_first());
    }
}

pub proof fn lemma_lt_total(a: Seq<u8>, b: Seq<u8>)
    requires
        a != b,
    ensures
        lex_lt(a, b) || lex_lt(b, a),
    decreases a.len(),
{
    if a.len() == 0 && b.len() == 0 {
        assert(a =~= b);
    }
    if a.len() > 0 && b.len() > 0 && a[0] == b[0] {
        if a.drop_first() == b.drop_first() {
            assert(a =~= seq![a[0]] + a.drop_first());
            assert(b =~= seq![b[0]] + b.drop_first());
        }
        lemma_lt_total(a.drop_first(), b.drop_first());
    }
}

pub proof fn lemma_lt_asymmetric(a: Seq<u8>, b: Seq<u8>)
    requires
        lex_lt(a, b),
    ensures
        !lex_lt(b, a),
{
    if lex_lt(b, a) {
        lemma_lt_transitive(a, b, a);
        lemma_lt_irreflexive(a);
    }
}

proof fn lemma_shared_prefix(a: Seq<u8>, b: Seq<u8>)
    ensures
        shared_len(a, b) <= a.len(),
        shared_len(a, b) <= b.len(),
        a.take(shared_len(a, b) as int) == b.take(shared_len(a, b) as int),
    decreases a.len(),
{
    if !(a.len() == 0 || b.len() == 0 || a[0] != b[0]) {
        lemma_shared_prefix(a.drop_first(), b.drop_first());
        let n = shared_len(a, b) as int;
        assert(a.take(n) =~= seq![a[0]] + a.drop_first().take(n - 1));
        assert(b.take(n) =~= seq![b[0]] + b.drop_first().take(n - 1));
    } else {
        assert(a.take(0) =~= b.take(0));
    }
}

/// Decoding an encoded key gives the key back.
pub proof fn lemma_decode_encode(prefix: Seq<u8>, key: Seq<u8>)
    ensures
        key_ok(prefix, spec_encode(prefix, key)),
        spec_decode(prefix, spec_encode(prefix, key)) == key,
{
    lemma_shared_prefix(prefix, key);
    let n = encoded_shared(prefix, key) as int;
    let enc = spec_encode(prefix, key);
    assert(enc[0] as int == n);
    assert(prefix.take(n) =~= key.take(n));
    assert(enc.skip(1) =~= key.skip(n));
    assert(key =~= key.take(n) + key.skip(n));
}

/// Whether `a` comes strictly before `b`.
pub fn key_less(a: &[u8], b: &[u8]) -> (r: bool)
    ensures
        r == lex_lt(a@, b@),
{
    let mut i: usize = 0;
    assert(a@.skip(0) =~= a@);
    assert(b@.skip(0) =~= b@);
    while i < a.len() && i < b.len()
        invariant
            i <= a@.len(),
            i <= b@.len(),
            lex_lt(a@, b@) == lex_lt(a@.skip(i as int), b@.skip(i as int)),
        decreases a@.len() - i,
    {
        if a[i] != b[i] {
            return a[i] < b[i];
        }
        assert(a@.skip(i as int).drop_first() =~= a@.skip(i + 1));
        assert(b@.skip(i as int).drop_first() =~= b@.skip(i + 1));
        i = i + 1;
    }
    i < b.len()
}

/// Whether `a` and `b` hold the same bytes.
pub fn key_eq(a: &[u8], b: &[u8]) -> (r: bool)
    ensures
        r == (a@ == b@),
{
    if a.len() != b.len() {
        return false;
    }
    let mut i: usize = 0;
    while i < a.len()
        invariant
            a@.len() == b@.len(),
            i <= a@.len(),
            forall|j: int| 0 <= j < i ==> a@[j] == b@[j],
        decreases a@.len() - i,
    {
        if a[i] != b[i] {
            assert(a@[i as int] != b@[i as int]);
            return false;
        }
        i = i + 1;
    }
    assert(a@ =~= b@);
    true
}

/// Encodes `key` against `prefix`, dropping the leading bytes they share.
pub fn prefix_encode(prefix: &[u8], key: &[u8]) -> (r: IVec)
    ensures
        r@ == spec_encode(prefix@, key@),
        key_ok(prefix@, r@),
        spec_decode(prefix@, r@) == key@,
{
    let mut n: usize = 0;
    assert(prefix@.skip(0) =~= prefix@);
    assert(key@.skip(0) =~= key@);
    while n < MAX_SHARED && n < prefix.len() && n < key.len() && prefix[n] == key[n]
        invariant
            n <= MAX_SHARED,
            n <= prefix@.len(),
            n <= key@.len(),
            shared_len(prefix@, key@) == n + shared_len(prefix@.skip(n as int), key@.skip(n as int)),
        decreases MAX_SHARED - n,
    {
        assert(prefix@.skip(n as int).drop_first() =~= prefix@.skip(n + 1));
        assert(key@.skip(n as int).drop_first() =~= key@.skip(n + 1));
        n = n + 1;
    }
    proof {
        if n < MAX_SHARED {
            assert(shared_len(prefix@.skip(n as int), key@.skip(n as int)) == 0);
        }
        assert(encoded_shared(prefix@, key@) == n);
        lemma_decode_encode(prefix@, key@);
    }
    let mut out: Vec<u8> = Vec::new();
    out.push(n as u8);
    let mut i: usize = n;
    while i < key.len()
        invariant
            n <= MAX_SHARED,
            n <= i <= key@.len(),
            out@ == seq![n as u8] + key@.subrange(n as int, i as int),
        decreases key@.len() - i,
    {
        out.push(key[i]);
        i = i + 1;
        assert(out@ =~= seq![n as u8] + key@.subrange(n as int, i as int));
    }
    assert(key@.subrange(n as int, key@.len() as int) =~= key@.skip(n as int));
    IVec::from_vec(out)
}

/// The key that `enc` stands for, given the prefix it was encoded against.
pub fn prefix_decode(prefix: &[u8], enc: &[u8]) -> (r: Vec<u8>)
    requires
        key_ok(prefix@, enc@),
    ensures
        r@ == spec_decode(prefix@, enc@),
{
    let n = enc[0] as usize;
    let mut out: Vec<u8> = Vec::new();
    let mut i: usize = 0;
    while i < n
        invariant
            n == enc@[0] as int,
            n <= prefix@.len(),
            i <= n,
            out@ == prefix@.take(i as int),
        decreases n - i,
    {
        out.push(prefix[i]);
        i = i + 1;
        assert(out@ =~= prefix@.take(i as int));
    }
    let mut j: usize = 1;
    while j < enc.len()
        invariant
            1 <= j <= enc@.len(),
            out@ == prefix@.take(n as int) + enc@.subrange(1, j as int),
        decreases enc@.len() - j,
    {
        out.push(enc[j]);
        j = j + 1;
        assert(out@ =~= prefix@.take(n as int) + enc@.subrange(1, j as int));
    }
    assert(enc@.subrange(1, enc@.len() as int) =~= enc@.skip(1));
    out
}

} // verus!
