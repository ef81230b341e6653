//! Keys as byte strings: every key type yields a finite, prefix-free,
//! order-preserving sequence of bytes, which is what the tree walks.
//!
//! Integers are written big-endian (signed ones with the sign bit flipped).
//! Byte strings escape `0x00` as `0x01 0x01` and `0x01` as `0x01 0x02`, and end
//! with the terminator `0x00`, which therefore occurs only at the end.
use vstd::prelude::*;

verus! {

/// A key type whose values can be written as bytes for the tree.
pub trait Digital {
    /// The bytes of the key.
    spec fn digits_spec(&self) -> Seq<u8>;

    /// Computes the bytes of the key.
    fn digits(&self) -> (r: Vec<u8>)
        ensures
            r@ == self.digits_spec(),
    ;

    /// No key's bytes are a strict prefix of another key's bytes.
    proof fn lemma_prefix_free(a: &Self, b: &Self)
        ensures
            a.digits_spec().is_prefix_of(b.digits_spec()) ==> a.digits_spec() == b.digits_spec(),
    ;
}

/// A key that can lend its raw bytes.
pub trait ArtKey {
    spec fn bytes_spec(&self) -> Seq<u8>;

    fn bytes(&self) -> (r: &[u8])
        ensures
            r@ == self.bytes_spec(),
    ;
}

/// The big-endian bytes of a 64-bit word.
pub open spec fn be_u64(k: u64) -> Seq<u8> {
    seq![
        (k >> 56u64) as u8,
        (k >> 48u64) as u8,
        (k >> 40u64) as u8,
        (k >> 32u64) as u8,
        (k >> 24u64) as u8,
        (k >> 16u64) as u8,
        (k >> 8u64) as u8,
        k as u8,
    ]
}

/// The big-endian bytes of a 32-bit word.
pub open spec fn be_u32(k: u32) -> Seq<u8> {
    seq![(k >> 24u32) as u8, (k >> 16u32) as u8, (k >> 8u32) as u8, k as u8]
}

/// The word whose unsigned order is the signed order of `k`.
pub open spec fn flip_sign(k: i64) -> u64 {
    (k as u64) ^ 0x8000_0000_0000_0000u64
}

/// The escape of one byte of a byte string.
pub open spec fn escape_byte(b: u8) -> Seq<u8> {
    if b == 0 {
        seq![1u8, 1u8]
    } else if b == 1 {
        seq![1u8, 2u8]
    } else {
        seq![b]
    }
}

/// The escaped bytes of a byte string, without the terminator.
pub open spec fn escape(s: Seq<u8>) -> Seq<u8>
    decreases s.len(),
{
    if s.len() == 0 {
        Seq::empty()
    } else {
        escape(s.drop_last()) + escape_byte(s.last())
    }
}

/// The key bytes of a byte string: its escape followed by the terminator.
pub open spec fn byte_string_digits(s: Seq<u8>) -> Seq<u8> {
    escape(s).push(0u8)
}

/// An escaped byte string holds no zero byte.
pub proof fn lemma_escape_has_no_zero(s: Seq<u8>)
    ensures
        forall|i: int| 0 <= i < escape(s).len() ==> escape(s)[i] != 0,
    decreases s.len(),
{
    if s.len() > 0 {
        lemma_escape_has_no_zero(s.drop_last());
        let a = escape(s.drop_last());
        let b = escape_byte(s.last());
        assert forall|i: int| 0 <= i < escape(s).len() implies escape(s)[i] != 0 by {
            if i < a.len() {
                assert(escape(s)[i] == a[i]);
            } else {
                assert(escape(s)[i] == b[i - a.len()]);
            }
        }
    }
}

/// Byte string keys are prefix-free: the terminator is their only zero byte.
pub proof fn lemma_byte_string_prefix_free(a: Seq<u8>, b: Seq<u8>)
    ensures
        byte_string_digits(a).is_prefix_of(byte_string_digits(b)) ==> byte_string_digits(a)
            == byte_string_digits(b),
{
    let da = byte_string_digits(a);
    let db = byte_string_digits(b);
    if da.is_prefix_of(db) {
        lemma_escape_has_no_zero(b);
        if da.len() < db.len() {
            let i = da.len() - 1;
            assert(da[i] == 0);
            assert(db[i] == da[i]);
            assert(db[i] == escape(b)[i]);
        }
        assert(da =~= db);
    }
}

impl Digital for u64 {
    open spec fn digits_spec(&self) -> Seq<u8> {
        be_u64(*self)
    }

    fn digits(&self) -> (r: Vec<u8>) {
        let k = *self;
        let r = vec![
            (k >> 56u64) as u8,
            (k >> 48u64) as u8,
            (k >> 40u64) as u8,
            (k >> 32u64) as u8,
            (k >> 24u64) as u8,
            (k >> 16u64) as u8,
            (k >> 8u64) as u8,
            k as u8,
        ];
        assert(r@ =~= be_u64(k));
        r
    }

    proof fn lemma_prefix_free(a: &Self, b: &Self) {
        if a.digits_spec().is_prefix_of(b.digits_spec()) {
            assert(a.digits_spec() =~= b.digits_spec());
        }
    }
}

impl Digital for u8 {
    open spec fn digits_spec(&self) -> Seq<u8> {
        seq![*self]
    }

    fn digits(&self) -> (r: Vec<u8>) {
        let r = vec![*self];
        assert(r@ =~= seq![*self]);
        r
    }

    proof fn lemma_prefix_free(a: &Self, b: &Self) {
        if a.digits_spec().is_prefix_of(b.digits_spec()) {
            assert(a.digits_spec() =~= b.digits_spec());
        }
    }
}

impl Digital for u32 {
    open spec fn digits_spec(&self) -> Seq<u8> {
        be_u32(*self)
    }

    fn digits(&self) -> (r: Vec<u8>) {
        let k = *self;
        let r = vec![(k >> 24u32) as u8, (k >> 16u32) as u8, (k >> 8u32) as u8, k as u8];
        assert(r@ =~= be_u32(k));
        r
    }

    proof fn lemma_prefix_free(a: &Self, b: &Self) {
        if a.digits_spec().is_prefix_of(b.digits_spec()) {
            assert(a.digits_spec() =~= b.digits_spec());
        }
    }
}

impl Digital for i64 {
    open spec fn digits_spec(&self) -> Seq<u8> {
        be_u64(flip_sign(*self))
    }

    fn digits(&self) -> (r: Vec<u8>) {
        let k: u64 = (*self as u64) ^ 0x8000_0000_0000_0000u64;
        k.digits()
    }

    proof fn lemma_prefix_free(a: &Self, b: &Self) {
        if a.digits_spec().is_prefix_of(b.digits_spec()) {
            assert(a.digits_spec() =~= b.digits_spec());
        }
    }
}

impl Digital for Vec<u8> {
    open spec fn digits_spec(&self) -> Seq<u8> {
        byte_string_digits(self@)
    }

    fn digits(&self) -> (r: Vec<u8>) {
        let mut r: Vec<u8> = Vec::new();
        let n = self.len();
        let mut i: usize = 0;
        assert(self@.take(0) =~= Seq::<u8>::empty());
        while i < n
            invariant
                i <= n,
                n == self@.len(),
                r@ == escape(self@.take(i as int)),
            decreases n - i,
        {
            let b = self[i];
            proof {
                assert(self@.take(i + 1).drop_last() =~= self@.take(i as int));
                assert(self@.take(i + 1).last() == b);
            }
            if b == 0 {
                r.push(1);
                r.push(1);
            } else if b == 1 {
                r.push(1);
                r.push(2);
            } else {
                r.push(b);
            }
            assert(r@ =~= escape(self@.take(i + 1)));
            i += 1;
        }
        assert(self@.take(n as int) =~= self@);
        r.push(0);
        r
    }

    proof fn lemma_prefix_free(a: &Self, b: &Self) {
        lemma_byte_string_prefix_free(a@, b@);
    }
}

impl ArtKey for Vec<u8> {
    open spec fn bytes_spec(&self) -> Seq<u8> {
        self@
    }

    fn bytes(&self) -> (r: &[u8]) {
        self.as_slice()
    }
}

} // verus!
