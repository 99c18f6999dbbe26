//! The bit-packed set of relaxed-parsing flags, constructed from flag
//! names and round-tripped through the document format's own integer
//! representation.

use vstd::prelude::*;
use vstd::string::StringSliceAdditionalSpecFns;
use vstd::utf8::encode_utf8_decode_utf8;

use crate::chars::{dec_digits, digits_val, lemma_dec_digits_are_digits,
    lemma_digits_val_dec_digits, lemma_prefix_len_is, prefix_len};
use crate::parse::{digit_pred, Bytes};

verus! {

/// An unordered set over the three named flags, packed into the low
/// three bits of an integer.  The default is empty; a set is typically
/// built once per document and then only consulted.
#[derive(Clone, Copy, Debug, PartialEq, Eq, PartialOrd, Ord, Hash, Structural)]
pub struct Extensions {
    /// The packed flags: bit 0 unwrap_newtypes, bit 1 implicit_some,
    /// bit 2 unwrap_variant_newtypes.
    pub bits: u64,
}

impl Extensions {
    /// Only the three flag bits may be set.
    pub open spec fn wf(self) -> bool {
        self.bits <= 7
    }

    /// The empty flag set.
    pub fn empty() -> (e: Extensions)
        ensures
            e.bits == 0,
            e.wf(),
    {
        Extensions { bits: 0 }
    }

    /// The flag that unwraps newtype structs.
    pub fn unwrap_newtypes() -> (e: Extensions)
        ensures
            e.bits == 1,
            e.wf(),
    {
        Extensions { bits: 1 }
    }

    /// The flag that makes absent `Some` wrappers implicit.
    pub fn implicit_some() -> (e: Extensions)
        ensures
            e.bits == 2,
            e.wf(),
    {
        Extensions { bits: 2 }
    }

    /// The flag that unwraps newtype enum variants.
    pub fn unwrap_variant_newtypes() -> (e: Extensions)
        ensures
            e.bits == 4,
            e.wf(),
    {
        Extensions { bits: 4 }
    }

    /// The packed bits.
    pub fn bits(&self) -> (r: u64)
        ensures
            r == self.bits,
    {
        self.bits
    }

    /// The union of two flag sets.
    pub fn union(self, other: Extensions) -> (r: Extensions)
        ensures
            r.bits == self.bits | other.bits,
            self.wf() && other.wf() ==> r.wf(),
    {
        proof {
            let a = self.bits;
            let b = other.bits;
            assert(a <= 7 && b <= 7 ==> (a | b) <= 7) by (bit_vector);
        }
        Extensions { bits: self.bits | other.bits }
    }

    /// The intersection of two flag sets.
    pub fn intersection(self, other: Extensions) -> (r: Extensions)
        ensures
            r.bits == self.bits & other.bits,
            self.wf() && other.wf() ==> r.wf(),
    {
        proof {
            let a = self.bits;
            let b = other.bits;
            assert(a <= 7 && b <= 7 ==> (a & b) <= 7) by (bit_vector);
        }
        Extensions { bits: self.bits & other.bits }
    }

    /// Membership test: whether every flag of `other` is present.
    pub fn contains(self, other: Extensions) -> (r: bool)
        ensures
            r == (self.bits & other.bits == other.bits),
    {
        self.bits & other.bits == other.bits
    }

    /// Reconstructs a flag set from its packed bits; any bit outside the
    /// three flags is rejected.
    pub fn from_bits(bits: u64) -> (r: Option<Extensions>)
        ensures
            match r {
                Some(e) => bits <= 7 && e.bits == bits && e.wf(),
                None => bits > 7,
            },
    {
        if bits <= 7 {
            Some(Extensions { bits })
        } else {
            None
        }
    }

    /// Creates the flag set for exactly one of the three canonical
    /// lowercase names; any other ident has no flag.
    #[verifier::rlimit(30)]
    pub fn from_ident(ident: &str) -> (r: Option<Extensions>)
        ensures
            r == spec_from_ident(ident@),
    {
        if str_eq(ident, "unwrap_newtypes") {
            Some(Extensions { bits: 1 })
        } else if str_eq(ident, "implicit_some") {
            Some(Extensions { bits: 2 })
        } else if str_eq(ident, "unwrap_variant_newtypes") {
            Some(Extensions { bits: 4 })
        } else {
            None
        }
    }

    /// Writes the flag set in the document format's integer
    /// representation: the decimal digits of the packed bits.
    pub fn serialize(&self) -> (v: Vec<u8>)
        requires
            self.wf(),
        ensures
            v@ == dec_digits(self.bits as nat),
    {
        let mut v: Vec<u8> = Vec::new();
        v.push(48 + (self.bits as u8));
        proof {
            assert(v@ =~= dec_digits(self.bits as nat));
        }
        v
    }

    /// Reads a flag set back from the document format's integer
    /// representation: scans a decimal integer and rejects unknown bits.
    pub fn deserialize(b: &mut Bytes) -> (r: Option<Extensions>)
        requires
            old(b).wf(),
        ensures
            final(b).wf(),
            final(b).input() == old(b).input(),
            ({
                let s = old(b).remaining();
                let k = prefix_len(s, digit_pred()) as int;
                match r {
                    Some(e) => {
                        &&& k >= 1
                        &&& digits_val(s.take(k)) <= 7
                        &&& e.bits == digits_val(s.take(k))
                        &&& e.wf()
                        &&& final(b).remaining() == s.skip(k)
                    },
                    None => k == 0 || digits_val(s.take(k)) > 7,
                }
            }),
    {
        match b.unsigned_integer() {
            Ok(v) => {
                if v <= 7 {
                    Some(Extensions { bits: v })
                } else {
                    None
                }
            },
            Err(_) => None,
        }
    }
}

/// The flag a canonical name denotes, if any.
pub open spec fn spec_from_ident(name: Seq<char>) -> Option<Extensions> {
    if name == "unwrap_newtypes"@ {
        Some(Extensions { bits: 1 })
    } else if name == "implicit_some"@ {
        Some(Extensions { bits: 2 })
    } else if name == "unwrap_variant_newtypes"@ {
        Some(Extensions { bits: 4 })
    } else {
        None
    }
}

impl Default for Extensions {
    /// The default flag set is empty.
    fn default() -> (e: Extensions)
        ensures
            e.bits == 0,
            e.wf(),
    {
        Extensions { bits: 0 }
    }
}

/// Law: round trip.  Serializing a flag set yields a non-empty pure
/// digit run whose scanned value is the set's own bits, so scanning it
/// back (as `deserialize` does) accepts it and rebuilds the identical
/// set.
pub proof fn lemma_extensions_round_trip(e: Extensions)
    requires
        e.wf(),
    ensures
        dec_digits(e.bits as nat).len() >= 1,
        prefix_len(dec_digits(e.bits as nat), digit_pred()) == dec_digits(e.bits as nat).len(),
        digits_val(dec_digits(e.bits as nat)) == e.bits,
{
    let v = dec_digits(e.bits as nat);
    lemma_dec_digits_are_digits(e.bits as nat);
    lemma_digits_val_dec_digits(e.bits as nat);
    lemma_prefix_len_is(v, digit_pred(), v.len() as int);
}

/// Whether two strings hold the same characters.
fn str_eq(a: &str, b: &str) -> (r: bool)
    ensures
        r == (a@ == b@),
{
    let ab = a.as_bytes();
    let bb = b.as_bytes();
    if ab.len() != bb.len() {
        proof {
            assert(a@ != b@);
        }
        return false;
    }
    let mut i: usize = 0;
    while i < ab.len()
        invariant
            ab@ == a.spec_bytes(),
            bb@ == b.spec_bytes(),
            ab@.len() == bb@.len(),
            i <= ab@.len(),
            forall|j: int| 0 <= j < i ==> ab@[j] == bb@[j],
        decreases ab@.len() - i,
    {
        if ab[i] != bb[i] {
            proof {
                assert(a.spec_bytes()[i as int] != b.spec_bytes()[i as int]);
                assert(a@ != b@);
            }
            return false;
        }
        i = i + 1;
    }
    proof {
        assert(a.spec_bytes() =~= b.spec_bytes());
        encode_utf8_decode_utf8(a@);
        encode_utf8_decode_utf8(b@);
    }
    true
}

} // verus!
