//! 128-bit identifiers for tasks, blocks, keys and datasets.
use vstd::prelude::*;
use crate::codec::{decode_u64_le, encode_u64_le, le_bytes, lemma_le_bytes_len, lemma_le_value_bytes};

verus! {

/// Relies on uuid::Uuid::new_v4 and Uuid::as_bytes: sixteen random bytes,
/// with the version nibble of byte 6 set to 4 and the two top bits of
/// byte 8 set to `10`.
#[verifier::external_body]
fn random_v4_bytes() -> (r: Vec<u8>)
    ensures
        r@.len() == 16,
        r@[6] / 16 == 4,
        r@[8] / 64 == 2,
{
    ::uuid::Uuid::new_v4().as_bytes().to_vec()
}

/// A 128-bit identifier, stored as two 64-bit halves. Its byte form is the
/// little-endian bytes of `higher` followed by those of `lower`.
#[derive(Clone, Copy, PartialEq, Eq, Structural, Hash, Debug)]
pub struct UUID {
    pub higher: u64,
    pub lower: u64,
}

/// The ASCII code of the uppercase hexadecimal digit `d` (below 16).
pub open spec fn hex_digit(d: nat) -> u8 {
    if d < 10 {
        (48 + d) as u8
    } else {
        (55 + d) as u8
    }
}

/// Two uppercase hexadecimal digits per byte, high nibble first.
pub open spec fn hex_of(b: Seq<u8>) -> Seq<u8>
    decreases b.len(),
{
    if b.len() == 0 {
        Seq::empty()
    } else {
        hex_of(b.drop_last()) + seq![hex_digit(b.last() as nat / 16), hex_digit(b.last() as nat % 16)]
    }
}

pub proof fn lemma_hex_len(b: Seq<u8>)
    ensures
        hex_of(b).len() == 2 * b.len(),
    decreases b.len(),
{
    if b.len() > 0 {
        lemma_hex_len(b.drop_last());
    }
}

impl UUID {
    /// The sixteen bytes of the identifier.
    pub open spec fn spec_bytes(self) -> Seq<u8> {
        le_bytes(self.higher as nat, 8) + le_bytes(self.lower as nat, 8)
    }

    /// The identifier as one number, `higher` in the upper half.
    pub open spec fn spec_key(self) -> u128 {
        (self.higher as nat * 0x1_0000_0000_0000_0000 + self.lower as nat) as u128
    }

    pub fn new(higher: u64, lower: u64) -> (r: UUID)
        ensures
            r.higher == higher,
            r.lower == lower,
    {
        UUID { higher, lower }
    }

    /// The all-zero identifier.
    pub fn unit() -> (r: UUID)
        ensures
            r.higher == 0,
            r.lower == 0,
            r.spec_bytes() == Seq::new(16, |i: int| 0u8),
    {
        let r = UUID { higher: 0, lower: 0 };
        proof {
            reveal_with_fuel(le_bytes, 9);
            assert(r.spec_bytes() =~= Seq::new(16, |i: int| 0u8));
        }
        r
    }

    /// The identifier whose byte form is `b`.
    pub fn from_bytes(b: &Vec<u8>) -> (r: UUID)
        requires
            b@.len() == 16,
        ensures
            r.spec_bytes() == b@,
    {
        let higher = decode_u64_le(b, 0);
        let lower = decode_u64_le(b, 8);
        proof {
            let h = b@.subrange(0, 8);
            let l = b@.subrange(8, 16);
            lemma_le_value_bytes(h);
            lemma_le_value_bytes(l);
            assert(b@ =~= h + l);
        }
        UUID { higher, lower }
    }

    /// A random (version 4) identifier.
    pub fn rand() -> (r: UUID)
        ensures
            r.spec_bytes().len() == 16,
            r.spec_bytes()[6] / 16 == 4,
            r.spec_bytes()[8] / 64 == 2,
    {
        let b = random_v4_bytes();
        UUID::from_bytes(&b)
    }

    /// The sixteen bytes of the identifier.
    pub fn bytes(&self) -> (r: Vec<u8>)
        ensures
            r@ == self.spec_bytes(),
    {
        let mut r = encode_u64_le(self.higher);
        let mut lo = encode_u64_le(self.lower);
        r.append(&mut lo);
        r
    }

    /// The identifier as one number; distinct identifiers give distinct numbers.
    pub fn key(&self) -> (r: u128)
        ensures
            r == self.spec_key(),
    {
        (self.higher as u128) * 0x1_0000_0000_0000_0000u128 + self.lower as u128
    }

    /// The textual form: 32 uppercase hexadecimal digits, as ASCII bytes.
    pub fn hex(&self) -> (r: Vec<u8>)
        ensures
            r@ == hex_of(self.spec_bytes()),
            r@.len() == 32,
    {
        let b = self.bytes();
        let mut r: Vec<u8> = Vec::with_capacity(32);
        let mut i: usize = 0;
        proof {
            lemma_le_bytes_len(self.higher as nat, 8);
            lemma_le_bytes_len(self.lower as nat, 8);
        }
        while i < b.len()
            invariant
                i <= b@.len(),
                b@ == self.spec_bytes(),
                r@ == hex_of(b@.subrange(0, i as int)),
            decreases b@.len() - i,
        {
            let x = b[i];
            r.push(hex_ascii(x / 16));
            r.push(hex_ascii(x % 16));
            proof {
                let pre = b@.subrange(0, i + 1);
                assert(pre.drop_last() =~= b@.subrange(0, i as int));
            }
            i = i + 1;
        }
        proof {
            assert(b@.subrange(0, b@.len() as int) =~= b@);
            lemma_hex_len(b@);
        }
        r
    }
}

fn hex_ascii(d: u8) -> (r: u8)
    requires
        d < 16,
    ensures
        r == hex_digit(d as nat),
{
    if d < 10 {
        48 + d
    } else {
        55 + d
    }
}

/// Identifier of a dataset in a pipeline.
#[derive(Clone, Copy, PartialEq, Eq, Structural, Hash, Debug)]
pub struct RDDID {
    pub id: UUID,
}

impl RDDID {
    /// A random dataset identifier.
    pub fn rand() -> (r: RDDID)
        ensures
            r.id.spec_bytes()[6] / 16 == 4,
            r.id.spec_bytes()[8] / 64 == 2,
    {
        RDDID { id: UUID::rand() }
    }
}

} // verus!
