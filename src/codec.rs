//! Little-endian integer encoding and the length-prefixed record framing
//! used by blocks.
use vstd::prelude::*;
use vstd::arithmetic::div_mod::{lemma_fundamental_div_mod, lemma_fundamental_div_mod_converse};

verus! {

/// Number of bytes in a record's length header.
pub const DATA_LEN_SIZE: usize = 8;

/// 256 to the power `n`.
pub open spec fn pow256(n: nat) -> nat
    decreases n,
{
    if n == 0 {
        1
    } else {
        256 * pow256((n - 1) as nat)
    }
}

/// The `n` low-order bytes of `v`, least significant first.
pub open spec fn le_bytes(v: nat, n: nat) -> Seq<u8>
    decreases n,
{
    if n == 0 {
        Seq::empty()
    } else {
        seq![(v % 256) as u8] + le_bytes(v / 256, (n - 1) as nat)
    }
}

/// The number whose little-endian bytes are `s`.
pub open spec fn le_value(s: Seq<u8>) -> nat
    decreases s.len(),
{
    if s.len() == 0 {
        0
    } else {
        s[0] as nat + 256 * le_value(s.drop_first())
    }
}

pub proof fn lemma_le_bytes_len(v: nat, n: nat)
    ensures
        le_bytes(v, n).len() == n,
    decreases n,
{
    if n > 0 {
        lemma_le_bytes_len(v / 256, (n - 1) as nat);
    }
}

pub proof fn lemma_le_value_bound(s: Seq<u8>)
    ensures
        le_value(s) < pow256(s.len()),
    decreases s.len(),
{
    if s.len() > 0 {
        lemma_le_value_bound(s.drop_first());
        assert(le_value(s) == s[0] as nat + 256 * le_value(s.drop_first()));
        assert(le_value(s.drop_first()) + 1 <= pow256((s.len() - 1) as nat));
        assert(256 * (le_value(s.drop_first()) + 1) <= 256 * pow256((s.len() - 1) as nat))
            by (nonlinear_arith)
            requires
                le_value(s.drop_first()) + 1 <= pow256((s.len() - 1) as nat),
        ;
    }
}

/// Decoding the encoding of a value that fits in `n` bytes gives the value back.
pub proof fn lemma_le_round_trip(v: nat, n: nat)
    requires
        v < pow256(n),
    ensures
        le_value(le_bytes(v, n)) == v,
    decreases n,
{
    if n == 0 {
    } else {
        let rest = le_bytes(v / 256, (n - 1) as nat);
        lemma_fundamental_div_mod(v as int, 256);
        assert(v / 256 < pow256((n - 1) as nat)) by (nonlinear_arith)
            requires
                v < 256 * pow256((n - 1) as nat),
        ;
        lemma_le_round_trip(v / 256, (n - 1) as nat);
        let s = le_bytes(v, n);
        assert(s.drop_first() =~= rest);
        assert(s[0] as nat == v % 256);
    }
}

/// Encoding the value of a byte sequence gives the sequence back.
pub proof fn lemma_le_value_bytes(s: Seq<u8>)
    ensures
        le_bytes(le_value(s), s.len()) == s,
    decreases s.len(),
{
    if s.len() > 0 {
        let v = le_value(s);
        let t = s.drop_first();
        lemma_le_value_bytes(t);
        lemma_fundamental_div_mod_converse(v as int, 256, le_value(t) as int, s[0] as int);
        assert(le_bytes(v, s.len()) =~= s);
    }
}

/// The 8-byte little-endian encoding of `v`.
pub fn encode_u64_le(v: u64) -> (r: Vec<u8>)
    ensures
        r@ == le_bytes(v as nat, 8),
{
    let mut r: Vec<u8> = Vec::with_capacity(8);
    let mut x: u64 = v;
    let mut i: usize = 0;
    while i < 8
        invariant
            i <= 8,
            r@ + le_bytes(x as nat, (8 - i) as nat) == le_bytes(v as nat, 8),
        decreases 8 - i,
    {
        let ghost prev = r@;
        assert(le_bytes(x as nat, (8 - i) as nat) == seq![(x % 256) as u8] + le_bytes(
            (x / 256) as nat,
            (8 - i - 1) as nat,
        ));
        r.push((x % 256) as u8);
        assert(r@ == prev + seq![(x % 256) as u8]);
        assert(prev + (seq![(x % 256) as u8] + le_bytes((x / 256) as nat, (8 - i - 1) as nat))
            =~= r@ + le_bytes((x / 256) as nat, (8 - i - 1) as nat));
        x = x / 256;
        i = i + 1;
    }
    assert(r@ + le_bytes(x as nat, 0) =~= r@);
    r
}

/// Reads the 8-byte little-endian number that starts at `pos`.
pub fn decode_u64_le(s: &Vec<u8>, pos: usize) -> (r: u64)
    requires
        pos + 8 <= s@.len(),
    ensures
        r as nat == le_value(s@.subrange(pos as int, pos + 8)),
{
    let n = s.len();
    let mut acc: u64 = 0;
    let mut i: usize = 8;
    while i > 0
        invariant
            i <= 8,
            pos + 8 <= s@.len(),
            n == s@.len(),
            acc as nat == le_value(s@.subrange(pos + i, pos + 8)),
        decreases i,
    {
        let ghost tail = s@.subrange(pos + i, pos + 8);
        let ghost whole = s@.subrange(pos + i - 1, pos + 8);
        proof {
            lemma_le_value_bound(tail);
            assert(whole.drop_first() =~= tail);
            assert(pow256(tail.len()) <= pow256(7)) by {
                lemma_pow256_mono(tail.len(), 7);
            }
            reveal_with_fuel(pow256, 8);
        }
        acc = acc * 256 + s[pos + (i - 1)] as u64;
        i = i - 1;
    }
    acc
}

pub proof fn lemma_pow256_mono(a: nat, b: nat)
    requires
        a <= b,
    ensures
        pow256(a) <= pow256(b),
    decreases b,
{
    if a < b {
        lemma_pow256_mono(a, (b - 1) as nat);
    }
}

} // verus!
