//! Little-endian integers at a declared byte width, with no padding.

use crate::layout::Width;
use vstd::prelude::*;

verus! {

/// `256^w`: one more than the largest value a `w`-byte integer can hold.
pub open spec fn pow256(w: nat) -> nat
    decreases w,
{
    if w == 0 {
        1
    } else {
        256 * pow256((w - 1) as nat)
    }
}

/// The `w` little-endian bytes of `n` (low byte first); high bits beyond
/// the width are dropped.
pub open spec fn le_bytes_of(n: nat, w: nat) -> Seq<u8>
    decreases w,
{
    if w == 0 {
        Seq::empty()
    } else {
        seq![(n % 256) as u8] + le_bytes_of(n / 256, (w - 1) as nat)
    }
}

/// The value of a little-endian byte string.
pub open spec fn le_value_of(s: Seq<u8>) -> nat
    decreases s,
{
    if s.len() == 0 {
        0
    } else {
        (s[0] + 256 * le_value_of(s.drop_first())) as nat
    }
}

pub proof fn lemma_pow256_values()
    ensures
        pow256(1) == 0x100,
        pow256(2) == 0x1_0000,
        pow256(4) == 0x1_0000_0000,
        pow256(8) == 0x1_0000_0000_0000_0000,
{
    reveal_with_fuel(pow256, 9);
}

pub proof fn lemma_le_bytes_len(n: nat, w: nat)
    ensures
        le_bytes_of(n, w).len() == w,
    decreases w,
{
    if w > 0 {
        lemma_le_bytes_len(n / 256, (w - 1) as nat);
    }
}

/// Writing then reading a value that fits the width gives it back.
pub proof fn lemma_le_round_trip(n: nat, w: nat)
    requires
        n < pow256(w),
    ensures
        le_value_of(le_bytes_of(n, w)) == n,
    decreases w,
{
    if w > 0 {
        let s = le_bytes_of(n, w);
        assert(s == seq![(n % 256) as u8] + le_bytes_of(n / 256, (w - 1) as nat));
        assert(s.drop_first() =~= le_bytes_of(n / 256, (w - 1) as nat));
        assert(n / 256 < pow256((w - 1) as nat)) by {
            assert(n < 256 * pow256((w - 1) as nat));
        }
        lemma_le_round_trip(n / 256, (w - 1) as nat);
    }
}

/// A byte string is the little-endian form of its own value.
pub proof fn lemma_le_bytes_of_value(s: Seq<u8>)
    ensures
        le_bytes_of(le_value_of(s), s.len()) == s,
    decreases s,
{
    if s.len() > 0 {
        lemma_le_bytes_of_value(s.drop_first());
        let v = le_value_of(s);
        assert(v == s[0] + 256 * le_value_of(s.drop_first()));
        assert(v % 256 == s[0] && v / 256 == le_value_of(s.drop_first())) by (nonlinear_arith)
            requires
                v == s[0] + 256 * le_value_of(s.drop_first()),
                s[0] < 256,
        ;
        assert(le_bytes_of(v, s.len()) =~= s);
    }
}

/// A little-endian byte string's value fits its own width.
pub proof fn lemma_le_value_bound(s: Seq<u8>)
    ensures
        le_value_of(s) < pow256(s.len()),
    decreases s,
{
    if s.len() > 0 {
        lemma_le_value_bound(s.drop_first());
    }
}

pub proof fn lemma_pow256_mono(a: nat, b: nat)
    requires
        a <= b,
    ensures
        pow256(a) <= pow256(b),
    decreases b,
{
    if a < b {
        lemma_pow256_mono(a, (b - 1) as nat);
    }
}

/// Appends the `w`-byte little-endian form of `n`.
pub fn write_le(out: &mut Vec<u8>, n: u64, w: Width)
    ensures
        final(out)@ == old(out)@ + le_bytes_of(n as nat, w.bytes()),
{
    let total: usize = w.byte_len();
    let mut cur: u64 = n;
    let mut i: usize = 0;
    while i < total
        invariant
            i <= total,
            out@ + le_bytes_of(cur as nat, (total - i) as nat) == old(out)@ + le_bytes_of(
                n as nat,
                w.bytes(),
            ),
            total == w.bytes(),
        decreases total - i,
    {
        let ghost before = out@;
        let b: u8 = (cur % 256) as u8;
        out.push(b);
        proof {
            assert(le_bytes_of(cur as nat, (total - i) as nat) == seq![b] + le_bytes_of(
                (cur as nat) / 256,
                (total - i - 1) as nat,
            ));
            assert(out@ + le_bytes_of((cur / 256) as nat, (total - (i + 1)) as nat) =~= before
                + le_bytes_of(cur as nat, (total - i) as nat));
        }
        cur = cur / 256;
        i = i + 1;
    }
    proof {
        assert(le_bytes_of(cur as nat, 0) =~= Seq::<u8>::empty());
        assert(out@ =~= out@ + le_bytes_of(cur as nat, 0));
    }
}

/// Reads the `w`-byte little-endian integer that starts at `pos`.
pub fn read_le(data: &Vec<u8>, pos: usize, w: Width) -> (r: u64)
    requires
        pos + w.bytes() <= data@.len(),
    ensures
        r as nat == le_value_of(data@.subrange(pos as int, pos + w.bytes())),
{
    let total: usize = w.byte_len();
    let dlen: usize = data.len();
    let mut cur: u64 = 0;
    let mut i: usize = total;
    proof {
        lemma_pow256_values();
        assert(data@.subrange(pos + total, pos + total) =~= Seq::<u8>::empty());
    }
    while i > 0
        invariant
            i <= total,
            total == w.bytes(),
            dlen == data@.len(),
            pos + total <= dlen,
            cur as nat == le_value_of(data@.subrange(pos + i, pos + total)),
            (cur as nat) < pow256((total - i) as nat),
            pow256(8) == 0x1_0000_0000_0000_0000,
        decreases i,
    {
        let b: u8 = data[pos + i - 1];
        proof {
            let s = data@.subrange(pos + i - 1, pos + total);
            assert(s.len() > 0);
            assert(s[0] == b);
            assert(s.drop_first() =~= data@.subrange(pos + i, pos + total));
            assert(le_value_of(s) == b + 256 * le_value_of(data@.subrange(pos + i, pos + total)));
            lemma_pow256_mono((total - i) as nat, 7);
            reveal_with_fuel(pow256, 9);
            assert(cur as nat <= pow256(7) - 1);
            assert(256 * (cur as nat) + b < pow256((total - i + 1) as nat));
        }
        cur = cur * 256 + (b as u64);
        i = i - 1;
    }
    cur
}

} // verus!
