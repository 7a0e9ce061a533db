//! Big-endian unsigned integers of a given byte width.
use vstd::prelude::*;
use vstd::arithmetic::div_mod::*;
use vstd::arithmetic::mul::*;

verus! {

/// 256 to the power `k`.
pub open spec fn pow256(k: nat) -> nat
    decreases k,
{
    if k == 0 {
        1
    } else {
        256 * pow256((k - 1) as nat)
    }
}

/// The number that `bytes` spell, most significant byte first.
pub open spec fn be_value(bytes: Seq<u8>) -> nat
    decreases bytes.len(),
{
    if bytes.len() == 0 {
        0
    } else {
        be_value(bytes.drop_last()) * 256 + bytes.last() as nat
    }
}

/// The low `width` bytes of `n`, most significant byte first.
pub open spec fn be_bytes(n: nat, width: nat) -> Seq<u8>
    decreases width,
{
    if width == 0 {
        Seq::empty()
    } else {
        seq![((n / pow256((width - 1) as nat)) % 256) as u8] + be_bytes(n, (width - 1) as nat)
    }
}

/// The narrowest of 1, 2, 4 and 8 bytes that holds `n`.
pub open spec fn width_for(n: nat) -> nat {
    if n <= 0xFF {
        1
    } else if n <= 0xFFFF {
        2
    } else if n <= 0xFFFF_FFFF {
        4
    } else {
        8
    }
}

/// Whether `w` is one of the four widths the format knows.
pub open spec fn is_width(w: nat) -> bool {
    w == 1 || w == 2 || w == 4 || w == 8
}

pub proof fn lemma_pow256_values()
    ensures
        pow256(0) == 1,
        pow256(1) == 0x100,
        pow256(2) == 0x1_0000,
        pow256(3) == 0x100_0000,
        pow256(4) == 0x1_0000_0000,
        pow256(5) == 0x100_0000_0000,
        pow256(6) == 0x1_0000_0000_0000,
        pow256(7) == 0x100_0000_0000_0000,
        pow256(8) == 0x1_0000_0000_0000_0000,
{
    reveal_with_fuel(pow256, 10);
}

pub proof fn lemma_pow256_positive(k: nat)
    ensures
        pow256(k) > 0,
    decreases k,
{
    if k > 0 {
        lemma_pow256_positive((k - 1) as nat);
    }
}

pub proof fn lemma_be_bytes_len(n: nat, width: nat)
    ensures
        be_bytes(n, width).len() == width,
    decreases width,
{
    if width > 0 {
        lemma_be_bytes_len(n, (width - 1) as nat);
    }
}

pub proof fn lemma_be_value_bound(bytes: Seq<u8>)
    ensures
        be_value(bytes) < pow256(bytes.len()),
    decreases bytes.len(),
{
    if bytes.len() > 0 {
        lemma_be_value_bound(bytes.drop_last());
        let p = pow256((bytes.len() - 1) as nat);
        let v = be_value(bytes.drop_last());
        assert(v * 256 + 255 < 256 * p) by (nonlinear_arith)
            requires
                v < p,
        ;
    }
}

/// Reading a concatenation: the first part is shifted left by the length of the second.
pub proof fn lemma_be_value_concat(a: Seq<u8>, b: Seq<u8>)
    ensures
        be_value(a + b) == be_value(a) * pow256(b.len()) + be_value(b),
    decreases b.len(),
{
    if b.len() == 0 {
        assert(a + b =~= a);
        assert(be_value(a) * 1 == be_value(a)) by (nonlinear_arith);
    } else {
        let ab = a + b;
        assert(ab.drop_last() =~= a + b.drop_last());
        assert(ab.last() == b.last());
        lemma_be_value_concat(a, b.drop_last());
        let p = pow256((b.len() - 1) as nat);
        let va = be_value(a);
        let vb = be_value(b.drop_last());
        assert((va * p + vb) * 256 == va * (256 * p) + vb * 256) by (nonlinear_arith);
        assert(be_value(ab) == be_value(ab.drop_last()) * 256 + b.last() as nat);
        assert(be_value(b) == vb * 256 + b.last() as nat);
    }
}

/// Writing then reading gives the number back, reduced to the width.
pub proof fn lemma_be_roundtrip(n: nat, width: nat)
    ensures
        be_value(be_bytes(n, width)) == n % pow256(width),
    decreases width,
{
    if width == 0 {
    } else {
        let w1 = (width - 1) as nat;
        let p = pow256(w1);
        lemma_pow256_positive(w1);
        let d = ((n / p) % 256) as u8;
        let head = seq![d];
        let tail = be_bytes(n, w1);
        lemma_be_roundtrip(n, w1);
        lemma_be_bytes_len(n, w1);
        lemma_be_value_concat(head, tail);
        assert(head.drop_last() =~= Seq::<u8>::empty());
        assert(be_value(head.drop_last()) == 0);
        assert(be_value(head) == d as nat);
        // n % (p * 256) == p * ((n / p) % 256) + n % p
        lemma_breakdown(n as int, p as int, 256);
        assert(p * 256 == 256 * p) by (nonlinear_arith);
        assert((d as nat) * p == p * ((n / p) % 256)) by (nonlinear_arith)
            requires
                d as nat == (n / p) % 256,
        ;
    }
}

/// A number that fits the width comes back unchanged.
pub proof fn lemma_be_roundtrip_exact(n: nat, width: nat)
    requires
        n < pow256(width),
    ensures
        be_value(be_bytes(n, width)) == n,
        be_bytes(n, width).len() == width,
{
    lemma_be_roundtrip(n, width);
    lemma_be_bytes_len(n, width);
    lemma_small_mod(n, pow256(width));
}

/// Every number below 2^64 fits the width chosen for it.
pub proof fn lemma_width_for_fits(n: nat)
    requires
        n <= u64::MAX,
    ensures
        is_width(width_for(n)),
        n < pow256(width_for(n)),
{
    lemma_pow256_values();
}

/// `n` items of `w` bytes fit into `avail` bytes exactly when `n` is at
/// most the quotient.
pub proof fn lemma_items_fit(n: nat, w: nat, avail: nat)
    requires
        w > 0,
    ensures
        (n * w <= avail) <==> (n <= avail / w),
{
    lemma_fundamental_div_mod(avail as int, w as int);
    let q = avail / w;
    let r = avail % w;
    if n <= q {
        assert(n * w <= q * w) by (nonlinear_arith)
            requires
                n <= q,
        ;
        assert(w * q == q * w) by (nonlinear_arith);
    } else {
        assert(n * w >= (q + 1) * w) by (nonlinear_arith)
            requires
                n >= q + 1,
        ;
        assert((q + 1) * w == w * q + w) by (nonlinear_arith);
    }
}

pub fn minimal_width(n: u64) -> (w: u8)
    ensures
        w as nat == width_for(n as nat),
        is_width(w as nat),
{
    if n <= 0xFF {
        1
    } else if n <= 0xFFFF {
        2
    } else if n <= 0xFFFF_FFFF {
        4
    } else {
        8
    }
}

/// Reads `width` bytes of `data` at `pos` as one big-endian number.
pub fn read_be(data: &[u8], pos: usize, width: usize) -> (v: u64)
    requires
        width <= 8,
        pos + width <= data@.len(),
    ensures
        v as nat == be_value(data@.subrange(pos as int, pos + width)),
{
    let len = data.len();
    let mut v: u64 = 0;
    let mut i: usize = 0;
    while i < width
        invariant
            i <= width <= 8,
            pos + width <= data@.len(),
            len == data@.len(),
            v as nat == be_value(data@.subrange(pos as int, pos + i)),
        decreases width - i,
    {
        proof {
            let next = data@.subrange(pos as int, pos + i + 1);
            assert(next.drop_last() =~= data@.subrange(pos as int, pos + i));
            assert(next.last() == data@[pos + i]);
            lemma_be_value_bound(data@.subrange(pos as int, pos + i));
            lemma_be_value_bound(next);
            lemma_pow256_values();
            lemma_pow256_monotone((i + 1) as nat, 8);
        }
        v = v * 256 + data[pos + i] as u64;
        i += 1;
    }
    v
}

pub proof fn lemma_pow256_monotone(a: nat, b: nat)
    requires
        a <= b,
    ensures
        pow256(a) <= pow256(b),
    decreases b,
{
    if a < b {
        lemma_pow256_monotone(a, (b - 1) as nat);
    }
}

/// Appends the low `width` bytes of `n` to `out`, most significant first.
pub fn push_be(out: &mut Vec<u8>, n: u64, width: usize)
    requires
        0 < width <= 8,
    ensures
        final(out)@ == old(out)@ + be_bytes(n as nat, width as nat),
{
    let mut d: u64 = 1;
    let mut k: usize = 1;
    while k < width
        invariant
            1 <= k <= width <= 8,
            d as nat == pow256((k - 1) as nat),
        decreases width - k,
    {
        proof {
            lemma_pow256_values();
            lemma_pow256_monotone(k as nat, 7);
        }
        d = d * 256;
        k += 1;
    }
    let mut i: usize = 0;
    while i < width
        invariant
            i <= width <= 8,
            0 < width,
            i < width ==> d as nat == pow256((width - 1 - i) as nat),
            out@ + be_bytes(n as nat, (width - i) as nat) == old(out)@ + be_bytes(
                n as nat,
                width as nat,
            ),
        decreases width - i,
    {
        proof {
            lemma_pow256_positive((width - 1 - i) as nat);
        }
        let digit: u64 = (n / d) % 256;
        let ghost before = out@;
        out.push(digit as u8);
        proof {
            let rest = be_bytes(n as nat, (width - i - 1) as nat);
            assert(be_bytes(n as nat, (width - i) as nat) == seq![digit as u8] + rest);
            assert(out@ + rest =~= before + (seq![digit as u8] + rest));
        }
        i += 1;
        if i < width {
            d = d / 256;
        }
    }
    proof {
        assert(out@ + be_bytes(n as nat, 0) =~= out@);
    }
}

} // verus!
