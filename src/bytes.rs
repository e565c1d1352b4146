use vstd::prelude::*;

verus! {

pub open spec fn pow256(w: nat) -> nat
    decreases w,
{
    if w == 0 {
        1
    } else {
        256 * pow256((w - 1) as nat)
    }
}

/// The `w` little-endian bytes of `v`.
pub open spec fn enc_u(v: nat, w: nat) -> Seq<u8>
    decreases w,
{
    if w == 0 {
        Seq::empty()
    } else {
        seq![(v % 256) as u8] + enc_u(v / 256, (w - 1) as nat)
    }
}

/// The number that the little-endian bytes `s` stand for.
pub open spec fn dec_u(s: Seq<u8>) -> nat
    decreases s.len(),
{
    if s.len() == 0 {
        0
    } else {
        s[0] as nat + 256 * dec_u(s.drop_first())
    }
}

pub proof fn lemma_dec_bound(s: Seq<u8>)
    ensures
        dec_u(s) < pow256(s.len()),
    decreases s.len(),
{
    if s.len() > 0 {
        lemma_dec_bound(s.drop_first());
        let d = dec_u(s.drop_first());
        let p = pow256((s.len() - 1) as nat);
        assert(s[0] as nat + 256 * d < 256 * p) by (nonlinear_arith)
            requires
                d < p,
                s[0] < 256,
        ;
    }
}

/// Decoding then encoding gives the bytes back.
pub proof fn lemma_enc_dec(s: Seq<u8>)
    ensures
        enc_u(dec_u(s), s.len()) == s,
    decreases s.len(),
{
    if s.len() > 0 {
        let d = dec_u(s.drop_first());
        lemma_enc_dec(s.drop_first());
        let v = s[0] as nat + 256 * d;
        assert(v % 256 == s[0] as nat && v / 256 == d) by (nonlinear_arith)
            requires
                v == s[0] as nat + 256 * d,
                s[0] < 256,
        ;
        assert(enc_u(v, s.len()) =~= s);
    }
}

/// Encoding then decoding gives the number back.
pub proof fn lemma_dec_enc(v: nat, w: nat)
    requires
        v < pow256(w),
    ensures
        dec_u(enc_u(v, w)) == v,
        enc_u(v, w).len() == w,
    decreases w,
{
    if w > 0 {
        let p = pow256((w - 1) as nat);
        assert(v / 256 < p && v == (v % 256) + 256 * (v / 256)) by (nonlinear_arith)
            requires
                v < 256 * p,
        ;
        lemma_dec_enc(v / 256, (w - 1) as nat);
        assert(enc_u(v, w).drop_first() =~= enc_u(v / 256, (w - 1) as nat));
    }
}

pub proof fn lemma_pow256_mono(a: nat, b: nat)
    requires
        a <= b,
    ensures
        pow256(a) <= pow256(b),
    decreases b,
{
    if a < b {
        lemma_pow256_mono(a, (b - 1) as nat);
    }
}

pub proof fn lemma_pow256_widths()
    ensures
        pow256(8) == 0x1_0000_0000_0000_0000,
        pow256(4) == 0x1_0000_0000,
        pow256(2) == 0x1_0000,
{
    reveal_with_fuel(pow256, 9);
}

/// Appends the `w` little-endian bytes of `v`.
pub fn write_u(out: &mut Vec<u8>, v: u64, w: usize)
    requires
        1 <= w <= 8,
        v < pow256(w as nat),
    ensures
        final(out)@ == old(out)@ + enc_u(v as nat, w as nat),
{
    let ghost start = out@;
    let mut x: u64 = v;
    let mut k: usize = 0;
    while k < w
        invariant
            k <= w,
            out@ + enc_u(x as nat, (w - k) as nat) == start + enc_u(v as nat, w as nat),
        decreases w - k,
    {
        let ghost pre = out@;
        out.push((x % 256) as u8);
        proof {
            assert(enc_u(x as nat, (w - k) as nat) == seq![(x % 256) as u8] + enc_u((x / 256) as nat, (w - k - 1) as nat));
            assert(out@ + enc_u((x / 256) as nat, (w - k - 1) as nat) =~= pre + enc_u(x as nat, (w - k) as nat));
        }
        x = x / 256;
        k = k + 1;
    }
    assert(enc_u(x as nat, 0) =~= Seq::<u8>::empty());
    assert(out@ =~= out@ + enc_u(x as nat, 0));
}

/// The number in the `w` little-endian bytes of `b` from position `p`.
pub fn read_u(b: &[u8], p: usize, w: usize) -> (r: u64)
    requires
        1 <= w <= 8,
        p + w <= b@.len(),
    ensures
        r == dec_u(b@.subrange(p as int, p + w)),
{
    proof {
        lemma_pow256_widths();
    }
    let n = b.len();
    let mut acc: u64 = 0;
    let mut k: usize = w;
    while k > 0
        invariant
            1 <= w <= 8,
            p + w <= b@.len(),
            n == b@.len(),
            k <= w,
            acc == dec_u(b@.subrange(p + k, p + w)),
            pow256(8) == 0x1_0000_0000_0000_0000,
        decreases k,
    {
        proof {
            lemma_dec_bound(b@.subrange(p + k, p + w));
            lemma_pow256_mono((w - k) as nat, 7);
            reveal_with_fuel(pow256, 9);
            let s = b@.subrange(p + k - 1, p + w);
            assert(s.drop_first() =~= b@.subrange(p + k, p + w));
        }
        acc = acc * 256 + b[p + k - 1] as u64;
        k = k - 1;
    }
    acc
}

} // verus!
