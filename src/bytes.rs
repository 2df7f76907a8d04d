//! Fixed-width little-endian integers, as the record layout stores them.
use vstd::prelude::*;

verus! {

/// `256` raised to the power `w`: the number of values that `w` bytes hold.
pub open spec fn pow256(w: nat) -> nat
    decreases w,
{
    if w == 0 {
        1
    } else {
        256 * pow256((w - 1) as nat)
    }
}

/// The `w` low bytes of `n`, least significant first.
pub open spec fn le_bytes(n: nat, w: nat) -> Seq<u8>
    decreases w,
{
    if w == 0 {
        Seq::empty()
    } else {
        seq![(n % 256) as u8] + le_bytes(n / 256, (w - 1) as nat)
    }
}

/// The number that the bytes `s` spell, least significant first.
pub open spec fn le_value(s: Seq<u8>) -> nat
    decreases s.len(),
{
    if s.len() == 0 {
        0
    } else {
        s[0] as nat + 256 * le_value(s.drop_first())
    }
}

/// The ranges of eight and of sixteen bytes.
pub proof fn lemma_pow256_values()
    ensures
        pow256(8) == 0x1_0000_0000_0000_0000,
        pow256(16) == 0x1_0000_0000_0000_0000_0000_0000_0000_0000,
{
    reveal_with_fuel(pow256, 17);
}

/// More bytes hold at least as many values.
pub proof fn lemma_pow256_monotone(a: nat, b: nat)
    requires
        a <= b,
    ensures
        pow256(a) <= pow256(b),
    decreases b,
{
    if a < b {
        lemma_pow256_monotone(a, (b - 1) as nat);
    }
}

/// A number laid out in `w` bytes takes `w` bytes.
pub proof fn lemma_le_bytes_len(n: nat, w: nat)
    ensures
        le_bytes(n, w).len() == w,
    decreases w,
{
    if w > 0 {
        lemma_le_bytes_len(n / 256, (w - 1) as nat);
    }
}

/// Reading back the bytes of a number that fits gives the number.
pub proof fn lemma_le_round_trip(n: nat, w: nat)
    requires
        n < pow256(w),
    ensures
        le_bytes(n, w).len() == w,
        le_value(le_bytes(n, w)) == n,
    decreases w,
{
    lemma_le_bytes_len(n, w);
    if w > 0 {
        let p = pow256((w - 1) as nat);
        assert(n / 256 < p) by (nonlinear_arith)
            requires
                n < 256 * p,
        ;
        lemma_le_round_trip(n / 256, (w - 1) as nat);
        let s = le_bytes(n, w);
        assert(s.drop_first() =~= le_bytes(n / 256, (w - 1) as nat));
        assert(n % 256 + 256 * (n / 256) == n) by (nonlinear_arith);
    }
}

/// The number that `s` spells fits in `s.len()` bytes.
pub proof fn lemma_le_value_bound(s: Seq<u8>)
    ensures
        le_value(s) < pow256(s.len()),
    decreases s.len(),
{
    if s.len() > 0 {
        lemma_le_value_bound(s.drop_first());
        let v = le_value(s.drop_first());
        let p = pow256((s.len() - 1) as nat);
        let b = s[0] as nat;
        assert(b + 256 * v < 256 * p) by (nonlinear_arith)
            requires
                v < p,
                b < 256,
        ;
    }
}

/// Appends the `w` low bytes of `x` to `out`, least significant first.
pub fn put_le(out: &mut Vec<u8>, x: u128, w: usize)
    requires
        w <= 16,
        x < pow256(w as nat),
    ensures
        final(out)@ == old(out)@ + le_bytes(x as nat, w as nat),
{
    let mut y: u128 = x;
    let mut i: usize = 0;
    while i < w
        invariant
            i <= w,
            out@ + le_bytes(y as nat, (w - i) as nat) == old(out)@ + le_bytes(x as nat, w as nat),
        decreases w - i,
    {
        let ghost before = out@;
        out.push((y % 256) as u8);
        proof {
            let rest = le_bytes((y / 256) as nat, (w - i - 1) as nat);
            assert(le_bytes(y as nat, (w - i) as nat) == seq![(y % 256) as u8] + rest);
            assert(out@ + rest =~= before + (seq![(y % 256) as u8] + rest));
        }
        y = y / 256;
        i = i + 1;
    }
    assert(out@ + le_bytes(y as nat, 0) =~= out@);
}

/// The number spelt by the `w` bytes of `b` that start at `start`.
pub fn get_le(b: &Vec<u8>, start: usize, w: usize) -> (r: u128)
    requires
        w <= 16,
        start + w <= b@.len(),
    ensures
        r == le_value(b@.subrange(start as int, start + w)),
{
    proof {
        lemma_pow256_values();
    }
    let n: usize = b.len();
    let mut v: u128 = 0;
    let mut i: usize = w;
    assert(b@.subrange(start + w, start + w).len() == 0);
    while i > 0
        invariant
            i <= w <= 16,
            start + w <= b@.len() == n,
            v == le_value(b@.subrange(start + i, start + w)),
            pow256(16) == 0x1_0000_0000_0000_0000_0000_0000_0000_0000,
        decreases i,
    {
        let ghost s = b@.subrange(start + i - 1, start + w);
        proof {
            assert(s.drop_first() =~= b@.subrange(start + i, start + w));
            lemma_le_value_bound(b@.subrange(start + i, start + w));
            lemma_pow256_monotone((w - i + 1) as nat, 16);
            let p = pow256((w - i) as nat);
            let bb = b@[start + i - 1] as nat;
            assert(bb + 256 * v < 256 * p) by (nonlinear_arith)
                requires
                    v < p,
                    bb < 256,
            ;
            assert(pow256((w - i + 1) as nat) == 256 * p);
            assert(bb + 256 * v < pow256(16));
        }
        let j: usize = start + (i - 1);
        let byte: u128 = b[j] as u128;
        v = v * 256 + byte;
        i = i - 1;
    }
    v
}

/// A copy of the bytes of `b` from `start` up to `end`.
pub fn copy_range(b: &Vec<u8>, start: usize, end: usize) -> (r: Vec<u8>)
    requires
        start <= end <= b@.len(),
    ensures
        r@ == b@.subrange(start as int, end as int),
{
    let mut r: Vec<u8> = Vec::new();
    let mut i: usize = start;
    while i < end
        invariant
            start <= i <= end <= b@.len(),
            r@ == b@.subrange(start as int, i as int),
        decreases end - i,
    {
        r.push(b[i]);
        i = i + 1;
        assert(r@ =~= b@.subrange(start as int, i as int));
    }
    r
}

/// Appends every byte of `src` to `out`.
pub fn push_all(out: &mut Vec<u8>, src: &Vec<u8>)
    ensures
        final(out)@ == old(out)@ + src@,
{
    let mut i: usize = 0;
    while i < src.len()
        invariant
            i <= src@.len(),
            out@ == old(out)@ + src@.subrange(0, i as int),
        decreases src@.len() - i,
    {
        out.push(src[i]);
        i = i + 1;
        assert(out@ =~= old(out)@ + src@.subrange(0, i as int));
    }
    assert(src@.subrange(0, src@.len() as int) =~= src@);
}

/// Whether `a` and `b` hold the same bytes.
pub fn bytes_equal(a: &Vec<u8>, b: &Vec<u8>) -> (r: bool)
    ensures
        r == (a@ == b@),
{
    if a.len() != b.len() {
        return false;
    }
    let mut i: usize = 0;
    while i < a.len()
        invariant
            a@.len() == b@.len(),
            i <= a@.len(),
            a@.subrange(0, i as int) == b@.subrange(0, i as int),
        decreases a@.len() - i,
    {
        if a[i] != b[i] {
            return false;
        }
        i = i + 1;
        assert(a@.subrange(0, i as int) =~= b@.subrange(0, i as int));
    }
    assert(a@ =~= a@.subrange(0, i as int));
    assert(b@ =~= b@.subrange(0, i as int));
    true
}

} // verus!
