//! Unsigned big integers as little-endian base 2^64 limb vectors, with
//! just the operations the score combiner needs: multiplication by a
//! small factor and exact comparison.
//!
//! A limb vector is kept normalized: its most significant limb is never
//! zero, and the empty vector stands for zero.

use vstd::prelude::*;

verus! {

pub const BASE: u128 = 0x1_0000_0000_0000_0000;

/// 2^(64 n).
pub open spec fn b_pow(n: nat) -> nat
    decreases n,
{
    if n == 0 {
        1
    } else {
        0x1_0000_0000_0000_0000 * b_pow((n - 1) as nat)
    }
}

/// The value of a little-endian limb sequence.
pub open spec fn limbs_val(s: Seq<u64>) -> nat
    decreases s.len(),
{
    if s.len() == 0 {
        0
    } else {
        (limbs_val(s.drop_last()) + s.last() * b_pow((s.len() - 1) as nat)) as nat
    }
}

/// Normal form: no leading zero limb.
pub open spec fn limbs_norm(s: Seq<u64>) -> bool {
    s.len() == 0 || s.last() != 0
}

pub proof fn lemma_b_pow_pos(n: nat)
    ensures
        b_pow(n) >= 1,
    decreases n,
{
    if n > 0 {
        lemma_b_pow_pos((n - 1) as nat);
    }
}

/// The value of `s` is below 2^(64 len).
pub proof fn lemma_limbs_val_bound(s: Seq<u64>)
    ensures
        limbs_val(s) < b_pow(s.len()),
    decreases s.len(),
{
    if s.len() == 0 {
    } else {
        let n = (s.len() - 1) as nat;
        lemma_limbs_val_bound(s.drop_last());
        lemma_b_pow_pos(n);
        assert(s.last() * b_pow(n) <= (0x1_0000_0000_0000_0000 - 1) * b_pow(n))
            by (nonlinear_arith)
            requires
                s.last() <= 0x1_0000_0000_0000_0000 - 1 && b_pow(n) >= 1,
        ;
    }
}

/// A normalized, non-empty limb sequence has value at least 2^(64 (len-1)).
pub proof fn lemma_limbs_val_lower(s: Seq<u64>)
    requires
        limbs_norm(s),
        s.len() > 0,
    ensures
        limbs_val(s) >= b_pow((s.len() - 1) as nat),
        limbs_val(s) >= 1,
{
    let n = (s.len() - 1) as nat;
    lemma_b_pow_pos(n);
    assert(s.last() * b_pow(n) >= 1 * b_pow(n)) by (nonlinear_arith)
        requires
            s.last() >= 1 && b_pow(n) >= 1,
    ;
    lemma_val_nonneg(s.drop_last());
}

pub proof fn lemma_val_nonneg(s: Seq<u64>)
    ensures
        limbs_val(s) >= 0,
{
}

/// Appending a limb adds its weighted value.
proof fn lemma_val_push(s: Seq<u64>, x: u64)
    ensures
        limbs_val(s.push(x)) == limbs_val(s) + x * b_pow(s.len()),
{
    assert(s.push(x).drop_last() =~= s);
    assert(s.push(x).last() == x);
}

/// Zero is the only value of an empty vector, and a normalized non-empty
/// vector is nonzero.
pub proof fn lemma_val_zero_iff_empty(s: Seq<u64>)
    requires
        limbs_norm(s),
    ensures
        (limbs_val(s) == 0) <==> (s.len() == 0),
{
    if s.len() > 0 {
        lemma_limbs_val_lower(s);
    }
}

/// A big integer: little-endian limbs, normalized.
pub struct BigNum {
    pub limbs: Vec<u64>,
}

impl BigNum {
    pub open spec fn wf(&self) -> bool {
        limbs_norm(self.limbs@)
    }

    pub open spec fn val(&self) -> nat {
        limbs_val(self.limbs@)
    }

    /// The big integer one.
    pub fn one() -> (r: Self)
        ensures
            r.wf(),
            r.val() == 1,
    {
        let mut limbs: Vec<u64> = Vec::new();
        limbs.push(1);
        proof {
            lemma_val_push(Seq::<u64>::empty(), 1);
            assert(limbs@ =~= Seq::<u64>::empty().push(1));
        }
        BigNum { limbs }
    }

    /// The big integer zero.
    pub fn zero() -> (r: Self)
        ensures
            r.wf(),
            r.val() == 0,
    {
        let limbs: Vec<u64> = Vec::new();
        proof {
            assert(limbs@ =~= Seq::<u64>::empty());
        }
        BigNum { limbs }
    }

    pub fn is_zero(&self) -> (r: bool)
        requires
            self.wf(),
        ensures
            r == (self.val() == 0),
    {
        proof {
            lemma_val_zero_iff_empty(self.limbs@);
        }
        self.limbs.len() == 0
    }

    /// Multiply by a small positive factor, limb by limb with carry.
    pub fn mul_small(&self, m: u64) -> (r: Self)
        requires
            self.wf(),
            m >= 1,
        ensures
            r.wf(),
            r.val() == self.val() * m,
    {
        let a = &self.limbs;
        let n = a.len();
        let mut out: Vec<u64> = Vec::new();
        let mut carry: u64 = 0;
        let mut i: usize = 0;
        proof {
            assert(a@.take(0) =~= Seq::<u64>::empty());
            assert(out@ =~= Seq::<u64>::empty());
            assert(limbs_val(Seq::<u64>::empty()) == 0);
            assert(limbs_val(a@.take(0)) * m == 0) by (nonlinear_arith)
                requires
                    limbs_val(a@.take(0)) == 0,
            ;
        }
        while i < n
            invariant
                n == a@.len(),
                i <= n,
                out@.len() == i,
                m >= 1,
                limbs_val(out@) + carry * b_pow(i as nat) == limbs_val(a@.take(i as int)) * m,
            decreases n - i,
        {
            let ghost prev = limbs_val(out@);
            let ghost pw = b_pow(i as nat);
            proof {
                lemma_mul_add_fits(a@[i as int], m, carry);
            }
            let t: u128 = (a[i] as u128) * (m as u128) + (carry as u128);
            let lo: u64 = (t % BASE) as u64;
            let hi: u64 = (t / BASE) as u64;
            proof {
                assert(t == (hi as int) * (BASE as int) + lo) by (nonlinear_arith)
                    requires
                        lo == t % BASE && hi == t / BASE && BASE == 0x1_0000_0000_0000_0000,
                ;
            }
            let ghost before = out@;
            out.push(lo);
            proof {
                lemma_val_push(before, lo);
                assert(out@ == before.push(lo));
                assert(limbs_val(out@) == prev + lo * pw);
                // value of the new accumulator plus the new carry
                assert(a@.take(i as int + 1) =~= a@.take(i as int).push(a@[i as int]));
                lemma_val_push(a@.take(i as int), a@[i as int]);
                assert(limbs_val(a@.take(i as int + 1)) == limbs_val(a@.take(i as int)) + a@[i
                    as int] * pw);
                let ai = a@[i as int] as int;
                let mi = m as int;
                let ci = carry as int;
                let loi = lo as int;
                let hii = hi as int;
                let base = BASE as int;
                assert(b_pow(i as nat + 1) == base * b_pow(i as nat));
                assert(prev + ci * pw == limbs_val(a@.take(i as int)) * mi);
                assert(ai * mi + ci == hii * base + loi);
                assert((prev + loi * pw) + hii * (base * pw) == (limbs_val(a@.take(i as int))
                    + ai * pw) * mi) by (nonlinear_arith)
                    requires
                        prev + ci * pw == limbs_val(a@.take(i as int)) * mi,
                        ai * mi + ci == hii * base + loi,
                ;
            }
            carry = hi;
            i += 1;
        }
        proof {
            assert(a@.take(n as int) =~= a@);
        }
        if carry > 0 {
            let ghost before = out@;
            out.push(carry);
            proof {
                lemma_val_push(before, carry);
            }
            BigNum { limbs: out }
        } else {
            proof {
                // with a zero final carry the product keeps the value, and
                // normal form follows: the top limb cannot be zero unless
                // the whole product is empty.
                if out@.len() > 0 && out@.last() == 0 {
                    if a@.len() > 0 {
                        lemma_limbs_val_lower(a@);
                        assert(limbs_val(a@) * m >= limbs_val(a@) * 1) by (nonlinear_arith)
                            requires
                                m >= 1 && limbs_val(a@) >= 0,
                        ;
                        lemma_val_drop_last_zero(out@);
                        lemma_limbs_val_bound(out@.drop_last());
                        lemma_b_pow_mono((a@.len() - 1) as nat, (out@.len() - 1) as nat);
                    }
                }
            }
            BigNum { limbs: out }
        }
    }
}

/// A limb sequence ending in zero has the value of its front part.
proof fn lemma_val_drop_last_zero(s: Seq<u64>)
    requires
        s.len() > 0,
        s.last() == 0,
    ensures
        limbs_val(s) == limbs_val(s.drop_last()),
{
}

pub proof fn lemma_b_pow_mono(m: nat, n: nat)
    requires
        m <= n,
    ensures
        b_pow(m) <= b_pow(n),
    decreases n,
{
    if m < n {
        lemma_b_pow_mono(m, (n - 1) as nat);
        lemma_b_pow_pos((n - 1) as nat);
        assert(b_pow(n) == 0x1_0000_0000_0000_0000 * b_pow((n - 1) as nat));
        assert(0x1_0000_0000_0000_0000 * b_pow((n - 1) as nat) >= 1 * b_pow((n - 1) as nat))
            by (nonlinear_arith)
            requires
                b_pow((n - 1) as nat) >= 1,
        ;
    }
}

/// One multiply-accumulate step fits in 128 bits.
proof fn lemma_mul_add_fits(a: u64, m: u64, c: u64)
    ensures
        0 <= (a as int) * (m as int) + c <= u128::MAX,
{
    assert(0 <= (a as int) * (m as int) + c <= u128::MAX) by (nonlinear_arith)
        requires
            a <= u64::MAX && m <= u64::MAX && c <= u64::MAX,
    ;
}

/// If two equally long sequences agree strictly above `k` and differ in
/// favour of `b` at `k`, then `b` has the larger value.
proof fn lemma_val_lt_at(a: Seq<u64>, b: Seq<u64>, k: int)
    requires
        a.len() == b.len(),
        0 <= k < a.len(),
        a[k] < b[k],
        forall|j: int| k < j < a.len() ==> a[j] == b[j],
    ensures
        limbs_val(a) < limbs_val(b),
    decreases a.len(),
{
    if k == a.len() - 1 {
        lemma_limbs_val_bound(a.drop_last());
        lemma_val_nonneg(b.drop_last());
        let n = (a.len() - 1) as nat;
        assert(a.last() * b_pow(n) + b_pow(n) <= b.last() * b_pow(n)) by (nonlinear_arith)
            requires
                (a.last() as int) + 1 <= b.last() as int && b_pow(n) >= 0,
        ;
        lemma_b_pow_pos(n);
    } else {
        lemma_val_lt_at(a.drop_last(), b.drop_last(), k);
        assert(a.last() == b.last());
    }
}

/// Exact comparison of two normalized big integers.
pub fn big_lt(a: &BigNum, b: &BigNum) -> (r: bool)
    requires
        a.wf(),
        b.wf(),
    ensures
        r == (a.val() < b.val()),
{
    let an = a.limbs.len();
    let bn = b.limbs.len();
    if an != bn {
        proof {
            if an < bn {
                lemma_limbs_val_bound(a.limbs@);
                lemma_limbs_val_lower(b.limbs@);
                lemma_b_pow_mono(an as nat, (bn - 1) as nat);
            } else {
                lemma_limbs_val_bound(b.limbs@);
                lemma_limbs_val_lower(a.limbs@);
                lemma_b_pow_mono(bn as nat, (an - 1) as nat);
            }
        }
        return an < bn;
    }
    let mut i: usize = an;
    loop
        invariant
            an == a.limbs@.len(),
            an == b.limbs@.len(),
            i <= an,
            forall|j: int| i <= j < an ==> a.limbs@[j] == b.limbs@[j],
        decreases i,
    {
        if i == 0 {
            proof {
                assert(a.limbs@ =~= b.limbs@);
            }
            return false;
        }
        i -= 1;
        let x = a.limbs[i];
        let y = b.limbs[i];
        if x < y {
            proof {
                lemma_val_lt_at(a.limbs@, b.limbs@, i as int);
            }
            return true;
        }
        if x > y {
            proof {
                lemma_val_lt_at(b.limbs@, a.limbs@, i as int);
            }
            return false;
        }
    }
}

/// Exact equality of two normalized big integers.
pub fn big_eq(a: &BigNum, b: &BigNum) -> (r: bool)
    requires
        a.wf(),
        b.wf(),
    ensures
        r == (a.val() == b.val()),
{
    let lt = big_lt(a, b);
    let gt = big_lt(b, a);
    !lt && !gt
}

} // verus!
