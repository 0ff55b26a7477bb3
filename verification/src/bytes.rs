//! Little-endian byte strings as natural numbers: the arithmetic model that
//! the codec's contracts are stated over, with the verified comparison,
//! doubling and conversion routines the codec needs.

use vstd::prelude::*;

verus! {

/// The natural number that a little-endian byte string denotes.
pub open spec fn le_nat(s: Seq<u8>) -> nat
    decreases s.len(),
{
    if s.len() == 0 {
        0
    } else {
        s[0] as nat + 256 * le_nat(s.subrange(1, s.len() as int))
    }
}

/// 256 to the power `n`.
pub open spec fn pow256(n: nat) -> nat
    decreases n,
{
    if n == 0 {
        1
    } else {
        256 * pow256((n - 1) as nat)
    }
}

pub proof fn lemma_pow256_pos(n: nat)
    ensures
        pow256(n) >= 1,
    decreases n,
{
    if n > 0 {
        lemma_pow256_pos((n - 1) as nat);
    }
}

pub proof fn lemma_pow256_adds(a: nat, b: nat)
    ensures
        pow256(a + b) == pow256(a) * pow256(b),
    decreases a,
{
    if a == 0 {
        assert(pow256(a) == 1);
        assert(pow256(a) * pow256(b) == 1 * pow256(b)) by (nonlinear_arith)
            requires
                pow256(a) == 1,
        ;
    } else {
        let a1 = (a - 1) as nat;
        lemma_pow256_adds(a1, b);
        assert((a + b - 1) as nat == a1 + b);
        assert(pow256(a + b) == 256 * pow256(a1 + b));
        assert(pow256(a) == 256 * pow256(a1));
        assert(256 * (pow256(a1) * pow256(b)) == (256 * pow256(a1)) * pow256(b))
            by (nonlinear_arith);
        assert(pow256(a + b) == 256 * (pow256(a1) * pow256(b)));
    }
}

/// The value of a one-byte string is its byte.
pub proof fn lemma_le_nat_single(b: u8)
    ensures
        le_nat(seq![b]) == b as nat,
{
    let s = seq![b];
    assert(s.subrange(1, 1) =~= Seq::<u8>::empty());
    assert(le_nat(s.subrange(1, 1)) == 0);
}

pub proof fn lemma_pow256_8()
    ensures
        pow256(8) == 0x10000000000000000,
{
    reveal_with_fuel(pow256, 9);
}

pub proof fn lemma_le_nat_bound(s: Seq<u8>)
    ensures
        le_nat(s) < pow256(s.len()),
    decreases s.len(),
{
    if s.len() > 0 {
        let t = s.subrange(1, s.len() as int);
        lemma_le_nat_bound(t);
        assert(s[0] as nat + 256 * le_nat(t) < 256 * pow256(t.len())) by (nonlinear_arith)
            requires
                s[0] as nat <= 255,
                le_nat(t) < pow256(t.len()),
        ;
        assert(le_nat(s) == s[0] as nat + 256 * le_nat(t));
        assert(pow256(s.len()) == 256 * pow256(t.len()));
    }
}

/// Splitting a byte string at position `i` splits its value.
pub proof fn lemma_le_nat_split(s: Seq<u8>, i: int)
    requires
        0 <= i <= s.len(),
    ensures
        le_nat(s) == le_nat(s.subrange(0, i)) + pow256(i as nat) * le_nat(
            s.subrange(i, s.len() as int),
        ),
    decreases i,
{
    if i == 0 {
        assert(s.subrange(0, 0) =~= Seq::<u8>::empty());
        assert(s.subrange(0, s.len() as int) =~= s);
        assert(pow256(i as nat) == 1);
        assert(pow256(i as nat) * le_nat(s.subrange(i, s.len() as int)) == le_nat(
            s.subrange(i, s.len() as int),
        )) by (nonlinear_arith)
            requires
                pow256(i as nat) == 1,
        ;
    } else {
        let t = s.subrange(1, s.len() as int);
        lemma_le_nat_split(t, i - 1);
        let head = s.subrange(0, i);
        assert(t.subrange(0, i - 1) =~= head.subrange(1, i));
        assert(t.subrange(i - 1, t.len() as int) =~= s.subrange(i, s.len() as int));
        let lo = le_nat(t.subrange(0, i - 1));
        let hi = le_nat(s.subrange(i, s.len() as int));
        assert(le_nat(t) == lo + pow256((i - 1) as nat) * hi);
        assert(le_nat(s) == s[0] as nat + 256 * le_nat(t));
        assert(head[0] == s[0]);
        assert(le_nat(head) == head[0] as nat + 256 * le_nat(head.subrange(1, i)));
        assert(le_nat(head) == s[0] as nat + 256 * lo);
        assert(256 * (lo + pow256((i - 1) as nat) * hi) == 256 * lo + (256 * pow256(
            (i - 1) as nat,
        )) * hi) by (nonlinear_arith);
        assert(pow256(i as nat) == 256 * pow256((i - 1) as nat));
        assert(le_nat(s) == le_nat(head) + pow256(i as nat) * hi);
    }
}

/// Appending byte strings adds their values with a positional shift.
pub proof fn lemma_le_nat_append(a: Seq<u8>, b: Seq<u8>)
    ensures
        le_nat(a + b) == le_nat(a) + pow256(a.len()) * le_nat(b),
{
    lemma_le_nat_split(a + b, a.len() as int);
    assert((a + b).subrange(0, a.len() as int) =~= a);
    assert((a + b).subrange(a.len() as int, (a + b).len() as int) =~= b);
}

/// A byte string denotes zero exactly when every byte is zero.
pub proof fn lemma_le_nat_zero(s: Seq<u8>)
    ensures
        (le_nat(s) == 0) <==> (forall|j: int| 0 <= j < s.len() ==> s[j] == 0u8),
    decreases s.len(),
{
    if s.len() > 0 {
        let t = s.subrange(1, s.len() as int);
        lemma_le_nat_zero(t);
        if le_nat(s) == 0 {
            assert(forall|j: int| 0 <= j < s.len() ==> s[j] == 0u8) by {
                assert(forall|j: int| 1 <= j < s.len() ==> s[j] == t[j - 1]);
            }
        } else {
            if forall|j: int| 0 <= j < s.len() ==> s[j] == 0u8 {
                assert(forall|j: int| 0 <= j < t.len() ==> t[j] == 0u8);
                assert(false);
            }
        }
    }
}

/// Two byte strings of one length with one value are the same string.
pub proof fn lemma_le_nat_inj(a: Seq<u8>, b: Seq<u8>)
    requires
        a.len() == b.len(),
        le_nat(a) == le_nat(b),
    ensures
        a =~= b,
    decreases a.len(),
{
    if a.len() > 0 {
        let ta = a.subrange(1, a.len() as int);
        let tb = b.subrange(1, b.len() as int);
        assert(a[0] as nat + 256 * le_nat(ta) == b[0] as nat + 256 * le_nat(tb));
        assert(a[0] == b[0] && le_nat(ta) == le_nat(tb)) by (nonlinear_arith)
            requires
                a[0] as nat + 256 * le_nat(ta) == b[0] as nat + 256 * le_nat(tb),
                a[0] as nat <= 255,
                b[0] as nat <= 255,
        ;
        lemma_le_nat_inj(ta, tb);
        assert(forall|j: int| 1 <= j < a.len() ==> a[j] == ta[j - 1] && b[j] == tb[j - 1]);
    }
}

/// If the strings agree above position `i` and differ there, the one with the
/// larger byte at `i` denotes the larger number.
pub proof fn lemma_le_nat_msd(a: Seq<u8>, b: Seq<u8>, i: int)
    requires
        a.len() == b.len(),
        0 <= i < a.len(),
        forall|j: int| i < j < a.len() ==> a[j] == b[j],
        (a[i] as nat) < (b[i] as nat),
    ensures
        le_nat(a) < le_nat(b),
{
    let n = a.len() as int;
    lemma_le_nat_split(a, i);
    lemma_le_nat_split(b, i);
    let sa = a.subrange(i, n);
    let sb = b.subrange(i, n);
    assert(sa.subrange(1, sa.len() as int) =~= sb.subrange(1, sb.len() as int));
    let c = le_nat(sa.subrange(1, sa.len() as int));
    assert(le_nat(sa) == a[i] as nat + 256 * c);
    assert(le_nat(sb) == b[i] as nat + 256 * c);
    lemma_le_nat_bound(a.subrange(0, i));
    assert(pow256(i as nat) >= 1) by { lemma_pow256_pos(i as nat); }
    assert(le_nat(a.subrange(0, i)) + pow256(i as nat) * (a[i] as nat + 256 * c) < le_nat(
        b.subrange(0, i),
    ) + pow256(i as nat) * (b[i] as nat + 256 * c)) by (nonlinear_arith)
        requires
            le_nat(a.subrange(0, i)) < pow256(i as nat),
            (a[i] as nat) < (b[i] as nat),
            pow256(i as nat) >= 1,
    ;
}

/// The canonical little-endian byte string of length `n` for `v`.
pub open spec fn le_bytes_of(v: nat, n: nat) -> Seq<u8>
    decreases n,
{
    if n == 0 {
        Seq::empty()
    } else {
        seq![(v % 256) as u8] + le_bytes_of(v / 256, (n - 1) as nat)
    }
}

pub proof fn lemma_le_bytes_of_len(v: nat, n: nat)
    ensures
        le_bytes_of(v, n).len() == n,
    decreases n,
{
    if n > 0 {
        lemma_le_bytes_of_len(v / 256, (n - 1) as nat);
    }
}

/// Reconstructing a string from its own value gives the string back.
pub proof fn lemma_le_bytes_of_le_nat(s: Seq<u8>)
    ensures
        le_bytes_of(le_nat(s), s.len()) =~= s,
    decreases s.len(),
{
    if s.len() > 0 {
        let t = s.subrange(1, s.len() as int);
        lemma_le_bytes_of_le_nat(t);
        let v = le_nat(s);
        assert(v % 256 == s[0] as nat && v / 256 == le_nat(t)) by (nonlinear_arith)
            requires
                v == s[0] as nat + 256 * le_nat(t),
                s[0] as nat <= 255,
        ;
        assert(le_bytes_of(v, s.len()) =~= seq![s[0]] + t);
        assert(seq![s[0]] + t =~= s);
    }
}

/// The value of the canonical string is the value, for values in range.
pub proof fn lemma_le_nat_of_le_bytes(v: nat, n: nat)
    requires
        v < pow256(n),
    ensures
        le_nat(le_bytes_of(v, n)) == v,
    decreases n,
{
    if n > 0 {
        assert(v / 256 < pow256((n - 1) as nat)) by (nonlinear_arith)
            requires
                v < 256 * pow256((n - 1) as nat),
        ;
        lemma_le_nat_of_le_bytes(v / 256, (n - 1) as nat);
        let s = le_bytes_of(v, n);
        assert(s.subrange(1, s.len() as int) =~= le_bytes_of(v / 256, (n - 1) as nat));
        assert(s[0] as nat + 256 * (v / 256) == v) by (nonlinear_arith)
            requires
                s[0] as nat == v % 256,
        ;
    }
}

/// Byte-for-byte copy.
pub fn copy_bytes(v: &Vec<u8>) -> (r: Vec<u8>)
    ensures
        r@ =~= v@,
{
    let mut r: Vec<u8> = Vec::new();
    let mut i: usize = 0;
    while i < v.len()
        invariant
            i <= v@.len(),
            r@ =~= v@.subrange(0, i as int),
        decreases v@.len() - i,
    {
        r.push(v[i]);
        i = i + 1;
        assert(r@ =~= v@.subrange(0, i as int));
    }
    assert(v@.subrange(0, v@.len() as int) =~= v@);
    r
}

/// Copies the bytes of the half-open range `from..to`.
pub fn copy_range(v: &Vec<u8>, from: usize, to: usize) -> (r: Vec<u8>)
    requires
        from <= to <= v@.len(),
    ensures
        r@ =~= v@.subrange(from as int, to as int),
{
    let mut r: Vec<u8> = Vec::new();
    let mut i: usize = from;
    proof {
        assert(r@ =~= v@.subrange(from as int, from as int));
    }
    while i < to
        invariant
            from <= i <= to,
            to <= v@.len(),
            r@ =~= v@.subrange(from as int, i as int),
        decreases to - i,
    {
        r.push(v[i]);
        i = i + 1;
        assert(r@ =~= v@.subrange(from as int, i as int));
    }
    r
}

/// Byte-string equality.
pub fn bytes_eq(a: &Vec<u8>, b: &Vec<u8>) -> (r: bool)
    ensures
        r == (a@ =~= b@),
{
    if a.len() != b.len() {
        return false;
    }
    let mut i: usize = 0;
    while i < a.len()
        invariant
            i <= a@.len(),
            a@.len() == b@.len(),
            forall|j: int| 0 <= j < i ==> a@[j] == b@[j],
        decreases a@.len() - i,
    {
        if a[i] != b[i] {
            return false;
        }
        i = i + 1;
    }
    assert(a@ =~= b@);
    true
}

/// Strict numeric order on equal-length little-endian strings.
pub fn le_bytes_lt(a: &Vec<u8>, b: &Vec<u8>) -> (r: bool)
    requires
        a@.len() == b@.len(),
    ensures
        r == (le_nat(a@) < le_nat(b@)),
{
    let n = a.len();
    let mut i: usize = n;
    while i > 0
        invariant
            i <= n,
            n == a@.len(),
            n == b@.len(),
            forall|j: int| i <= j < n ==> a@[j] == b@[j],
        decreases i,
    {
        i = i - 1;
        if a[i] != b[i] {
            proof {
                if (a@[i as int] as nat) < (b@[i as int] as nat) {
                    lemma_le_nat_msd(a@, b@, i as int);
                } else {
                    lemma_le_nat_msd(b@, a@, i as int);
                }
            }
            return a[i] < b[i];
        }
    }
    proof {
        assert(a@ =~= b@);
    }
    false
}

/// True exactly when every byte is zero.
pub fn bytes_all_zero(a: &Vec<u8>) -> (r: bool)
    ensures
        r == (le_nat(a@) == 0),
{
    let mut i: usize = 0;
    let mut ok = true;
    while i < a.len()
        invariant
            i <= a@.len(),
            ok == (forall|j: int| 0 <= j < i ==> a@[j] == 0u8),
        decreases a@.len() - i,
    {
        if a[i] != 0 {
            ok = false;
        }
        i = i + 1;
    }
    proof {
        lemma_le_nat_zero(a@);
    }
    ok
}

/// Doubling: returns a string one byte longer denoting twice the value.
pub fn double_bytes(a: &Vec<u8>) -> (r: Vec<u8>)
    ensures
        r@.len() == a@.len() + 1,
        le_nat(r@) == 2 * le_nat(a@),
{
    let n = a.len();
    let mut r: Vec<u8> = Vec::new();
    let mut carry: u16 = 0;
    let mut i: usize = 0;
    proof {
        assert(a@.subrange(0, 0) =~= Seq::<u8>::empty());
    }
    while i < n
        invariant
            i <= n,
            n == a@.len(),
            r@.len() == i,
            carry <= 1,
            2 * le_nat(a@.subrange(0, i as int)) == le_nat(r@) + pow256(i as nat) * (carry as nat),
        decreases n - i,
    {
        let ghost prefix = a@.subrange(0, i as int);
        let ghost old_r = r@;
        let ghost old_carry = carry as nat;
        let d: u16 = 2 * (a[i] as u16) + carry;
        let low: u8 = (d % 256) as u8;
        carry = d / 256;
        r.push(low);
        i = i + 1;
        proof {
            let prefix2 = a@.subrange(0, i as int);
            assert(prefix2.drop_last() =~= prefix);
            lemma_le_nat_split(prefix2, i - 1);
            assert(prefix2.subrange(0, i - 1) =~= prefix);
            assert(prefix2.subrange(i - 1, i as int) =~= seq![a@[i - 1]]);
            lemma_le_nat_single(a@[i - 1]);
            assert(r@ =~= old_r + seq![low]);
            lemma_le_nat_append(old_r, seq![low]);
            lemma_le_nat_single(low);
            assert(d as nat == low as nat + 256 * (carry as nat));
            // 2 * (prefix + pow(i-1)*a[i-1])
            //   == r_old + pow(i-1)*old_carry + pow(i-1)*2*a[i-1]
            //   == r_old + pow(i-1)*(low + 256*carry)
            //   == r_new + pow(i)*carry
            assert(2 * le_nat(prefix2) == le_nat(old_r) + pow256((i - 1) as nat) * (old_carry + 2
                * (a@[i - 1] as nat))) by (nonlinear_arith)
                requires
                    le_nat(prefix2) == le_nat(prefix) + pow256((i - 1) as nat) * (a@[i
                        - 1] as nat),
                    2 * le_nat(prefix) == le_nat(old_r) + pow256((i - 1) as nat) * old_carry,
            ;
            assert(le_nat(old_r) + pow256((i - 1) as nat) * (old_carry + 2 * (a@[i - 1] as nat))
                == le_nat(r@) + pow256(i as nat) * (carry as nat)) by (nonlinear_arith)
                requires
                    old_carry + 2 * (a@[i - 1] as nat) == low as nat + 256 * (carry as nat),
                    le_nat(r@) == le_nat(old_r) + pow256((i - 1) as nat) * (low as nat),
                    pow256(i as nat) == 256 * pow256((i - 1) as nat),
            ;
        }
    }
    let last: u8 = carry as u8;
    let ghost old_r = r@;
    r.push(last);
    proof {
        assert(a@.subrange(0, n as int) =~= a@);
        assert(r@ =~= old_r + seq![last]);
        lemma_le_nat_append(old_r, seq![last]);
        lemma_le_nat_single(last);
    }
    r
}

/// The value of a sequence of 64-bit limbs, least significant first.
pub open spec fn limbs_nat(s: Seq<u64>) -> nat
    decreases s.len(),
{
    if s.len() == 0 {
        0
    } else {
        s[0] as nat + 0x10000000000000000 * limbs_nat(s.subrange(1, s.len() as int))
    }
}

/// Little-endian bytes of one 64-bit limb.
pub fn limb_to_le_bytes(x: u64) -> (r: Vec<u8>)
    ensures
        r@.len() == 8,
        le_nat(r@) == x as nat,
{
    let mut r: Vec<u8> = Vec::new();
    let mut rest: u64 = x;
    let mut i: usize = 0;
    proof {
        assert(le_nat(r@) == 0);
        assert(pow256(0) == 1);
        assert(pow256(0) * (rest as nat) == rest as nat) by (nonlinear_arith)
            requires
                pow256(0) == 1,
        ;
    }
    while i < 8
        invariant
            i <= 8,
            r@.len() == i,
            le_nat(r@) + pow256(i as nat) * (rest as nat) == x as nat,
        decreases 8 - i,
    {
        let ghost old_r = r@;
        let ghost old_rest = rest as nat;
        let low: u8 = (rest % 256) as u8;
        rest = rest / 256;
        r.push(low);
        i = i + 1;
        proof {
            assert(r@ =~= old_r + seq![low]);
            lemma_le_nat_append(old_r, seq![low]);
            lemma_le_nat_single(low);
            assert(le_nat(old_r) + pow256((i - 1) as nat) * (low as nat) + pow256(i as nat) * (
            rest as nat) == le_nat(old_r) + pow256((i - 1) as nat) * old_rest) by (nonlinear_arith)
                requires
                    low as nat + 256 * (rest as nat) == old_rest,
                    pow256(i as nat) == 256 * pow256((i - 1) as nat),
            ;
        }
    }
    proof {
        assert(rest == 0) by {
            lemma_pow256_pos(8);
            if rest as nat >= 1 {
                assert(pow256(8) * (rest as nat) >= pow256(8) * 1) by (nonlinear_arith)
                    requires
                        rest as nat >= 1,
                        pow256(8) >= 1,
                ;
                lemma_pow256_8();
            }
        }
    }
    r
}

/// Fixed-width little-endian encoding of a limb sequence, zero-padded to
/// `width` bytes; the limbs must fit.
pub fn limbs_to_le_bytes(s: &Vec<u64>, width: usize) -> (r: Vec<u8>)
    requires
        8 * s@.len() <= width,
    ensures
        r@.len() == width,
        le_nat(r@) == limbs_nat(s@),
{
    let mut r: Vec<u8> = Vec::new();
    let mut i: usize = 0;
    proof {
        assert(s@.subrange(0, 0) =~= Seq::<u64>::empty());
    }
    while i < s.len()
        invariant
            i <= s@.len(),
            8 * s@.len() <= width,
            r@.len() == 8 * i,
            le_nat(r@) == limbs_nat(s@.subrange(0, i as int)),
        decreases s@.len() - i,
    {
        let ghost old_r = r@;
        let limb_bytes = limb_to_le_bytes(s[i]);
        let mut k: usize = 0;
        while k < 8
            invariant
                k <= 8,
                limb_bytes@.len() == 8,
                r@ =~= old_r + limb_bytes@.subrange(0, k as int),
            decreases 8 - k,
        {
            r.push(limb_bytes[k]);
            k = k + 1;
            assert(r@ =~= old_r + limb_bytes@.subrange(0, k as int));
        }
        i = i + 1;
        proof {
            assert(limb_bytes@.subrange(0, 8) =~= limb_bytes@);
            assert(r@ =~= old_r + limb_bytes@);
            lemma_le_nat_append(old_r, limb_bytes@);
            let prefix2 = s@.subrange(0, i as int);
            lemma_limbs_split_last(prefix2);
            assert(prefix2.subrange(0, i - 1) =~= s@.subrange(0, i - 1));
            lemma_pow256_8i((i - 1) as nat);
            assert(le_nat(old_r) + pow256(old_r.len()) * (s@[i - 1] as nat) == limbs_nat(prefix2))
                by (nonlinear_arith)
                requires
                    le_nat(old_r) == limbs_nat(s@.subrange(0, i - 1)),
                    limbs_nat(prefix2) == limbs_nat(s@.subrange(0, i - 1)) + pow256_64(
                        (i - 1) as nat,
                    ) * (s@[i - 1] as nat),
                    pow256(old_r.len()) == pow256_64((i - 1) as nat),
            ;
        }
    }
    proof {
        assert(s@.subrange(0, s@.len() as int) =~= s@);
    }
    let ghost val = le_nat(r@);
    while r.len() < width
        invariant
            r@.len() <= width,
            le_nat(r@) == val,
        decreases width - r@.len(),
    {
        let ghost old_r = r@;
        r.push(0u8);
        proof {
            assert(r@ =~= old_r + seq![0u8]);
            lemma_le_nat_append(old_r, seq![0u8]);
            lemma_le_nat_single(0u8);
        }
    }
    r
}

/// 2^64 to the power `n`.
pub open spec fn pow256_64(n: nat) -> nat
    decreases n,
{
    if n == 0 {
        1
    } else {
        0x10000000000000000 * pow256_64((n - 1) as nat)
    }
}

pub proof fn lemma_pow256_8i(i: nat)
    ensures
        pow256(8 * i) == pow256_64(i),
    decreases i,
{
    if i > 0 {
        lemma_pow256_8i((i - 1) as nat);
        lemma_pow256_adds(8, 8 * (i - 1) as nat);
        assert(8 * i == 8 + 8 * (i - 1) as nat);
        lemma_pow256_8();
    }
}

pub proof fn lemma_limbs_split_last(s: Seq<u64>)
    requires
        s.len() > 0,
    ensures
        limbs_nat(s) == limbs_nat(s.subrange(0, s.len() - 1)) + pow256_64((s.len() - 1) as nat) * (
        s[s.len() - 1] as nat),
    decreases s.len(),
{
    let n = s.len() as int;
    if s.len() == 1 {
        assert(s.subrange(0, 0) =~= Seq::<u64>::empty());
        assert(s.subrange(1, 1) =~= Seq::<u64>::empty());
        assert(limbs_nat(s) == s[0] as nat + 0x10000000000000000 * limbs_nat(s.subrange(1, 1)));
        assert(limbs_nat(s.subrange(1, 1)) == 0);
        assert(pow256_64(0) == 1);
        assert(pow256_64(0) * (s[0] as nat) == s[0] as nat) by (nonlinear_arith)
            requires
                pow256_64(0) == 1,
        ;
    } else {
        let t = s.subrange(1, n);
        lemma_limbs_split_last(t);
        assert(t.subrange(0, t.len() - 1) =~= s.subrange(0, n - 1).subrange(1, n - 1));
        assert(t[t.len() - 1] == s[n - 1]);
        let head = s.subrange(0, n - 1);
        assert(limbs_nat(head) == s[0] as nat + 0x10000000000000000 * limbs_nat(
            t.subrange(0, t.len() - 1),
        ));
        assert(limbs_nat(s) == s[0] as nat + 0x10000000000000000 * (limbs_nat(
            t.subrange(0, t.len() - 1),
        ) + pow256_64((t.len() - 1) as nat) * (s[n - 1] as nat)));
        assert(0x10000000000000000 * (limbs_nat(t.subrange(0, t.len() - 1)) + pow256_64(
            (t.len() - 1) as nat,
        ) * (s[n - 1] as nat)) == 0x10000000000000000 * limbs_nat(t.subrange(0, t.len() - 1)) + (
        0x10000000000000000 * pow256_64((t.len() - 1) as nat)) * (s[n - 1] as nat))
            by (nonlinear_arith);
        assert(pow256_64((n - 1) as nat) == 0x10000000000000000 * pow256_64((n - 2) as nat));
        assert(limbs_nat(s) == limbs_nat(head) + pow256_64((n - 1) as nat) * (s[n - 1] as nat));
    }
}

} // verus!
