//! The mathematical model of a word: unsigned and two's-complement values of
//! a bit string, the ripple-carry adder as a recursive function on bit
//! strings, and the lemmas relating them.
//!
//! Throughout, a bit string is a `Seq<bool>` whose index 0 is the
//! most-significant bit; `true` stands for a 1 bit.

use vstd::prelude::*;
use vstd::arithmetic::power2::*;
use vstd::arithmetic::power::{
    pow, lemma_pow0, lemma_pow1, lemma_pow_adds, lemma_pow_increases, lemma_pow_positive,
};
use vstd::arithmetic::div_mod::{lemma_fundamental_div_mod, lemma_fundamental_div_mod_converse};

verus! {

/// The numeric value of one bit.
pub open spec fn bitval(b: bool) -> nat {
    if b {
        1nat
    } else {
        0nat
    }
}

/// The unsigned value of a bit string, most-significant bit first.
pub open spec fn uval(s: Seq<bool>) -> nat
    decreases s.len(),
{
    if s.len() == 0 {
        0
    } else {
        2 * uval(s.drop_last()) + bitval(s.last())
    }
}

/// The two's-complement signed value of a bit string; index 0 is the sign
/// bit (1 means negative).
pub open spec fn ival(s: Seq<bool>) -> int {
    if s.len() > 0 && s[0] {
        uval(s) - pow2(s.len())
    } else {
        uval(s) as int
    }
}

/// The unsigned value of a bit string is below `2^len`.
pub proof fn lemma_uval_bound(s: Seq<bool>)
    ensures
        uval(s) < pow2(s.len()),
    decreases s.len(),
{
    if s.len() == 0 {
        lemma2_to64();
    } else {
        lemma_uval_bound(s.drop_last());
        lemma_pow2_unfold(s.len());
    }
}

/// The unsigned value of a concatenation: the left part is weighted by
/// `2^(length of the right part)`.
pub proof fn lemma_uval_concat(a: Seq<bool>, b: Seq<bool>)
    ensures
        uval(a + b) == uval(a) * pow2(b.len()) + uval(b),
    decreases b.len(),
{
    if b.len() == 0 {
        assert(a + b =~= a);
        lemma2_to64();
        assert(pow2(0) == 1);
        assert(uval(a) * 1 == uval(a)) by (nonlinear_arith);
        assert(uval(a + b) == uval(a) * pow2(b.len()) + uval(b));
    } else {
        let n = b.len();
        let u = uval(a) as int;
        let p = pow2((n - 1) as nat) as int;
        lemma_uval_concat(a, b.drop_last());
        assert((a + b).drop_last() =~= a + b.drop_last());
        assert((a + b).last() == b.last());
        lemma_pow2_unfold(n);
        assert(uval(a + b) == 2 * uval(a + b.drop_last()) + bitval(b.last()));
        assert(uval(a + b.drop_last()) == u * p + uval(b.drop_last()));
        assert(uval(b) == 2 * uval(b.drop_last()) + bitval(b.last()));
        assert(2 * (u * p) == u * (2 * p)) by (nonlinear_arith);
        assert(uval(a + b) == u * (2 * p) + uval(b));
        assert(pow2(n) == 2 * p);
        assert(u * (2 * p) >= 0) by (nonlinear_arith)
            requires
                u >= 0,
                p >= 0,
        ;
        assert(uval(a) * pow2(b.len()) == u * (2 * p));
    }
}

/// Splitting a bit string at position `i`: the unsigned value decomposes
/// into prefix and suffix.
pub proof fn lemma_uval_split(s: Seq<bool>, i: int)
    requires
        0 <= i <= s.len(),
    ensures
        uval(s) == uval(s.subrange(0, i)) * pow2((s.len() - i) as nat) + uval(
            s.subrange(i, s.len() as int),
        ),
{
    assert(s =~= s.subrange(0, i) + s.subrange(i, s.len() as int));
    lemma_uval_concat(s.subrange(0, i), s.subrange(i, s.len() as int));
}

/// The most-significant bit carries weight `2^(len-1)` over the rest.
pub proof fn lemma_uval_msb(s: Seq<bool>)
    requires
        s.len() > 0,
    ensures
        uval(s) == bitval(s[0]) * pow2((s.len() - 1) as nat) + uval(s.subrange(1, s.len() as int)),
        uval(s.subrange(1, s.len() as int)) < pow2((s.len() - 1) as nat),
{
    lemma_uval_split(s, 1);
    let t = s.subrange(0, 1);
    assert(t.len() == 1);
    assert(t.last() == s[0]);
    assert(t.drop_last() =~= Seq::<bool>::empty());
    assert(uval(t.drop_last()) == 0);
    assert(uval(t) == bitval(s[0]));
    lemma_uval_bound(s.subrange(1, s.len() as int));
}

/// Two bit strings of equal length and equal unsigned value are equal.
pub proof fn lemma_uval_injective(a: Seq<bool>, b: Seq<bool>)
    requires
        a.len() == b.len(),
        uval(a) == uval(b),
    ensures
        a == b,
    decreases a.len(),
{
    if a.len() == 0 {
        assert(a =~= b);
    } else {
        assert(2 * uval(a.drop_last()) + bitval(a.last()) == 2 * uval(b.drop_last()) + bitval(
            b.last(),
        ));
        assert(a.last() == b.last());
        lemma_uval_injective(a.drop_last(), b.drop_last());
        assert(a =~= a.drop_last().push(a.last()));
        assert(b =~= b.drop_last().push(b.last()));
    }
}

/// The sum bit of a full adder: XOR of the two operand bits and the carry.
pub open spec fn full_add_sum(a: bool, b: bool, c: bool) -> bool {
    (a != b) != c
}

/// The carry bit of a full adder: the majority of the three inputs.
pub open spec fn full_add_carry(a: bool, b: bool, c: bool) -> bool {
    (a && b) || (a && c) || (b && c)
}

/// The ripple-carry sum of two equal-length bit strings with carry-in `cin`
/// at the least-significant end; carries propagate right to left.
pub open spec fn add_bits(a: Seq<bool>, b: Seq<bool>, cin: bool) -> Seq<bool>
    decreases a.len(),
{
    if a.len() == 0 {
        Seq::empty()
    } else {
        add_bits(
            a.drop_last(),
            b.drop_last(),
            full_add_carry(a.last(), b.last(), cin),
        ).push(full_add_sum(a.last(), b.last(), cin))
    }
}

/// The carry out of the most-significant end of the ripple-carry sum.
pub open spec fn add_carry(a: Seq<bool>, b: Seq<bool>, cin: bool) -> bool
    decreases a.len(),
{
    if a.len() == 0 {
        cin
    } else {
        add_carry(a.drop_last(), b.drop_last(), full_add_carry(a.last(), b.last(), cin))
    }
}

/// The ripple-carry adder computes addition: the sum bits plus the weighted
/// carry-out equal the sum of the operand values and the carry-in.
pub proof fn lemma_add_bits_value(a: Seq<bool>, b: Seq<bool>, cin: bool)
    requires
        a.len() == b.len(),
    ensures
        add_bits(a, b, cin).len() == a.len(),
        uval(add_bits(a, b, cin)) + pow2(a.len()) * bitval(add_carry(a, b, cin)) == uval(a) + uval(
            b,
        ) + bitval(cin),
    decreases a.len(),
{
    if a.len() == 0 {
        lemma2_to64();
    } else {
        let n = a.len();
        let c1 = full_add_carry(a.last(), b.last(), cin);
        lemma_add_bits_value(a.drop_last(), b.drop_last(), c1);
        let r = add_bits(a, b, cin);
        let rr = add_bits(a.drop_last(), b.drop_last(), c1);
        assert(r == rr.push(full_add_sum(a.last(), b.last(), cin)));
        assert(r.drop_last() =~= rr);
        assert(r.last() == full_add_sum(a.last(), b.last(), cin));
        assert(uval(r) == 2 * uval(rr) + bitval(full_add_sum(a.last(), b.last(), cin)));
        assert(2 * bitval(c1) + bitval(full_add_sum(a.last(), b.last(), cin)) == bitval(a.last())
            + bitval(b.last()) + bitval(cin));
        let co = bitval(add_carry(a, b, cin)) as int;
        assert(add_carry(a, b, cin) == add_carry(a.drop_last(), b.drop_last(), c1));
        lemma_pow2_unfold(n);
        let p = pow2((n - 1) as nat) as int;
        assert(2 * (p * co) == (2 * p) * co) by (nonlinear_arith);
        assert(pow2(n) * co == 2 * (p * co));
    }
}

/// Element-wise AND of two equal-length bit strings.
pub open spec fn and_seq(a: Seq<bool>, b: Seq<bool>) -> Seq<bool> {
    Seq::new(a.len(), |i: int| a[i] && b[i])
}

/// Element-wise OR of two equal-length bit strings.
pub open spec fn or_seq(a: Seq<bool>, b: Seq<bool>) -> Seq<bool> {
    Seq::new(a.len(), |i: int| a[i] || b[i])
}

/// Element-wise XOR of two equal-length bit strings.
pub open spec fn xor_seq(a: Seq<bool>, b: Seq<bool>) -> Seq<bool> {
    Seq::new(a.len(), |i: int| a[i] != b[i])
}

/// A single bit broadcast as a mask over a bit string: passes the string
/// through when the bit is 1, zeroes it when the bit is 0.
pub open spec fn mask_seq(a: Seq<bool>, m: bool) -> Seq<bool> {
    Seq::new(a.len(), |i: int| a[i] && m)
}

/// The masked-select idiom `(x AND NOT f) OR (y AND f)` chooses `y` when the
/// flag is 1 and `x` when it is 0, like a hardware multiplexer.
pub proof fn lemma_masked_select(x: Seq<bool>, y: Seq<bool>, f: bool)
    requires
        x.len() == y.len(),
    ensures
        or_seq(mask_seq(x, !f), mask_seq(y, f)) == (if f {
            y
        } else {
            x
        }),
{
    if f {
        assert(or_seq(mask_seq(x, !f), mask_seq(y, f)) =~= y);
    } else {
        assert(or_seq(mask_seq(x, !f), mask_seq(y, f)) =~= x);
    }
}

/// Masking with a constant one bit keeps every bit; with a constant zero
/// bit it clears every bit.
pub proof fn lemma_mask_const(a: Seq<bool>)
    ensures
        mask_seq(a, true) == a,
        mask_seq(a, false) == Seq::new(a.len(), |i: int| false),
{
    assert(mask_seq(a, true) =~= a);
    assert(mask_seq(a, false) =~= Seq::new(a.len(), |i: int| false));
}

/// The bitwise identities: AND with all ones is the identity, AND with all
/// zeros clears, OR with all zeros is the identity, and XOR of a word with
/// itself clears.
pub proof fn lemma_bitwise_identities(s: Seq<bool>)
    ensures
        and_seq(s, Seq::new(s.len(), |i: int| true)) == s,
        and_seq(s, Seq::new(s.len(), |i: int| false)) == Seq::new(s.len(), |i: int| false),
        or_seq(s, Seq::new(s.len(), |i: int| false)) == s,
        xor_seq(s, s) == Seq::new(s.len(), |i: int| false),
{
    assert(and_seq(s, Seq::new(s.len(), |i: int| true)) =~= s);
    assert(and_seq(s, Seq::new(s.len(), |i: int| false)) =~= Seq::new(s.len(), |i: int| false));
    assert(or_seq(s, Seq::new(s.len(), |i: int| false)) =~= s);
    assert(xor_seq(s, s) =~= Seq::new(s.len(), |i: int| false));
}

/// The ripple-carry sum is the same in either operand order.
pub proof fn lemma_add_bits_comm(a: Seq<bool>, b: Seq<bool>, cin: bool)
    requires
        a.len() == b.len(),
    ensures
        add_bits(a, b, cin) == add_bits(b, a, cin),
        add_carry(a, b, cin) == add_carry(b, a, cin),
    decreases a.len(),
{
    if a.len() > 0 {
        lemma_add_bits_comm(a.drop_last(), b.drop_last(), full_add_carry(a.last(), b.last(), cin));
    }
}

/// Unfolding the ripple-carry sum at the most-significant end: the first
/// sum bit combines the first operand bits with the carry out of the rest.
pub proof fn lemma_add_bits_front(a: Seq<bool>, b: Seq<bool>, cin: bool)
    requires
        a.len() == b.len(),
        a.len() > 0,
    ensures
        add_bits(a, b, cin) == seq![
            full_add_sum(a[0], b[0], add_carry(a.drop_first(), b.drop_first(), cin)),
        ] + add_bits(a.drop_first(), b.drop_first(), cin),
        add_carry(a, b, cin) == full_add_carry(
            a[0],
            b[0],
            add_carry(a.drop_first(), b.drop_first(), cin),
        ),
    decreases a.len(),
{
    let c1 = full_add_carry(a.last(), b.last(), cin);
    if a.len() == 1 {
        assert(a.drop_first() =~= Seq::<bool>::empty());
        assert(b.drop_first() =~= Seq::<bool>::empty());
        assert(a.drop_last() =~= Seq::<bool>::empty());
        assert(b.drop_last() =~= Seq::<bool>::empty());
        assert(a.last() == a[0] && b.last() == b[0]);
        assert(add_bits(a.drop_last(), b.drop_last(), c1) =~= Seq::<bool>::empty());
        assert(add_carry(a.drop_last(), b.drop_last(), c1) == c1);
        assert(add_carry(a.drop_first(), b.drop_first(), cin) == cin);
        assert(add_carry(a, b, cin) == c1);
        assert(add_bits(a, b, cin) == Seq::<bool>::empty().push(full_add_sum(a[0], b[0], cin)));
        assert(Seq::<bool>::empty().push(full_add_sum(a[0], b[0], cin)) =~= seq![
            full_add_sum(a[0], b[0], cin),
        ] + add_bits(a.drop_first(), b.drop_first(), cin));
    } else {
        lemma_add_bits_front(a.drop_last(), b.drop_last(), c1);
        assert(a.drop_last().drop_first() =~= a.drop_first().drop_last());
        assert(b.drop_last().drop_first() =~= b.drop_first().drop_last());
        assert(a.drop_last()[0] == a[0] && b.drop_last()[0] == b[0]);
        assert(a.drop_first().last() == a.last() && b.drop_first().last() == b.last());
        let ct = add_carry(a.drop_first().drop_last(), b.drop_first().drop_last(), c1);
        assert(add_carry(a.drop_first(), b.drop_first(), cin) == ct);
        assert(add_bits(a.drop_last(), b.drop_last(), c1) == seq![full_add_sum(a[0], b[0], ct)]
            + add_bits(a.drop_first().drop_last(), b.drop_first().drop_last(), c1));
        assert(add_bits(a, b, cin) == add_bits(a.drop_last(), b.drop_last(), c1).push(
            full_add_sum(a.last(), b.last(), cin),
        ));
        assert(add_bits(a.drop_first(), b.drop_first(), cin) == add_bits(
            a.drop_first().drop_last(),
            b.drop_first().drop_last(),
            c1,
        ).push(full_add_sum(a.last(), b.last(), cin)));
        assert((seq![full_add_sum(a[0], b[0], ct)] + add_bits(
            a.drop_first().drop_last(),
            b.drop_first().drop_last(),
            c1,
        )).push(full_add_sum(a.last(), b.last(), cin)) =~= seq![full_add_sum(a[0], b[0], ct)]
            + add_bits(a.drop_first().drop_last(), b.drop_first().drop_last(), c1).push(
            full_add_sum(a.last(), b.last(), cin),
        ));
        assert(add_carry(a, b, cin) == add_carry(a.drop_last(), b.drop_last(), c1));
    }
}

/// Appending a bit doubles the unsigned value and adds the new bit.
pub proof fn lemma_uval_push(s: Seq<bool>, b: bool)
    ensures
        uval(s.push(b)) == 2 * uval(s) + bitval(b),
{
    assert(s.push(b).drop_last() =~= s);
    assert(s.push(b).last() == b);
}

/// One's complement: every bit flipped.
pub open spec fn flip(s: Seq<bool>) -> Seq<bool> {
    s.map_values(|b: bool| !b)
}

/// The unsigned value of the one's complement: `2^len - 1 - uval(s)`.
pub proof fn lemma_uval_flip(s: Seq<bool>)
    ensures
        flip(s).len() == s.len(),
        uval(flip(s)) == pow2(s.len()) - 1 - uval(s),
    decreases s.len(),
{
    if s.len() == 0 {
        lemma2_to64();
    } else {
        lemma_uval_flip(s.drop_last());
        assert(flip(s).drop_last() =~= flip(s.drop_last()));
        assert(flip(s).last() == !s.last());
        assert(uval(flip(s)) == 2 * uval(flip(s.drop_last())) + bitval(!s.last()));
        lemma_pow2_unfold(s.len());
        lemma_uval_bound(s);
    }
}

/// The bit string of a 32-bit word holding the value 1: only the
/// least-significant bit is set.
pub open spec fn one_seq() -> Seq<bool> {
    Seq::new(32, |i: int| i == 31)
}

/// Two's-complement negation: one's complement followed by adding 1.
pub open spec fn neg_seq(s: Seq<bool>) -> Seq<bool> {
    add_bits(flip(s), one_seq(), false)
}

/// The unsigned value of `one_seq()` is 1.
pub proof fn lemma_one_seq_uval()
    ensures
        uval(one_seq()) == 1,
        one_seq().len() == 32,
{
    let s = one_seq();
    lemma_uval_split(s, 31);
    lemma_uval_all_false(s.subrange(0, 31));
    let t = s.subrange(31, 32);
    assert(t.len() == 1 && t.last());
    assert(t.drop_last() =~= Seq::<bool>::empty());
    assert(uval(t) == 1);
}

/// A bit string with no set bit has unsigned value 0.
pub proof fn lemma_uval_all_false(s: Seq<bool>)
    requires
        forall|j: int| 0 <= j < s.len() ==> !s[j],
    ensures
        uval(s) == 0,
    decreases s.len(),
{
    if s.len() > 0 {
        lemma_uval_all_false(s.drop_last());
    }
}

/// The unsigned value of the two's-complement negation: 0 stays 0, and any
/// other value becomes `2^32` minus it.
pub proof fn lemma_neg_uval(s: Seq<bool>)
    requires
        s.len() == 32,
    ensures
        neg_seq(s).len() == 32,
        uval(neg_seq(s)) == (if uval(s) == 0 {
            0nat
        } else {
            (pow2(32) - uval(s)) as nat
        }),
{
    lemma_one_seq_uval();
    lemma_uval_flip(s);
    lemma_add_bits_value(flip(s), one_seq(), false);
    lemma_uval_bound(neg_seq(s));
    lemma_uval_bound(s);
    let c = bitval(add_carry(flip(s), one_seq(), false));
    assert(uval(neg_seq(s)) + pow2(32) * c == pow2(32) - uval(s));
    assert(c == 0 || c == 1);
    if uval(s) == 0 {
        assert(pow2(32) * 1 == pow2(32));
        assert(pow2(32) * 0 == 0);
    } else {
        assert(pow2(32) * 1 == pow2(32));
        assert(pow2(32) * 0 == 0);
    }
}

/// Negation reflects the signed value, except at the most negative word,
/// whose magnitude has no representation; that word negates to itself.
pub proof fn lemma_neg_ival(s: Seq<bool>)
    requires
        s.len() == 32,
    ensures
        ival(s) != -pow2(31) ==> ival(neg_seq(s)) == -ival(s),
        ival(s) == -pow2(31) ==> ival(neg_seq(s)) == ival(s),
{
    lemma_neg_uval(s);
    lemma_ival_range(s);
    lemma_ival_range(neg_seq(s));
    lemma_pow2_unfold(32);
    let r = neg_seq(s);
    assert(ival(s) == uval(s) - bitval(s[0]) * pow2(32));
    assert(ival(r) == uval(r) - bitval(r[0]) * pow2(32));
    assert(bitval(s[0]) == 0 || bitval(s[0]) == 1);
    assert(bitval(r[0]) == 0 || bitval(r[0]) == 1);
    assert(bitval(s[0]) * pow2(32) == 0 || bitval(s[0]) * pow2(32) == pow2(32));
    assert(bitval(r[0]) * pow2(32) == 0 || bitval(r[0]) * pow2(32) == pow2(32));
}

/// Negating twice gives the original word back.
pub proof fn lemma_double_negation(s: Seq<bool>)
    requires
        s.len() == 32,
    ensures
        neg_seq(neg_seq(s)) == s,
{
    lemma_neg_uval(s);
    lemma_neg_uval(neg_seq(s));
    lemma_uval_bound(s);
    lemma_uval_injective(neg_seq(neg_seq(s)), s);
}

/// Signed meaning of the ripple-carry sum of two words: when the true sum
/// is representable the result holds it, and signed overflow happens exactly
/// when the operands share a sign that the result does not.
pub proof fn lemma_add_overflow(a: Seq<bool>, b: Seq<bool>)
    requires
        a.len() == 32,
        b.len() == 32,
    ensures
        add_bits(a, b, false).len() == 32,
        (-pow2(31) <= ival(a) + ival(b) < pow2(31)) ==> ival(add_bits(a, b, false)) == ival(a)
            + ival(b),
        (-pow2(31) <= ival(a) + ival(b) < pow2(31)) <==> !(a[0] == b[0] && add_bits(
            a,
            b,
            false,
        )[0] != a[0]),
{
    let r = add_bits(a, b, false);
    lemma_add_bits_value(a, b, false);
    lemma_ival_range(a);
    lemma_ival_range(b);
    lemma_ival_range(r);
    lemma_pow2_unfold(32);
    let c = bitval(add_carry(a, b, false));
    assert(uval(r) + pow2(32) * c == uval(a) + uval(b));
    assert(c == 0 || c == 1);
    assert(pow2(32) * c == 0 || pow2(32) * c == pow2(32));
    assert(bitval(a[0]) * pow2(32) == 0 || bitval(a[0]) * pow2(32) == pow2(32));
    assert(bitval(b[0]) * pow2(32) == 0 || bitval(b[0]) * pow2(32) == pow2(32));
    assert(bitval(r[0]) * pow2(32) == 0 || bitval(r[0]) * pow2(32) == pow2(32));
}

/// Signed meaning of ripple-carry subtraction `a + (-b)`: when the true
/// difference is representable the result holds it, and overflow happens
/// exactly when the operands' signs differ and the result's sign differs
/// from the first operand's.
pub proof fn lemma_sub_overflow(a: Seq<bool>, b: Seq<bool>)
    requires
        a.len() == 32,
        b.len() == 32,
    ensures
        add_bits(a, neg_seq(b), false).len() == 32,
        (-pow2(31) <= ival(a) - ival(b) < pow2(31)) ==> ival(add_bits(a, neg_seq(b), false))
            == ival(a) - ival(b),
        (-pow2(31) <= ival(a) - ival(b) < pow2(31)) <==> !(a[0] != b[0] && add_bits(
            a,
            neg_seq(b),
            false,
        )[0] != a[0]),
{
    let nb = neg_seq(b);
    let r = add_bits(a, nb, false);
    lemma_neg_uval(b);
    lemma_add_bits_value(a, nb, false);
    lemma_ival_range(a);
    lemma_ival_range(b);
    lemma_ival_range(nb);
    lemma_ival_range(r);
    lemma_pow2_unfold(32);
    if uval(b) == 0 {
        lemma_uval_msb(b);
        assert(bitval(b[0]) * pow2(31) <= uval(b));
        assert(!b[0]);
        assert(ival(b) == 0);
    }
    let c = bitval(add_carry(a, nb, false));
    assert(uval(r) + pow2(32) * c == uval(a) + uval(nb));
    assert(c == 0 || c == 1);
    assert(pow2(32) * c == 0 || pow2(32) * c == pow2(32));
    assert(bitval(a[0]) * pow2(32) == 0 || bitval(a[0]) * pow2(32) == pow2(32));
    assert(bitval(b[0]) * pow2(32) == 0 || bitval(b[0]) * pow2(32) == pow2(32));
    assert(bitval(nb[0]) * pow2(32) == 0 || bitval(nb[0]) * pow2(32) == pow2(32));
    assert(bitval(r[0]) * pow2(32) == 0 || bitval(r[0]) * pow2(32) == pow2(32));
}

/// Subtracting one addend from a representable sum gives the other addend
/// back: `(a + b) - b == a` whenever `a + b` does not overflow.
pub proof fn lemma_sub_add_cancel(a: Seq<bool>, b: Seq<bool>)
    requires
        a.len() == 32,
        b.len() == 32,
        -pow2(31) <= ival(a) + ival(b) < pow2(31),
    ensures
        add_bits(add_bits(a, b, false), neg_seq(b), false) == a,
{
    let s = add_bits(a, b, false);
    lemma_add_overflow(a, b);
    lemma_sub_overflow(s, b);
    lemma_ival_range(a);
    lemma_ival_range(b);
    let r = add_bits(s, neg_seq(b), false);
    assert(ival(r) == ival(a));
    lemma_ival_range(r);
    lemma_pow2_unfold(32);
    assert(bitval(a[0]) * pow2(32) == 0 || bitval(a[0]) * pow2(32) == pow2(32));
    assert(bitval(r[0]) * pow2(32) == 0 || bitval(r[0]) * pow2(32) == pow2(32));
    assert(uval(r) == uval(a));
    lemma_uval_injective(r, a);
}

/// The sign-normalized form of a word: the word itself when non-negative,
/// its two's-complement negation when negative.
pub open spec fn magnitude(s: Seq<bool>) -> Seq<bool> {
    if s.len() > 0 && s[0] {
        neg_seq(s)
    } else {
        s
    }
}

/// The absolute value of an integer.
pub open spec fn abs_val(x: int) -> int {
    if x < 0 {
        -x
    } else {
        x
    }
}

/// Truncated (toward zero) signed division.
pub open spec fn quot(x: int, y: int) -> int {
    if (x < 0) != (y < 0) {
        -(abs_val(x) / abs_val(y))
    } else {
        abs_val(x) / abs_val(y)
    }
}

/// The unsigned value of the sign-normalized form is the absolute value of
/// the signed value — for every word, the most negative one included.
pub proof fn lemma_magnitude_uval(s: Seq<bool>)
    requires
        s.len() == 32,
    ensures
        magnitude(s).len() == 32,
        uval(magnitude(s)) == abs_val(ival(s)),
        uval(magnitude(s)) <= pow2(31),
{
    lemma_ival_range(s);
    lemma_uval_msb(s);
    lemma_pow2_unfold(32);
    if s[0] {
        lemma_neg_uval(s);
        assert(uval(s) >= bitval(s[0]) * pow2(31));
    } else {
        lemma_uval_bound(s);
    }
}

/// A set bit witnesses its weight in the unsigned value.
pub proof fn lemma_uval_bit_weight(s: Seq<bool>, i: int)
    requires
        0 <= i < s.len(),
    ensures
        uval(s) >= bitval(s[i]) * pow2((s.len() - 1 - i) as nat),
{
    lemma_uval_split(s, i);
    let suf = s.subrange(i, s.len() as int);
    lemma_uval_msb(suf);
    assert(suf[0] == s[i]);
    let pre = uval(s.subrange(0, i)) as int;
    let pw = pow2((s.len() - i) as nat) as int;
    assert(pre * pw >= 0) by (nonlinear_arith)
        requires
            pre >= 0,
            pw >= 0,
    ;
}

/// A left shift whose result still fits multiplies the unsigned value by
/// the power of two of the distance.
pub proof fn lemma_shl_uval(x: Seq<bool>, r: Seq<bool>, k: int)
    requires
        x.len() == 32,
        r.len() == 32,
        0 <= k <= 32,
        forall|j: int| 0 <= j < 32 - k ==> r[j] == x[j + k],
        forall|j: int| 32 - k <= j < 32 ==> !r[j],
        uval(x) * pow2(k as nat) < pow2(32),
    ensures
        uval(r) == uval(x) * pow2(k as nat),
{
    let zeros = Seq::new(k as nat, |i: int| false);
    assert(r =~= x.subrange(k, 32) + zeros);
    lemma_uval_concat(x.subrange(k, 32), zeros);
    lemma_uval_all_false(zeros);
    lemma_uval_split(x, k);
    let pre = uval(x.subrange(0, k)) as int;
    let suf = uval(x.subrange(k, 32)) as int;
    let pk = pow2(k as nat) as int;
    let pnk = pow2((32 - k) as nat) as int;
    lemma_pow2_adds(k as nat, (32 - k) as nat);
    assert(pk * pnk == pow2(32));
    assert(uval(x) == pre * pnk + suf);
    assert((pre * pnk + suf) * pk == pre * (pnk * pk) + suf * pk) by (nonlinear_arith);
    if pre >= 1 {
        assert(pre * (pnk * pk) >= pnk * pk) by (nonlinear_arith)
            requires
                pre >= 1,
                pnk * pk >= 0,
        ;
        assert(suf * pk >= 0) by (nonlinear_arith)
            requires
                suf >= 0,
                pk >= 0,
        ;
        assert(false);
    }
    assert(pre == 0);
}

/// A left shift multiplies the unsigned value by the power of two of the
/// distance, reduced modulo `2^32`.
pub proof fn lemma_shl_uval_mod(x: Seq<bool>, r: Seq<bool>, k: int)
    requires
        x.len() == 32,
        r.len() == 32,
        0 <= k <= 32,
        forall|j: int| 0 <= j < 32 - k ==> r[j] == x[j + k],
        forall|j: int| 32 - k <= j < 32 ==> !r[j],
    ensures
        uval(r) == ((uval(x) * pow2(k as nat)) as int) % (pow2(32) as int),
{
    let zeros = Seq::new(k as nat, |i: int| false);
    assert(r =~= x.subrange(k, 32) + zeros);
    lemma_uval_concat(x.subrange(k, 32), zeros);
    lemma_uval_all_false(zeros);
    lemma_uval_split(x, k);
    lemma_uval_bound(x.subrange(k, 32));
    let pre = uval(x.subrange(0, k)) as int;
    let suf = uval(x.subrange(k, 32)) as int;
    let pk = pow2(k as nat) as int;
    let pnk = pow2((32 - k) as nat) as int;
    lemma_pow2_adds(k as nat, (32 - k) as nat);
    lemma_pow2_pos(k as nat);
    assert((pre * pnk + suf) * pk == pre * (pnk * pk) + suf * pk) by (nonlinear_arith);
    assert(suf * pk < pnk * pk) by (nonlinear_arith)
        requires
            suf < pnk,
            pk > 0,
    ;
    assert(suf * pk >= 0) by (nonlinear_arith)
        requires
            suf >= 0,
            pk >= 0,
    ;
    assert(uval(r) == suf * pk);
    assert(uval(x) * pk == pre * (pow2(32) as int) + suf * pk);
    lemma_fundamental_div_mod_converse(uval(x) * pk, pow2(32) as int, pre, suf * pk);
}

/// A bit string with unsigned value 0 has no set bit.
pub proof fn lemma_uval_zero(s: Seq<bool>)
    requires
        uval(s) == 0,
    ensures
        forall|j: int| 0 <= j < s.len() ==> !s[j],
{
    assert forall|j: int| 0 <= j < s.len() implies !s[j] by {
        if s[j] {
            lemma_uval_bit_weight(s, j);
            lemma_pow2_pos((s.len() - 1 - j) as nat);
        }
    }
}

/// The ripple-carry difference `x + (-y)` read as an unsigned comparison:
/// while the first value stays below twice the second, the difference's
/// sign bit is clear exactly when `x` is at least `y`, and the difference
/// is then exact.
#[verifier::rlimit(60)]
pub proof fn lemma_unsigned_compare(x: Seq<bool>, y: Seq<bool>)
    requires
        x.len() == 32,
        y.len() == 32,
        1 <= uval(y) <= pow2(31),
        uval(x) < 2 * uval(y),
    ensures
        ((!add_bits(x, neg_seq(y), false)[0] || x == y) <==> uval(x) >= uval(y)),
        uval(x) >= uval(y) ==> uval(add_bits(x, neg_seq(y), false)) == uval(x) - uval(y),
{
    let ny = neg_seq(y);
    let d = add_bits(x, ny, false);
    lemma_neg_uval(y);
    lemma_add_bits_value(x, ny, false);
    lemma_uval_bound(d);
    lemma_uval_msb(d);
    lemma_pow2_unfold(32);
    let c = bitval(add_carry(x, ny, false)) as int;
    let p32 = pow2(32) as int;
    let p31 = pow2(31) as int;
    assert(p32 == 2 * p31);
    assert(uval(d) + p32 * c == uval(x) + p32 - uval(y));
    assert(c == 0 || c == 1);
    if c == 0 {
        assert(p32 * c == 0) by (nonlinear_arith)
            requires
                c == 0,
        ;
    } else {
        assert(p32 * c == p32) by (nonlinear_arith)
            requires
                c == 1,
        ;
    }
    let b0 = bitval(d[0]) as int;
    assert(b0 == 0 || b0 == 1);
    if b0 == 0 {
        assert(b0 * p31 == 0) by (nonlinear_arith)
            requires
                b0 == 0,
        ;
    } else {
        assert(b0 * p31 == p31) by (nonlinear_arith)
            requires
                b0 == 1,
        ;
    }
    assert(uval(d) == b0 * p31 + uval(d.subrange(1, 32)));
    assert(uval(d.subrange(1, 32)) < p31);
    if uval(x) >= uval(y) {
        assert(c == 1);
        assert(uval(d) == uval(x) - uval(y));
        assert(uval(d) < p31);
        assert(!d[0]);
    } else {
        assert(c == 0);
        assert(uval(d) >= p31);
        assert(d[0]);
        if x == y {
            assert(uval(x) == uval(y));
        }
    }
}

/// The magnitude of a power is the power of the magnitude.
pub proof fn lemma_pow_abs(b: int, e: nat)
    ensures
        abs_val(pow(b, e)) == pow(abs_val(b), e),
    decreases e,
{
    if e == 0 {
        lemma_pow0(b);
        lemma_pow0(abs_val(b));
    } else {
        reveal(pow);
        lemma_pow_abs(b, (e - 1) as nat);
        let p = pow(b, (e - 1) as nat);
        let ab = abs_val(b);
        let ap = abs_val(p);
        assert(pow(b, e) == b * p);
        assert(pow(ab, e) == ab * pow(ab, (e - 1) as nat));
        assert(abs_val(b * p) == ab * ap) by (nonlinear_arith)
            requires
                ab == abs_val(b),
                ap == abs_val(p),
                (b >= 0 ==> ab == b) && (b < 0 ==> ab == -b),
                (p >= 0 ==> ap == p) && (p < 0 ==> ap == -p),
                abs_val(b * p) == (if b * p < 0 {
                    -(b * p)
                } else {
                    b * p
                }),
        ;
    }
}

/// Every power with an exponent up to `e` stays within the larger of 1 and
/// the power at `e`, in magnitude.
pub proof fn lemma_pow_intermediate(b: int, m: nat, e: nat)
    requires
        m <= e,
    ensures
        abs_val(pow(b, m)) <= 1 || abs_val(pow(b, m)) <= abs_val(pow(b, e)),
{
    lemma_pow_abs(b, m);
    lemma_pow_abs(b, e);
    let ab = abs_val(b);
    if ab == 0 {
        if m > 0 {
            reveal(pow);
            lemma_pow0(0);
            assert(pow(0, m) == 0 * pow(0, (m - 1) as nat));
            assert(0 * pow(0, (m - 1) as nat) == 0) by (nonlinear_arith);
        } else {
            lemma_pow0(ab);
        }
    } else if ab == 1 {
        lemma_pow_one_abs(m);
    } else {
        lemma_pow_increases(ab as nat, m, e);
    }
}

/// One to any power is one.
pub proof fn lemma_pow_one_abs(e: nat)
    ensures
        pow(1, e) == 1,
    decreases e,
{
    if e == 0 {
        lemma_pow0(1);
    } else {
        reveal(pow);
        lemma_pow_one_abs((e - 1) as nat);
        assert(pow(1, e) == 1 * pow(1, (e - 1) as nat));
    }
}

/// A quotient of at least 1 means the divisor is no more than the
/// dividend.
pub proof fn lemma_div_at_least_one(x: int, d: int)
    requires
        d >= 1,
        x / d >= 1,
    ensures
        d <= x,
{
    lemma_fundamental_div_mod(x, d);
    let q = x / d;
    assert(q * d >= d) by (nonlinear_arith)
        requires
            q >= 1,
            d >= 1,
    ;
}

/// A base of at least 2 raised to a power is at least the matching power
/// of two.
pub proof fn lemma_pow2_le_pow(b: int, k: nat)
    requires
        b >= 2,
    ensures
        pow2(k) <= pow(b, k),
    decreases k,
{
    if k == 0 {
        lemma2_to64();
        lemma_pow0(b);
    } else {
        lemma_pow2_le_pow(b, (k - 1) as nat);
        lemma_pow2_unfold(k);
        lemma_pow_positive(b, (k - 1) as nat);
        reveal(pow);
        let p = pow(b, (k - 1) as nat);
        let p2 = pow2((k - 1) as nat) as int;
        assert(pow(b, k) == b * p);
        assert(2 * p2 <= b * p) by (nonlinear_arith)
            requires
                p2 <= p,
                b >= 2,
                p > 0,
                p2 >= 0,
        ;
    }
}

/// Range and sign of the two's-complement value: it lies in
/// `[-2^(len-1), 2^(len-1))`, and is negative exactly when the sign bit
/// is set.
pub proof fn lemma_ival_range(s: Seq<bool>)
    requires
        s.len() > 0,
    ensures
        -pow2((s.len() - 1) as nat) <= ival(s) < pow2((s.len() - 1) as nat),
        s[0] <==> ival(s) < 0,
        ival(s) == uval(s) - bitval(s[0]) * pow2(s.len()),
{
    lemma_uval_msb(s);
    lemma_uval_bound(s);
    lemma_pow2_unfold(s.len());
}

} // verus!
