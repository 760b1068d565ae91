//! Decimal integer literals as byte text: parsing and printing, with exact
//! value-level contracts shared by the index-file and TSV readers.

use vstd::prelude::*;

verus! {

/// Value of a run of decimal digit bytes, most significant digit first.
pub open spec fn dec_value(s: Seq<u8>) -> int
    decreases s.len(),
{
    if s.len() == 0 {
        0
    } else {
        dec_value(s.drop_last()) * 10 + (s.last() - 48)
    }
}

/// Every byte of `s` is an ASCII decimal digit.
pub open spec fn all_digits(s: Seq<u8>) -> bool {
    forall|i: int| 0 <= i < s.len() ==> 48 <= #[trigger] s[i] <= 57
}

/// `s` is a decimal integer literal: an optional leading minus sign,
/// then one or more digit bytes.
pub open spec fn is_int_literal(s: Seq<u8>) -> bool {
    if s.len() >= 1 && s[0] == 45u8 {
        s.len() >= 2 && all_digits(s.skip(1))
    } else {
        s.len() >= 1 && all_digits(s)
    }
}

/// The mathematical value of an integer literal.
pub open spec fn int_literal_value(s: Seq<u8>) -> int {
    if s.len() >= 1 && s[0] == 45u8 {
        -dec_value(s.skip(1))
    } else {
        dec_value(s)
    }
}

pub proof fn lemma_dec_value_nonneg(s: Seq<u8>)
    requires
        all_digits(s),
    ensures
        dec_value(s) >= 0,
    decreases s.len(),
{
    if s.len() > 0 {
        assert(all_digits(s.drop_last()));
        lemma_dec_value_nonneg(s.drop_last());
    }
}

/// Appending one digit multiplies the value by ten and adds the digit.
pub proof fn lemma_dec_value_step(s: Seq<u8>, i: int)
    requires
        0 <= i < s.len(),
    ensures
        dec_value(s.take(i + 1)) == dec_value(s.take(i)) * 10 + (s[i] - 48),
{
    assert(s.take(i + 1).drop_last() =~= s.take(i));
    assert(s.take(i + 1).last() == s[i]);
}

/// Parses a decimal integer literal, accepting exactly the values that fit in `i64`.
pub fn parse_i64(s: &[u8]) -> (r: Option<i64>)
    ensures
        r is Some <==> is_int_literal(s@) && i64::MIN <= int_literal_value(s@) <= i64::MAX,
        r matches Some(v) ==> v == int_literal_value(s@),
{
    let n = s.len();
    if n == 0 {
        return None;
    }
    let neg = s[0] == 45u8;
    let start: usize = if neg { 1 } else { 0 };
    if start == n {
        return None;
    }
    let ghost digits = s@.skip(start as int);
    let mut i = start;
    // `acc` accumulates the negated magnitude so that `i64::MIN` is reachable.
    let mut acc: i64 = 0;
    let mut over = false;
    while i < n
        invariant
            start <= i <= n,
            n == s@.len(),
            n >= 1,
            neg == (s@[0] == 45u8),
            start == if neg { 1int } else { 0int },
            start < n,
            digits == s@.skip(start as int),
            all_digits(digits.take(i - start)),
            !over ==> acc == -dec_value(digits.take(i - start)),
            over ==> dec_value(digits.take(i - start)) > i64::MAX + 1,
        decreases n - i,
    {
        let b = s[i];
        if b < 48 || b > 57 {
            proof {
                assert(digits[i - start] == b);
                assert(!all_digits(digits));
                if neg {
                    assert(s@.skip(1) == digits);
                } else {
                    assert(digits =~= s@);
                }
            }
            return None;
        }
        let d: i64 = (b - 48) as i64;
        proof {
            lemma_dec_value_step(digits, i - start);
            lemma_dec_value_nonneg(digits.take(i - start));
        }
        if over {
            // The magnitude only grows once it has left the representable range.
        } else {
            match acc.checked_mul(10) {
                None => {
                    over = true;
                }
                Some(t) => {
                    match t.checked_sub(d) {
                        None => {
                            over = true;
                        }
                        Some(t2) => {
                            acc = t2;
                        }
                    }
                }
            }
        }
        i = i + 1;
        proof {
            assert(digits.take(i - start).drop_last() =~= digits.take(i - start - 1));
            assert(all_digits(digits.take(i - start)));
        }
    }
    proof {
        assert(digits.take(i - start) =~= digits);
        if neg {
            assert(s@.skip(1) == digits);
            assert(is_int_literal(s@));
            assert(int_literal_value(s@) == -dec_value(digits));
        } else {
            assert(digits =~= s@);
            assert(s@[0] != 45u8);
            assert(is_int_literal(s@));
            assert(int_literal_value(s@) == dec_value(digits));
        }
    }
    if over {
        return None;
    }
    if neg {
        Some(acc)
    } else {
        if acc == i64::MIN {
            return None;
        }
        Some(-acc)
    }
}

/// Parses a decimal integer literal, accepting exactly the values that fit in `i32`.
pub fn parse_i32(s: &[u8]) -> (r: Option<i32>)
    ensures
        r is Some <==> is_int_literal(s@) && i32::MIN <= int_literal_value(s@) <= i32::MAX,
        r matches Some(v) ==> v == int_literal_value(s@),
{
    match parse_i64(s) {
        None => None,
        Some(v) => {
            if v < i32::MIN as i64 || v > i32::MAX as i64 {
                None
            } else {
                Some(v as i32)
            }
        }
    }
}

/// Ten to the `k`.
pub open spec fn pow10(k: nat) -> int
    decreases k,
{
    if k == 0 {
        1
    } else {
        10 * pow10((k - 1) as nat)
    }
}

/// The decimal digits of `v`, most significant first, no leading zero.
pub open spec fn dec_repr(v: nat) -> Seq<u8>
    decreases v,
{
    if v < 10 {
        seq![(48 + v) as u8]
    } else {
        dec_repr(v / 10).push((48 + v % 10) as u8)
    }
}

/// The decimal spelling of a signed value: a minus sign when negative,
/// then the digits of the magnitude.
pub open spec fn int_repr(v: int) -> Seq<u8> {
    if v < 0 {
        seq![45u8] + dec_repr((-v) as nat)
    } else {
        dec_repr(v as nat)
    }
}

/// Prints `v` in decimal.
pub fn dec_bytes(v: u64) -> (r: Vec<u8>)
    ensures
        r@ == dec_repr(v as nat),
    decreases v,
{
    if v < 10 {
        let mut r: Vec<u8> = Vec::new();
        r.push(48 + v as u8);
        proof {
            assert(r@ =~= dec_repr(v as nat));
        }
        r
    } else {
        let mut r = dec_bytes(v / 10);
        r.push(48 + (v % 10) as u8);
        proof {
            assert(r@ =~= dec_repr(v as nat));
        }
        r
    }
}

/// Prints a signed value in decimal, with a leading minus sign when negative.
pub fn int_bytes(v: i64) -> (r: Vec<u8>)
    ensures
        r@ == int_repr(v as int),
{
    if v >= 0 {
        dec_bytes(v as u64)
    } else {
        let m: u64 = ((-(v as i128)) as u64);
        let digits = dec_bytes(m);
        let mut r: Vec<u8> = Vec::new();
        r.push(45);
        let mut k: usize = 0;
        while k < digits.len()
            invariant
                k <= digits@.len(),
                r@ =~= seq![45u8].add(digits@.take(k as int)),
            decreases digits@.len() - k,
        {
            r.push(digits[k]);
            k = k + 1;
            proof {
                assert(r@ =~= seq![45u8].add(digits@.take(k as int)));
            }
        }
        proof {
            assert(digits@.take(digits@.len() as int) =~= digits@);
            assert(r@ =~= seq![45u8] + digits@);
        }
        r
    }
}


/// The printed digits of a value read back to it.
pub proof fn lemma_dec_repr_value(v: nat)
    ensures
        all_digits(dec_repr(v)),
        dec_repr(v).len() >= 1,
        48 <= dec_repr(v)[0] <= 57,
        dec_value(dec_repr(v)) == v,
    decreases v,
{
    if v < 10 {
        let r = dec_repr(v);
        assert(r.len() == 1);
        assert(r.drop_last() =~= Seq::<u8>::empty());
        assert(dec_value(Seq::<u8>::empty()) == 0);
        assert(dec_value(r) == v);
    } else {
        lemma_dec_repr_value(v / 10);
        let head = dec_repr(v / 10);
        let r = dec_repr(v);
        assert(r == head.push((48 + v % 10) as u8));
        assert(r.drop_last() =~= head);
        assert(r.last() == (48 + v % 10) as u8);
        assert(dec_value(r) == dec_value(head) * 10 + (v % 10));
        assert(v == (v / 10) * 10 + v % 10);
        assert(all_digits(r)) by {
            assert(forall|i: int| 0 <= i < head.len() ==> r[i] == head[i]);
        }
    }
}

/// The printed spelling of a signed value reads back to it.
pub proof fn lemma_int_repr_value(v: int)
    requires
        i64::MIN <= v <= i64::MAX,
    ensures
        is_int_literal(int_repr(v)),
        i64::MIN <= int_literal_value(int_repr(v)) <= i64::MAX,
        int_literal_value(int_repr(v)) == v,
{
    if v < 0 {
        lemma_dec_repr_value((-v) as nat);
        let r = int_repr(v);
        assert(r[0] == 45u8);
        assert(r.skip(1) =~= dec_repr((-v) as nat));
        assert(r.len() >= 2);
        assert(int_literal_value(r) == -dec_value(dec_repr((-v) as nat)));
    } else {
        lemma_dec_repr_value(v as nat);
        let r = int_repr(v);
        assert(r[0] != 45u8);
        assert(is_int_literal(r));
    }
}
} // verus!
