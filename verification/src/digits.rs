//! Canonical ASCII decimal numerals: the digit strings that bencode allows
//! as byte-string length prefixes and as integer bodies, and the relation
//! between such a string and the number it denotes.

use vstd::prelude::*;

verus! {

/// ASCII `'0'`.
pub const ASCII_ZERO: u8 = 48;

/// Is `c` an ASCII decimal digit?
pub open spec fn is_digit(c: u8) -> bool {
    48 <= c <= 57
}

/// The canonical decimal numeral of `n`: `"0"` for zero, otherwise the usual
/// base-10 digits with no leading zero, most significant first.
pub open spec fn dec_rep(n: nat) -> Seq<u8>
    decreases n,
{
    if n < 10 {
        seq![(n + 48) as u8]
    } else {
        dec_rep(n / 10) + seq![((n % 10) + 48) as u8]
    }
}

/// The number denoted by a digit string, most significant digit first.
pub open spec fn digits_val(s: Seq<u8>) -> nat
    decreases s.len(),
{
    if s.len() == 0 {
        0
    } else {
        digits_val(s.drop_last()) * 10 + (s.last() - 48) as nat
    }
}

/// Is `s` entirely made of ASCII digits?
pub open spec fn all_digits(s: Seq<u8>) -> bool {
    forall|i: int| 0 <= i < s.len() ==> is_digit(#[trigger] s[i])
}

/// A canonical numeral: nonempty, all digits, and no leading zero except in
/// the one-digit numeral `"0"`.
pub open spec fn is_canon_digits(s: Seq<u8>) -> bool {
    s.len() > 0 && all_digits(s) && (s[0] == 48 ==> s.len() == 1)
}

/// `dec_rep` only produces canonical numerals.
pub proof fn lemma_dec_rep_canon(n: nat)
    ensures
        is_canon_digits(dec_rep(n)),
    decreases n,
{
    if n >= 10 {
        lemma_dec_rep_canon(n / 10);
        let a = dec_rep(n / 10);
        let s = dec_rep(n);
        assert(s[0] == a[0]);
        if a[0] == 48 {
            assert(a.len() == 1);
            assert(a == dec_rep(n / 10));
            assert(n / 10 < 10 ==> a[0] == ((n / 10) + 48) as u8);
            assert(n / 10 >= 10 ==> a.len() >= 2) by {
                if n / 10 >= 10 {
                    lemma_dec_rep_len_ge2(n / 10);
                }
            }
            assert(n / 10 == 0);
            assert(false);
        }
        assert forall|i: int| 0 <= i < s.len() implies is_digit(#[trigger] s[i]) by {
            if i < a.len() {
                assert(s[i] == a[i]);
            } else {
                assert(s[i] == ((n % 10) + 48) as u8);
            }
        }
    }
}

/// Every numeral has at least one digit.
pub proof fn lemma_dec_rep_len_pos(n: nat)
    ensures
        dec_rep(n).len() >= 1,
    decreases n,
{
    if n >= 10 {
        lemma_dec_rep_len_pos(n / 10);
    }
}

/// A numeral of a number at or above ten has at least two digits.
pub proof fn lemma_dec_rep_len_ge2(n: nat)
    requires
        n >= 10,
    ensures
        dec_rep(n).len() >= 2,
{
    lemma_dec_rep_len_pos(n / 10);
}

/// `dec_rep` numerals denote the number they were built from.
pub proof fn lemma_digits_val_dec_rep(n: nat)
    ensures
        digits_val(dec_rep(n)) == n,
    decreases n,
{
    if n < 10 {
        let s = dec_rep(n);
        reveal_with_fuel(digits_val, 2);
        assert(s.drop_last() =~= Seq::<u8>::empty());
        assert(digits_val(s) == (s.last() - 48) as nat);
    } else {
        lemma_digits_val_dec_rep(n / 10);
        let a = dec_rep(n / 10);
        let s = dec_rep(n);
        assert(s.drop_last() =~= a);
        assert(s.last() == ((n % 10) + 48) as u8);
        assert((s.last() - 48) as nat == n % 10);
        assert(digits_val(s) == (n / 10) * 10 + n % 10);
        assert((n / 10) * 10 + n % 10 == n) by (nonlinear_arith);
    }
}

/// A nonempty digit string with a nonzero leading digit denotes at least one.
pub proof fn lemma_digits_val_pos(s: Seq<u8>)
    requires
        s.len() > 0,
        all_digits(s),
        s[0] != 48,
    ensures
        digits_val(s) >= 1,
    decreases s.len(),
{
    if s.len() == 1 {
        assert(s.last() == s[0]);
    } else {
        lemma_digits_val_pos(s.drop_last());
    }
}

/// A canonical numeral is the `dec_rep` numeral of the number it denotes.
pub proof fn lemma_dec_rep_digits_val(s: Seq<u8>)
    requires
        is_canon_digits(s),
    ensures
        dec_rep(digits_val(s)) == s,
    decreases s.len(),
{
    if s.len() == 1 {
        let d = (s[0] - 48) as nat;
        assert(s.last() == s[0]);
        assert(s.drop_last() =~= Seq::<u8>::empty());
        assert(digits_val(s) == d);
        assert(dec_rep(d) =~= s);
    } else {
        let a = s.drop_last();
        let d = (s.last() - 48) as nat;
        assert(a[0] == s[0]);
        assert(is_canon_digits(a));
        lemma_dec_rep_digits_val(a);
        lemma_digits_val_pos(a);
        let v = digits_val(s);
        assert(v == digits_val(a) * 10 + d);
        assert(v >= 10);
        assert(v / 10 == digits_val(a) && v % 10 == d) by (nonlinear_arith)
            requires
                v == digits_val(a) * 10 + d,
                d < 10,
        ;
        assert(dec_rep(v) == dec_rep(digits_val(a)) + seq![s.last()]);
        assert(dec_rep(v) =~= s);
    }
}

/// Extending a digit string on the right never lowers the number it denotes.
pub proof fn lemma_digits_val_extend(s: Seq<u8>, k: int)
    requires
        0 <= k <= s.len(),
    ensures
        digits_val(s.subrange(0, k)) <= digits_val(s),
    decreases s.len() - k,
{
    if k < s.len() {
        lemma_digits_val_extend(s, k + 1);
        let a = s.subrange(0, k);
        let b = s.subrange(0, k + 1);
        assert(b.drop_last() =~= a);
        assert(digits_val(b) == digits_val(a) * 10 + (b.last() - 48) as nat);
        assert(digits_val(a) <= digits_val(b)) by (nonlinear_arith)
            requires
                digits_val(b) == digits_val(a) * 10 + (b.last() - 48) as nat,
        ;
    } else {
        assert(s.subrange(0, k) =~= s);
    }
}

} // verus!
