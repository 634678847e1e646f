//! The bencode grammar, stated as a canonical encoding function from the
//! mathematical value model to bytes, together with the facts the decoder's
//! contracts rest on: every encoding is nonempty, its first byte names its
//! production, and an encoding followed by arbitrary bytes determines both
//! the value and where the encoding ends (prefix unambiguity).

use vstd::prelude::*;

use crate::digits::{dec_rep, digits_val, is_digit, lemma_dec_rep_canon, lemma_digits_val_dec_rep};
use crate::value::BValue;

verus! {

/// ASCII `'i'`, the integer marker.
pub const MARK_INT: u8 = 105;

/// ASCII `'l'`, the list marker.
pub const MARK_LIST: u8 = 108;

/// ASCII `'d'`, the dictionary marker.
pub const MARK_DICT: u8 = 100;

/// ASCII `'e'`, the terminator of integers, lists and dictionaries.
pub const MARK_END: u8 = 101;

/// ASCII `':'`, separating a byte string's length prefix from its payload.
pub const MARK_COLON: u8 = 58;

/// ASCII `'-'`, the sign of a negative integer body.
pub const MARK_MINUS: u8 = 45;

/// The body of an integer term: a canonical numeral, with a leading `'-'`
/// for negative values. `-0` and leading zeros never occur.
pub open spec fn int_body(i: int) -> Seq<u8> {
    if i < 0 {
        seq![MARK_MINUS] + dec_rep((-i) as nat)
    } else {
        dec_rep(i as nat)
    }
}

/// The encoding of a byte string term: decimal length, `':'`, payload.
pub open spec fn enc_bytes(s: Seq<u8>) -> Seq<u8> {
    dec_rep(s.len()) + seq![MARK_COLON] + s
}

/// The canonical bencode encoding of a value.
pub open spec fn spec_encode(m: BValue) -> Seq<u8>
    decreases m,
{
    match m {
        BValue::Bytes(s) => enc_bytes(s),
        BValue::Int(i) => seq![MARK_INT] + int_body(i as int) + seq![MARK_END],
        BValue::List(ms) => seq![MARK_LIST] + encode_seq(ms) + seq![MARK_END],
        BValue::Dict(ps) => seq![MARK_DICT] + encode_pairs(ps) + seq![MARK_END],
    }
}

/// The concatenated encodings of the elements of a list.
pub open spec fn encode_seq(ms: Seq<BValue>) -> Seq<u8>
    decreases ms,
{
    if ms.len() == 0 {
        Seq::empty()
    } else {
        spec_encode(ms[0]) + encode_seq(ms.drop_first())
    }
}

/// The concatenated encodings of the entries of a dictionary: each key as a
/// byte string, immediately followed by its value.
pub open spec fn encode_pairs(ps: Seq<(Seq<u8>, BValue)>) -> Seq<u8>
    decreases ps,
{
    if ps.len() == 0 {
        Seq::empty()
    } else {
        enc_bytes(ps[0].0) + spec_encode(ps[0].1) + encode_pairs(ps.drop_first())
    }
}

/// The encoding of `m` occupies `b` from `pos` on, with room to spare.
pub open spec fn encodes_at(b: Seq<u8>, pos: int, m: BValue) -> bool {
    let e = spec_encode(m);
    0 <= pos && pos + e.len() <= b.len() && b.subrange(pos, pos + e.len() as int) == e
}

/// An integer body is nonempty and made of digits and `'-'` only; a `'-'`
/// only at the front, and a leading `'0'` only in the body `"0"` itself.
pub proof fn lemma_int_body_shape(i: int)
    ensures
        int_body(i).len() > 0,
        forall|k: int|
            0 <= k < int_body(i).len() ==> (is_digit(#[trigger] int_body(i)[k])
                || int_body(i)[k] == MARK_MINUS),
        i >= 0 ==> is_digit(int_body(i)[0]),
        i < 0 ==> int_body(i)[0] == MARK_MINUS,
{
    if i < 0 {
        lemma_dec_rep_canon((-i) as nat);
    } else {
        lemma_dec_rep_canon(i as nat);
    }
}

/// Distinct integers have distinct bodies.
pub proof fn lemma_int_body_inj(x: int, y: int)
    requires
        int_body(x) == int_body(y),
    ensures
        x == y,
{
    lemma_int_body_shape(x);
    lemma_int_body_shape(y);
    if x >= 0 && y >= 0 {
        lemma_digits_val_dec_rep(x as nat);
        lemma_digits_val_dec_rep(y as nat);
    } else if x < 0 && y < 0 {
        let a = dec_rep((-x) as nat);
        let b = dec_rep((-y) as nat);
        assert(a =~= b) by {
            assert(a.len() == b.len());
            assert(forall|k: int|
                0 <= k < a.len() ==> #[trigger] a[k] == (seq![MARK_MINUS] + a)[k + 1]
                    && b[k] == (seq![MARK_MINUS] + b)[k + 1]);
        }
        lemma_digits_val_dec_rep((-x) as nat);
        lemma_digits_val_dec_rep((-y) as nat);
    } else {
        assert(is_digit(MARK_MINUS) == false);
        assert(false);
    }
}

/// Every encoding is nonempty and opens with the byte that names its
/// production: a digit for byte strings, otherwise the production's marker.
pub proof fn lemma_encode_shape(m: BValue)
    ensures
        spec_encode(m).len() > 0,
        m matches BValue::Bytes(s) ==> is_digit(spec_encode(m)[0]),
        m matches BValue::Int(i) ==> spec_encode(m)[0] == MARK_INT,
        m matches BValue::List(ms) ==> spec_encode(m)[0] == MARK_LIST,
        m matches BValue::Dict(ps) ==> spec_encode(m)[0] == MARK_DICT,
        spec_encode(m)[0] != MARK_END,
{
    match m {
        BValue::Bytes(s) => {
            lemma_dec_rep_canon(s.len());
            assert(spec_encode(m)[0] == dec_rep(s.len())[0]);
        },
        BValue::Int(_) => {},
        BValue::List(_) => {},
        BValue::Dict(_) => {},
    }
}

/// Two equal concatenations with equally long first parts cut at the same
/// place.
pub proof fn lemma_append_cancel(a1: Seq<u8>, a2: Seq<u8>, t1: Seq<u8>, t2: Seq<u8>)
    requires
        a1 + t1 == a2 + t2,
        a1.len() == a2.len(),
    ensures
        a1 == a2,
        t1 == t2,
{
    assert(a1 =~= a2) by {
        assert(forall|k: int|
            0 <= k < a1.len() ==> (a1 + t1)[k] == #[trigger] a1[k] && (a2 + t2)[k] == a2[k]);
    }
    assert(t1 =~= t2) by {
        assert((a1 + t1).len() == a1.len() + t1.len());
        assert((a2 + t2).len() == a2.len() + t2.len());
        assert(t1.len() == t2.len());
        assert(forall|k: int|
            0 <= k < t1.len() ==> (a1 + t1)[a1.len() + k] == #[trigger] t1[k]
                && (a2 + t2)[a2.len() + k] == t2[k]);
    }
}

/// Two equal concatenations whose first parts avoid the separator and are
/// each followed by it cut at the first separator, hence at the same place.
pub proof fn lemma_terminated_prefix(
    a1: Seq<u8>,
    a2: Seq<u8>,
    t1: Seq<u8>,
    t2: Seq<u8>,
    sep: u8,
)
    requires
        a1 + seq![sep] + t1 == a2 + seq![sep] + t2,
        forall|k: int| 0 <= k < a1.len() ==> #[trigger] a1[k] != sep,
        forall|k: int| 0 <= k < a2.len() ==> #[trigger] a2[k] != sep,
    ensures
        a1 == a2,
        t1 == t2,
{
    let b1 = a1 + seq![sep] + t1;
    let b2 = a2 + seq![sep] + t2;
    if a1.len() < a2.len() {
        assert(b1[a1.len() as int] == sep);
        assert(b2[a1.len() as int] == a2[a1.len() as int]);
        assert(false);
    }
    if a2.len() < a1.len() {
        assert(b2[a2.len() as int] == sep);
        assert(b1[a2.len() as int] == a1[a2.len() as int]);
        assert(false);
    }
    lemma_append_cancel(a1 + seq![sep], a2 + seq![sep], t1, t2);
    lemma_append_cancel(a1, a2, seq![sep], seq![sep]);
}

/// A byte-string encoding followed by arbitrary bytes determines the payload
/// and the leftover.
pub proof fn lemma_enc_bytes_unambiguous(s1: Seq<u8>, s2: Seq<u8>, t1: Seq<u8>, t2: Seq<u8>)
    requires
        enc_bytes(s1) + t1 == enc_bytes(s2) + t2,
    ensures
        s1 == s2,
        t1 == t2,
{
    lemma_dec_rep_canon(s1.len());
    lemma_dec_rep_canon(s2.len());
    assert(dec_rep(s1.len()) + seq![MARK_COLON] + (s1 + t1) =~= enc_bytes(s1) + t1);
    assert(dec_rep(s2.len()) + seq![MARK_COLON] + (s2 + t2) =~= enc_bytes(s2) + t2);
    lemma_terminated_prefix(
        dec_rep(s1.len()),
        dec_rep(s2.len()),
        s1 + t1,
        s2 + t2,
        MARK_COLON,
    );
    lemma_digits_val_dec_rep(s1.len());
    lemma_digits_val_dec_rep(s2.len());
    lemma_append_cancel(s1, s2, t1, t2);
}

/// Prefix unambiguity: an encoding followed by arbitrary bytes determines
/// both the encoded value and where the encoding ends. This is what makes
/// "decode one value, advance, repeat" well defined on a flat buffer.
pub proof fn lemma_encode_unambiguous(m1: BValue, m2: BValue, t1: Seq<u8>, t2: Seq<u8>)
    requires
        spec_encode(m1) + t1 == spec_encode(m2) + t2,
    ensures
        m1 == m2,
        t1 == t2,
    decreases m1,
{
    lemma_encode_shape(m1);
    lemma_encode_shape(m2);
    assert(spec_encode(m1)[0] == (spec_encode(m1) + t1)[0]);
    assert(spec_encode(m2)[0] == (spec_encode(m2) + t2)[0]);
    match m1 {
        BValue::Bytes(s1) => {
            let s2 = m2->Bytes_0;
            assert(m2 is Bytes);
            lemma_enc_bytes_unambiguous(s1, s2, t1, t2);
        },
        BValue::Int(x1) => {
            assert(m2 is Int);
            let x2 = m2->Int_0;
            lemma_int_body_shape(x1 as int);
            lemma_int_body_shape(x2 as int);
            assert(seq![MARK_INT] + (int_body(x1 as int) + seq![MARK_END] + t1)
                =~= spec_encode(m1) + t1);
            assert(seq![MARK_INT] + (int_body(x2 as int) + seq![MARK_END] + t2)
                =~= spec_encode(m2) + t2);
            lemma_append_cancel(
                seq![MARK_INT],
                seq![MARK_INT],
                int_body(x1 as int) + seq![MARK_END] + t1,
                int_body(x2 as int) + seq![MARK_END] + t2,
            );
            assert(forall|k: int|
                0 <= k < int_body(x1 as int).len() ==> #[trigger] int_body(x1 as int)[k]
                    != MARK_END);
            assert(forall|k: int|
                0 <= k < int_body(x2 as int).len() ==> #[trigger] int_body(x2 as int)[k]
                    != MARK_END);
            lemma_terminated_prefix(
                int_body(x1 as int),
                int_body(x2 as int),
                t1,
                t2,
                MARK_END,
            );
            lemma_int_body_inj(x1 as int, x2 as int);
        },
        BValue::List(ms1) => {
            assert(m2 is List);
            let ms2 = m2->List_0;
            assert(seq![MARK_LIST] + (encode_seq(ms1) + (seq![MARK_END] + t1))
                =~= spec_encode(m1) + t1);
            assert(seq![MARK_LIST] + (encode_seq(ms2) + (seq![MARK_END] + t2))
                =~= spec_encode(m2) + t2);
            lemma_append_cancel(
                seq![MARK_LIST],
                seq![MARK_LIST],
                encode_seq(ms1) + (seq![MARK_END] + t1),
                encode_seq(ms2) + (seq![MARK_END] + t2),
            );
            lemma_encode_seq_unambiguous(ms1, ms2, seq![MARK_END] + t1, seq![MARK_END] + t2);
            lemma_append_cancel(seq![MARK_END], seq![MARK_END], t1, t2);
        },
        BValue::Dict(ps1) => {
            assert(m2 is Dict);
            let ps2 = m2->Dict_0;
            assert(seq![MARK_DICT] + (encode_pairs(ps1) + (seq![MARK_END] + t1))
                =~= spec_encode(m1) + t1);
            assert(seq![MARK_DICT] + (encode_pairs(ps2) + (seq![MARK_END] + t2))
                =~= spec_encode(m2) + t2);
            lemma_append_cancel(
                seq![MARK_DICT],
                seq![MARK_DICT],
                encode_pairs(ps1) + (seq![MARK_END] + t1),
                encode_pairs(ps2) + (seq![MARK_END] + t2),
            );
            lemma_encode_pairs_unambiguous(ps1, ps2, seq![MARK_END] + t1, seq![MARK_END] + t2);
            lemma_append_cancel(seq![MARK_END], seq![MARK_END], t1, t2);
        },
    }
}

/// As [`lemma_encode_unambiguous`], for the element run of a list: the run
/// cannot be confused with its own `'e'` terminator.
pub proof fn lemma_encode_seq_unambiguous(
    ms1: Seq<BValue>,
    ms2: Seq<BValue>,
    t1: Seq<u8>,
    t2: Seq<u8>,
)
    requires
        encode_seq(ms1) + t1 == encode_seq(ms2) + t2,
        t1.len() > 0 && t1[0] == MARK_END,
        t2.len() > 0 && t2[0] == MARK_END,
    ensures
        ms1 == ms2,
        t1 == t2,
    decreases ms1,
{
    if ms1.len() == 0 && ms2.len() == 0 {
        assert(encode_seq(ms1) + t1 =~= t1);
        assert(encode_seq(ms2) + t2 =~= t2);
        assert(ms1 =~= ms2);
    } else if ms1.len() == 0 {
        lemma_encode_shape(ms2[0]);
        assert((encode_seq(ms1) + t1)[0] == t1[0]);
        assert((encode_seq(ms2) + t2)[0] == spec_encode(ms2[0])[0]);
        assert(false);
    } else if ms2.len() == 0 {
        lemma_encode_shape(ms1[0]);
        assert((encode_seq(ms2) + t2)[0] == t2[0]);
        assert((encode_seq(ms1) + t1)[0] == spec_encode(ms1[0])[0]);
        assert(false);
    } else {
        assert(spec_encode(ms1[0]) + (encode_seq(ms1.drop_first()) + t1)
            =~= encode_seq(ms1) + t1);
        assert(spec_encode(ms2[0]) + (encode_seq(ms2.drop_first()) + t2)
            =~= encode_seq(ms2) + t2);
        lemma_encode_unambiguous(
            ms1[0],
            ms2[0],
            encode_seq(ms1.drop_first()) + t1,
            encode_seq(ms2.drop_first()) + t2,
        );
        lemma_encode_seq_unambiguous(ms1.drop_first(), ms2.drop_first(), t1, t2);
        assert(ms1 =~= ms2) by {
            assert(ms1.len() == ms2.len());
            assert(forall|k: int|
                1 <= k < ms1.len() ==> #[trigger] ms1[k] == ms1.drop_first()[k - 1]
                    && ms2[k] == ms2.drop_first()[k - 1]);
        }
    }
}

/// As [`lemma_encode_unambiguous`], for the entry run of a dictionary.
pub proof fn lemma_encode_pairs_unambiguous(
    ps1: Seq<(Seq<u8>, BValue)>,
    ps2: Seq<(Seq<u8>, BValue)>,
    t1: Seq<u8>,
    t2: Seq<u8>,
)
    requires
        encode_pairs(ps1) + t1 == encode_pairs(ps2) + t2,
        t1.len() > 0 && t1[0] == MARK_END,
        t2.len() > 0 && t2[0] == MARK_END,
    ensures
        ps1 == ps2,
        t1 == t2,
    decreases ps1,
{
    if ps1.len() == 0 && ps2.len() == 0 {
        assert(encode_pairs(ps1) + t1 =~= t1);
        assert(encode_pairs(ps2) + t2 =~= t2);
        assert(ps1 =~= ps2);
    } else if ps1.len() == 0 {
        lemma_encode_shape(BValue::Bytes(ps2[0].0));
        assert((encode_pairs(ps1) + t1)[0] == t1[0]);
        assert((encode_pairs(ps2) + t2)[0] == enc_bytes(ps2[0].0)[0]);
        assert(false);
    } else if ps2.len() == 0 {
        lemma_encode_shape(BValue::Bytes(ps1[0].0));
        assert((encode_pairs(ps2) + t2)[0] == t2[0]);
        assert((encode_pairs(ps1) + t1)[0] == enc_bytes(ps1[0].0)[0]);
        assert(false);
    } else {
        assert(enc_bytes(ps1[0].0) + (spec_encode(ps1[0].1) + (encode_pairs(ps1.drop_first())
            + t1)) =~= encode_pairs(ps1) + t1);
        assert(enc_bytes(ps2[0].0) + (spec_encode(ps2[0].1) + (encode_pairs(ps2.drop_first())
            + t2)) =~= encode_pairs(ps2) + t2);
        lemma_enc_bytes_unambiguous(
            ps1[0].0,
            ps2[0].0,
            spec_encode(ps1[0].1) + (encode_pairs(ps1.drop_first()) + t1),
            spec_encode(ps2[0].1) + (encode_pairs(ps2.drop_first()) + t2),
        );
        lemma_encode_unambiguous(
            ps1[0].1,
            ps2[0].1,
            encode_pairs(ps1.drop_first()) + t1,
            encode_pairs(ps2.drop_first()) + t2,
        );
        lemma_encode_pairs_unambiguous(ps1.drop_first(), ps2.drop_first(), t1, t2);
        assert(ps1 =~= ps2) by {
            assert(ps1.len() == ps2.len());
            assert(forall|k: int|
                1 <= k < ps1.len() ==> #[trigger] ps1[k] == ps1.drop_first()[k - 1]
                    && ps2[k] == ps2.drop_first()[k - 1]);
        }
    }
}

/// An element run splits at any index into the runs of the two halves.
pub proof fn lemma_encode_seq_split(ms: Seq<BValue>, k: int)
    requires
        0 <= k <= ms.len(),
    ensures
        encode_seq(ms) == encode_seq(ms.take(k)) + encode_seq(ms.skip(k)),
    decreases k,
{
    if k == 0 {
        assert(ms.take(0) =~= Seq::<BValue>::empty());
        assert(ms.skip(0) =~= ms);
        assert(encode_seq(ms) =~= encode_seq(ms.take(0)) + encode_seq(ms.skip(0)));
    } else {
        let dft = ms.drop_first();
        lemma_encode_seq_split(dft, k - 1);
        assert(ms.take(k)[0] == ms[0]);
        assert(ms.take(k).drop_first() =~= dft.take(k - 1));
        assert(ms.skip(k) =~= dft.skip(k - 1));
        assert(encode_seq(ms.take(k)) == spec_encode(ms[0]) + encode_seq(dft.take(k - 1)));
        assert(encode_seq(ms) =~= encode_seq(ms.take(k)) + encode_seq(ms.skip(k))) by {
            assert(encode_seq(ms) == spec_encode(ms[0]) + encode_seq(dft));
        }
    }
}

/// The head element of the tail of an element run.
pub proof fn lemma_encode_seq_skip_head(ms: Seq<BValue>, k: int)
    requires
        0 <= k < ms.len(),
    ensures
        encode_seq(ms.skip(k)) == spec_encode(ms[k]) + encode_seq(ms.skip(k + 1)),
{
    assert(ms.skip(k).len() > 0);
    assert(ms.skip(k)[0] == ms[k]);
    assert(ms.skip(k).drop_first() =~= ms.skip(k + 1));
}

/// Appending an element appends its encoding to the run.
pub proof fn lemma_encode_seq_push(ms: Seq<BValue>, x: BValue)
    ensures
        encode_seq(ms.push(x)) == encode_seq(ms) + spec_encode(x),
    decreases ms,
{
    if ms.len() == 0 {
        reveal_with_fuel(encode_seq, 3);
        assert(ms.push(x)[0] == x);
        assert(ms.push(x).drop_first() =~= Seq::<BValue>::empty());
        assert(encode_seq(ms.push(x)) =~= encode_seq(ms) + spec_encode(x));
    } else {
        let dft = ms.drop_first();
        lemma_encode_seq_push(dft, x);
        assert(ms.push(x)[0] == ms[0]);
        assert(ms.push(x).drop_first() =~= dft.push(x));
        assert(encode_seq(ms.push(x)) == spec_encode(ms[0]) + encode_seq(dft.push(x)));
        assert(encode_seq(ms.push(x)) =~= encode_seq(ms) + spec_encode(x)) by {
            assert(encode_seq(ms) == spec_encode(ms[0]) + encode_seq(dft));
        }
    }
}

/// An entry run splits at any index into the runs of the two halves.
pub proof fn lemma_encode_pairs_split(ps: Seq<(Seq<u8>, BValue)>, k: int)
    requires
        0 <= k <= ps.len(),
    ensures
        encode_pairs(ps) == encode_pairs(ps.take(k)) + encode_pairs(ps.skip(k)),
    decreases k,
{
    if k == 0 {
        assert(ps.take(0) =~= Seq::<(Seq<u8>, BValue)>::empty());
        assert(ps.skip(0) =~= ps);
        assert(encode_pairs(ps) =~= encode_pairs(ps.take(0)) + encode_pairs(ps.skip(0)));
    } else {
        let dft = ps.drop_first();
        lemma_encode_pairs_split(dft, k - 1);
        assert(ps.take(k)[0] == ps[0]);
        assert(ps.take(k).drop_first() =~= dft.take(k - 1));
        assert(ps.skip(k) =~= dft.skip(k - 1));
        assert(encode_pairs(ps.take(k)) == enc_bytes(ps[0].0) + spec_encode(ps[0].1)
            + encode_pairs(dft.take(k - 1)));
        assert(encode_pairs(ps) =~= encode_pairs(ps.take(k)) + encode_pairs(ps.skip(k))) by {
            assert(encode_pairs(ps) == enc_bytes(ps[0].0) + spec_encode(ps[0].1)
                + encode_pairs(dft));
        }
    }
}

/// The head entry of the tail of an entry run.
pub proof fn lemma_encode_pairs_skip_head(ps: Seq<(Seq<u8>, BValue)>, k: int)
    requires
        0 <= k < ps.len(),
    ensures
        encode_pairs(ps.skip(k)) == enc_bytes(ps[k].0) + spec_encode(ps[k].1)
            + encode_pairs(ps.skip(k + 1)),
{
    assert(ps.skip(k).len() > 0);
    assert(ps.skip(k)[0] == ps[k]);
    assert(ps.skip(k).drop_first() =~= ps.skip(k + 1));
}

/// Appending an entry appends its encoding to the run.
pub proof fn lemma_encode_pairs_push(ps: Seq<(Seq<u8>, BValue)>, k: Seq<u8>, v: BValue)
    ensures
        encode_pairs(ps.push((k, v))) == encode_pairs(ps) + enc_bytes(k) + spec_encode(v),
    decreases ps,
{
    if ps.len() == 0 {
        reveal_with_fuel(encode_pairs, 3);
        assert(ps.push((k, v))[0] == (k, v));
        assert(ps.push((k, v)).drop_first() =~= Seq::<(Seq<u8>, BValue)>::empty());
        assert(encode_pairs(ps.push((k, v))) =~= encode_pairs(ps) + enc_bytes(k)
            + spec_encode(v));
    } else {
        let dft = ps.drop_first();
        lemma_encode_pairs_push(dft, k, v);
        assert(ps.push((k, v))[0] == ps[0]);
        assert(ps.push((k, v)).drop_first() =~= dft.push((k, v)));
        assert(encode_pairs(ps.push((k, v))) == enc_bytes(ps[0].0) + spec_encode(ps[0].1)
            + encode_pairs(dft.push((k, v))));
        assert(encode_pairs(ps.push((k, v))) =~= encode_pairs(ps) + enc_bytes(k)
            + spec_encode(v)) by {
            assert(encode_pairs(ps) == enc_bytes(ps[0].0) + spec_encode(ps[0].1)
                + encode_pairs(dft));
        }
    }
}

/// At one position of one buffer, at most one value's encoding can lie.
pub proof fn lemma_encodes_at_unique(b: Seq<u8>, pos: int, m1: BValue, m2: BValue)
    requires
        encodes_at(b, pos, m1),
        encodes_at(b, pos, m2),
    ensures
        m1 == m2,
{
    let e1 = spec_encode(m1);
    let e2 = spec_encode(m2);
    let t1 = b.subrange(pos + e1.len(), b.len() as int);
    let t2 = b.subrange(pos + e2.len(), b.len() as int);
    assert(e1 + t1 =~= b.subrange(pos, b.len() as int));
    assert(e2 + t2 =~= b.subrange(pos, b.len() as int));
    lemma_encode_unambiguous(m1, m2, t1, t2);
}

} // verus!
