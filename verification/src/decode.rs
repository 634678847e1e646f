//! The bencode decoder: a recursive-descent parser from a flat byte buffer
//! to a [`BencodeValue`] tree.
//!
//! Every parsing function carries a two-sided contract against the grammar
//! [`spec_encode`]: on success the consumed bytes are exactly the encoding of
//! the returned value (soundness), and on failure no value's encoding lies at
//! the given position (completeness). Together with prefix unambiguity
//! ([`crate::encoding::lemma_encode_unambiguous`]) this pins the decoder's
//! behaviour down completely.

use vstd::prelude::*;

use crate::digits::{
    dec_rep, digits_val, is_digit, lemma_dec_rep_canon, lemma_dec_rep_digits_val,
    lemma_digits_val_dec_rep, lemma_digits_val_extend, lemma_digits_val_pos,
};
use crate::encoding::{
    encodes_at, enc_bytes, encode_pairs, encode_seq, int_body, lemma_encode_pairs_push,
    lemma_encode_pairs_skip_head, lemma_encode_pairs_split, lemma_encode_seq_push,
    lemma_encode_seq_skip_head, lemma_encode_seq_split, lemma_encode_shape,
    lemma_encodes_at_unique, lemma_int_body_shape, spec_encode, MARK_COLON, MARK_DICT,
    MARK_END, MARK_INT, MARK_LIST, MARK_MINUS,
};
use crate::value::{depth_le, model_of, model_pairs, model_seq, BValue, BencodeValue};

verus! {

/// The deepest container nesting the decoder accepts. Bounding the depth
/// keeps the recursive descent from exhausting the call stack on adversarial
/// input; input nested beyond the bound is rejected as malformed.
pub const MAX_DEPTH: u32 = 64;

/// Why a byte buffer was rejected by the decoder.
#[derive(Debug, PartialEq, Eq)]
pub enum InputFault {
    /// The buffer ended where the grammar required another byte.
    EndOfInput,
    /// This byte cannot continue any production at its position.
    UnexpectedByte(u8),
    /// A numeral with a leading zero, or a `-0` integer body.
    LeadingZero,
    /// An integer term `ie` or `i-e` with no digits.
    EmptyInteger,
    /// An integer that does not fit in 64 signed bits.
    IntegerOverflow,
    /// A byte string whose declared length exceeds the bytes that remain.
    Truncated,
    /// A dictionary key position holding something other than a byte string.
    KeyNotByteString,
    /// Containers nested deeper than [`MAX_DEPTH`].
    TooDeep,
    /// Well-formed term followed by bytes that were not consumed.
    TrailingData,
}

/// A grammar violation: the offset of the offending position and what was
/// wrong there.
#[derive(Debug, PartialEq, Eq)]
pub struct MalformedInput {
    /// Byte offset into the decoded buffer.
    pub offset: usize,
    /// The kind of violation.
    pub detail: InputFault,
}

/// The magnitude of a 64-bit integer.
pub open spec fn int_mag(x: i64) -> nat {
    if x < 0 {
        (-(x as int)) as nat
    } else {
        x as nat
    }
}

/// Transfers one byte of an encoding from the buffer to the encoding.
proof fn lemma_encodes_at_index(b: Seq<u8>, pos: int, m: BValue, k: int)
    requires
        encodes_at(b, pos, m),
        0 <= k < spec_encode(m).len(),
    ensures
        b[pos + k] == spec_encode(m)[k],
{
    assert(b.subrange(pos, pos + spec_encode(m).len() as int)[k] == b[pos + k]);
}

/// Where the pieces of an integer encoding lie in the buffer: the digits of
/// the magnitude start at `start` and run up to the `'e'` terminator.
proof fn lemma_int_candidate(b: Seq<u8>, pos: int, start: int, neg: bool, x: i64)
    requires
        encodes_at(b, pos, BValue::Int(x)),
        neg ==> start == pos + 2 && pos + 1 < b.len() && b[pos + 1] == MARK_MINUS,
        !neg ==> start == pos + 1 && (pos + 1 < b.len() ==> b[pos + 1] != MARK_MINUS),
    ensures
        (x < 0) == neg,
        start + dec_rep(int_mag(x)).len() + 1 <= b.len(),
        forall|k: int|
            0 <= k < dec_rep(int_mag(x)).len() ==> b[start + k] == dec_rep(int_mag(x))[k],
        b[start + dec_rep(int_mag(x)).len()] == MARK_END,
{
    let body = int_body(x as int);
    let e = spec_encode(BValue::Int(x));
    let dr = dec_rep(int_mag(x));
    lemma_int_body_shape(x as int);
    assert(e.len() == body.len() + 2);
    assert forall|k: int| 0 <= k < body.len() implies b[pos + 1 + k] == body[k] by {
        lemma_encodes_at_index(b, pos, BValue::Int(x), 1 + k);
        assert(e[1 + k] == body[k]);
    }
    lemma_encodes_at_index(b, pos, BValue::Int(x), 1 + body.len() as int);
    assert(e[1 + body.len() as int] == MARK_END);
    assert(pos + 1 < b.len()) by {
        assert(pos + e.len() <= b.len());
    }
    if x < 0 {
        assert(body[0] == MARK_MINUS);
        assert(b[pos + 1] == MARK_MINUS);
        assert(neg) by {
            if !neg {
                assert(b[pos + 1] != MARK_MINUS);
            }
        }
        assert(body =~= seq![MARK_MINUS] + dr);
        assert forall|k: int| 0 <= k < dr.len() implies b[start + k] == dr[k] by {
            assert(body[1 + k] == dr[k]);
            assert(b[pos + 1 + (1 + k)] == body[1 + k]);
        }
        assert(b[start + dr.len()] == b[pos + 1 + body.len()]);
    } else {
        assert(is_digit(body[0]));
        assert(body[0] != MARK_MINUS);
        assert(b[pos + 1] == body[0]);
        assert(!neg);
        assert(body =~= dr);
        assert forall|k: int| 0 <= k < dr.len() implies b[start + k] == dr[k] by {
            assert(b[pos + 1 + k] == body[k]);
        }
    }
}

/// Where the pieces of a byte-string encoding lie in the buffer: the length
/// numeral starts at `pos`, then the `':'`, then the payload.
proof fn lemma_bytes_candidate(b: Seq<u8>, pos: int, s: Seq<u8>)
    requires
        encodes_at(b, pos, BValue::Bytes(s)),
    ensures
        pos + dec_rep(s.len()).len() + 1 + s.len() <= b.len(),
        forall|k: int|
            0 <= k < dec_rep(s.len()).len() ==> b[pos + k] == dec_rep(s.len())[k],
        b[pos + dec_rep(s.len()).len()] == MARK_COLON,
        forall|k: int|
            0 <= k < s.len() ==> b[pos + dec_rep(s.len()).len() + 1 + k] == s[k],
{
    let dr = dec_rep(s.len());
    let e = spec_encode(BValue::Bytes(s));
    assert(e =~= dr + seq![MARK_COLON] + s);
    assert(e.len() == dr.len() + 1 + s.len());
    assert forall|k: int| 0 <= k < dr.len() implies b[pos + k] == dr[k] by {
        lemma_encodes_at_index(b, pos, BValue::Bytes(s), k);
        assert(e[k] == dr[k]);
    }
    lemma_encodes_at_index(b, pos, BValue::Bytes(s), dr.len() as int);
    assert(e[dr.len() as int] == MARK_COLON);
    assert forall|k: int| 0 <= k < s.len() implies b[pos + dr.len() + 1 + k] == s[k] by {
        lemma_encodes_at_index(b, pos, BValue::Bytes(s), dr.len() + 1 + k);
        assert(e[dr.len() + 1 + k] == s[k]);
    }
}

/// Parses a byte-string term `<len>:<payload>` at `pos`.
#[verifier::loop_isolation(false)]
fn parse_bytes(b: &[u8], pos: usize) -> (r: Result<(Vec<u8>, usize), MalformedInput>)
    requires
        pos < b@.len(),
        is_digit(b@[pos as int]),
    ensures
        r matches Ok(p) ==> ({
            &&& pos < p.1 <= b@.len()
            &&& b@.subrange(pos as int, p.1 as int) == spec_encode(BValue::Bytes(p.0@))
        }),
        r matches Err(_) ==> forall|s: Seq<u8>| !encodes_at(b@, pos as int, BValue::Bytes(s)),
{
    let len = b.len();
    let ghost gpos = pos as int;
    let mut j = pos;
    let mut acc: u128 = 0;
    while j < len && 48 <= b[j] && b[j] <= 57
        invariant
            gpos <= j <= len,
            forall|k: int| gpos <= k < j ==> is_digit(#[trigger] b@[k]),
            acc == digits_val(b@.subrange(gpos, j as int)),
            acc <= len as u128,
        decreases len - j,
    {
        let d = (b[j] - 48) as u128;
        let na = acc * 10 + d;
        proof {
            let sj = j as int;
            let s = b@.subrange(gpos, sj + 1);
            assert(s.drop_last() =~= b@.subrange(gpos, sj));
            assert(s.last() == b@[sj]);
            assert(digits_val(s) == acc * 10 + d);
        }
        if na > len as u128 {
            proof {
                let sj = j as int;
                assert forall|s: Seq<u8>| !encodes_at(b@, gpos, BValue::Bytes(s)) by {
                    if encodes_at(b@, gpos, BValue::Bytes(s)) {
                        lemma_bytes_candidate(b@, gpos, s);
                        lemma_dec_rep_canon(s.len());
                        lemma_digits_val_dec_rep(s.len());
                        let dr = dec_rep(s.len());
                        let cpos = gpos + dr.len();
                        assert(!is_digit(MARK_COLON));
                        if cpos <= sj {
                            assert(b@[cpos] == MARK_COLON);
                            assert(is_digit(b@[cpos]));
                            assert(false);
                        }
                        assert(dr.len() >= sj + 1 - gpos);
                        let pre = dr.subrange(0, sj + 1 - gpos);
                        assert(pre =~= b@.subrange(gpos, sj + 1)) by {
                            assert(forall|k: int|
                                0 <= k < pre.len() ==> #[trigger] pre[k] == dr[k]
                                    && b@[gpos + k] == dr[k]);
                        }
                        lemma_digits_val_extend(dr, sj + 1 - gpos);
                        assert(digits_val(pre) == na);
                        assert(s.len() >= na);
                        assert(s.len() < b@.len());
                        assert(false);
                    }
                }
            }
            return Err(MalformedInput { offset: j, detail: InputFault::Truncated });
        }
        acc = na;
        j = j + 1;
    }
    if j == len {
        proof {
            assert forall|s: Seq<u8>| !encodes_at(b@, gpos, BValue::Bytes(s)) by {
                if encodes_at(b@, gpos, BValue::Bytes(s)) {
                    lemma_bytes_candidate(b@, gpos, s);
                    lemma_dec_rep_canon(s.len());
                    let dr = dec_rep(s.len());
                    let cpos = gpos + dr.len();
                    assert(gpos <= cpos < len);
                    assert(is_digit(b@[cpos]));
                    assert(b@[cpos] == MARK_COLON);
                    assert(false);
                }
            }
        }
        return Err(MalformedInput { offset: len, detail: InputFault::EndOfInput });
    }
    let c = b[j];
    if c != MARK_COLON {
        proof {
            let sj = j as int;
            assert forall|s: Seq<u8>| !encodes_at(b@, gpos, BValue::Bytes(s)) by {
                if encodes_at(b@, gpos, BValue::Bytes(s)) {
                    lemma_bytes_candidate(b@, gpos, s);
                    lemma_dec_rep_canon(s.len());
                    let dr = dec_rep(s.len());
                    let cpos = gpos + dr.len();
                    if cpos < sj {
                        assert(b@[cpos] == MARK_COLON);
                        assert(is_digit(b@[cpos]));
                    } else if cpos == sj {
                        assert(b@[sj] == MARK_COLON);
                    } else {
                        assert(0 <= sj - gpos < dr.len());
                        assert(b@[gpos + (sj - gpos)] == dr[sj - gpos]);
                        assert(is_digit(b@[sj]));
                    }
                    assert(false);
                }
            }
        }
        return Err(MalformedInput { offset: j, detail: InputFault::UnexpectedByte(c) });
    }
    // b[j] == MARK_COLON; the numeral is b[pos..j] and is nonempty.
    proof {
        if j == pos {
            assert(is_digit(b@[gpos]));
            assert(false);
        }
    }
    if b[pos] == 48 && j > pos + 1 {
        proof {
            let sj = j as int;
            assert forall|s: Seq<u8>| !encodes_at(b@, gpos, BValue::Bytes(s)) by {
                if encodes_at(b@, gpos, BValue::Bytes(s)) {
                    lemma_bytes_candidate(b@, gpos, s);
                    lemma_dec_rep_canon(s.len());
                    let dr = dec_rep(s.len());
                    let cpos = gpos + dr.len();
                    assert(!is_digit(MARK_COLON));
                    if cpos < sj {
                        assert(b@[cpos] == MARK_COLON);
                        assert(is_digit(b@[cpos]));
                        assert(false);
                    }
                    if cpos > sj {
                        assert(0 <= sj - gpos < dr.len());
                        assert(b@[gpos + (sj - gpos)] == dr[sj - gpos]);
                        assert(is_digit(b@[sj]));
                        assert(b@[sj] == MARK_COLON);
                        assert(false);
                    }
                    assert(dr.len() == sj - gpos);
                    assert(dr[0] == b@[gpos]);
                    assert(dr[0] == 48);
                    assert(dr.len() == 1);
                    assert(false);
                }
            }
        }
        return Err(MalformedInput { offset: pos, detail: InputFault::LeadingZero });
    }
    let l = acc as usize;
    if l > len - (j + 1) {
        proof {
            let sj = j as int;
            assert forall|s: Seq<u8>| !encodes_at(b@, gpos, BValue::Bytes(s)) by {
                if encodes_at(b@, gpos, BValue::Bytes(s)) {
                    lemma_bytes_candidate(b@, gpos, s);
                    lemma_dec_rep_canon(s.len());
                    lemma_digits_val_dec_rep(s.len());
                    let dr = dec_rep(s.len());
                    let cpos = gpos + dr.len();
                    assert(!is_digit(MARK_COLON));
                    if cpos < sj {
                        assert(b@[cpos] == MARK_COLON);
                        assert(is_digit(b@[cpos]));
                        assert(false);
                    }
                    if cpos > sj {
                        assert(0 <= sj - gpos < dr.len());
                        assert(b@[gpos + (sj - gpos)] == dr[sj - gpos]);
                        assert(is_digit(b@[sj]));
                        assert(b@[sj] == MARK_COLON);
                        assert(false);
                    }
                    assert(dr =~= b@.subrange(gpos, sj)) by {
                        assert(forall|k: int|
                            0 <= k < dr.len() ==> #[trigger] dr[k] == b@[gpos + k]);
                    }
                    assert(s.len() == acc);
                    assert(gpos + dr.len() + 1 + s.len() <= len);
                    assert(false);
                }
            }
        }
        return Err(MalformedInput { offset: j, detail: InputFault::Truncated });
    }
    let mut out: Vec<u8> = Vec::new();
    let mut k: usize = 0;
    while k < l
        invariant
            k <= l,
            j + 1 + l <= len,
            out@.len() == k,
            out@ == b@.subrange(j + 1, j + 1 + k as int),
        decreases l - k,
    {
        out.push(b[j + 1 + k]);
        k = k + 1;
        proof {
            assert(out@ =~= b@.subrange(j + 1, j + 1 + k as int));
        }
    }
    proof {
        let sj = j as int;
        let s = b@.subrange(gpos, sj);
        assert(s.len() > 0);
        assert(s[0] == b@[gpos]);
        assert(s[0] == 48 ==> s.len() == 1);
        lemma_dec_rep_digits_val(s);
        assert(out@.len() == l);
        assert(dec_rep(out@.len()) == s);
        let e = spec_encode(BValue::Bytes(out@));
        assert(e =~= s + seq![MARK_COLON] + out@);
        assert(b@.subrange(gpos, sj + 1 + l as int) =~= e) by {
            assert(forall|i: int| 0 <= i < s.len() ==> #[trigger] s[i] == b@[gpos + i]);
            assert(forall|i: int|
                0 <= i < l ==> #[trigger] out@[i] == b@[sj + 1 + i]);
        }
    }
    Ok((out, j + 1 + l))
}

/// Parses an integer term `i<body>e` at `pos`.
#[verifier::loop_isolation(false)]
fn parse_int(b: &[u8], pos: usize) -> (r: Result<(i64, usize), MalformedInput>)
    requires
        pos < b@.len(),
        b@[pos as int] == MARK_INT,
    ensures
        r matches Ok(p) ==> ({
            &&& pos < p.1 <= b@.len()
            &&& b@.subrange(pos as int, p.1 as int) == spec_encode(BValue::Int(p.0))
        }),
        r matches Err(_) ==> forall|x: i64| !encodes_at(b@, pos as int, BValue::Int(x)),
{
    let len = b.len();
    let ghost gpos = pos as int;
    let mut j = pos + 1;
    let mut neg = false;
    if j < len && b[j] == MARK_MINUS {
        neg = true;
        j = j + 1;
    }
    let start = j;
    let ghost gstart = start as int;
    // The largest magnitude an i64 of this sign can carry.
    let bound: u128 = if neg {
        9223372036854775808u128
    } else {
        9223372036854775807u128
    };
    let mut acc: u128 = 0;
    while j < len && 48 <= b[j] && b[j] <= 57
        invariant
            pos < b@.len(),
            b@[gpos] == MARK_INT,
            len == b@.len(),
            gstart <= j <= len,
            neg ==> gstart == gpos + 2 && gpos + 1 < len && b@[gpos + 1] == MARK_MINUS,
            !neg ==> gstart == gpos + 1 && (gpos + 1 < len ==> b@[gpos + 1] != MARK_MINUS),
            forall|k: int| gstart <= k < j ==> is_digit(#[trigger] b@[k]),
            acc == digits_val(b@.subrange(gstart, j as int)),
            acc <= bound,
            neg ==> bound == 9223372036854775808u128,
            !neg ==> bound == 9223372036854775807u128,
        decreases len - j,
    {
        let d = (b[j] - 48) as u128;
        let na = acc * 10 + d;
        proof {
            let sj = j as int;
            let s = b@.subrange(gstart, sj + 1);
            assert(s.drop_last() =~= b@.subrange(gstart, sj));
            assert(s.last() == b@[sj]);
            assert(digits_val(s) == acc * 10 + d);
        }
        if na > bound {
            proof {
                let sj = j as int;
                assert forall|x: i64| !encodes_at(b@, gpos, BValue::Int(x)) by {
                    if encodes_at(b@, gpos, BValue::Int(x)) {
                        lemma_int_candidate(b@, gpos, gstart, neg, x);
                        lemma_dec_rep_canon(int_mag(x));
                        lemma_digits_val_dec_rep(int_mag(x));
                        let dr = dec_rep(int_mag(x));
                        let tpos = gstart + dr.len();
                        // The terminator is not a digit, so it lies past j;
                        // hence the scanned digits, including b[j], are a
                        // prefix of the candidate's digits.
                        assert(!is_digit(MARK_END));
                        if tpos <= sj {
                            if tpos == sj {
                                assert(b@[sj] == MARK_END);
                                assert(is_digit(b@[sj]));
                            } else {
                                assert(b@[tpos] == MARK_END);
                                assert(gstart <= tpos < sj);
                                assert(is_digit(b@[tpos]));
                            }
                            assert(false);
                        }
                        assert(dr.len() >= sj + 1 - gstart);
                        let pre = dr.subrange(0, sj + 1 - gstart);
                        assert(pre =~= b@.subrange(gstart, sj + 1)) by {
                            assert(forall|k: int|
                                0 <= k < pre.len() ==> #[trigger] pre[k] == dr[k]
                                    && b@[gstart + k] == dr[k]);
                        }
                        lemma_digits_val_extend(dr, sj + 1 - gstart);
                        assert(digits_val(pre) == na);
                        assert(int_mag(x) >= na);
                        // But an i64 magnitude of this sign stays within bound.
                        assert(int_mag(x) <= bound);
                        assert(false);
                    }
                }
            }
            return Err(MalformedInput { offset: j, detail: InputFault::IntegerOverflow });
        }
        acc = na;
        j = j + 1;
    }
    if j == len {
        proof {
            assert forall|x: i64| !encodes_at(b@, gpos, BValue::Int(x)) by {
                if encodes_at(b@, gpos, BValue::Int(x)) {
                    lemma_int_candidate(b@, gpos, gstart, neg, x);
                    lemma_dec_rep_canon(int_mag(x));
                    let dr = dec_rep(int_mag(x));
                    let tpos = gstart + dr.len();
                    assert(gstart <= tpos < len);
                    assert(is_digit(b@[tpos]));
                    assert(b@[tpos] == MARK_END);
                    assert(false);
                }
            }
        }
        return Err(MalformedInput { offset: len, detail: InputFault::EndOfInput });
    }
    let c = b[j];
    if c != MARK_END {
        proof {
            let sj = j as int;
            assert forall|x: i64| !encodes_at(b@, gpos, BValue::Int(x)) by {
                if encodes_at(b@, gpos, BValue::Int(x)) {
                    lemma_int_candidate(b@, gpos, gstart, neg, x);
                    lemma_dec_rep_canon(int_mag(x));
                    let dr = dec_rep(int_mag(x));
                    let tpos = gstart + dr.len();
                    if tpos < sj {
                        assert(b@[tpos] == MARK_END);
                        assert(is_digit(b@[tpos]));
                    } else if tpos == sj {
                        assert(b@[sj] == MARK_END);
                    } else {
                        assert(0 <= sj - gstart < dr.len());
                        assert(b@[gstart + (sj - gstart)] == dr[sj - gstart]);
                        assert(is_digit(b@[sj]));
                    }
                    assert(false);
                }
            }
        }
        return Err(MalformedInput { offset: j, detail: InputFault::UnexpectedByte(c) });
    }
    // b[j] == MARK_END.
    if j == start {
        proof {
            assert forall|x: i64| !encodes_at(b@, gpos, BValue::Int(x)) by {
                if encodes_at(b@, gpos, BValue::Int(x)) {
                    lemma_int_candidate(b@, gpos, gstart, neg, x);
                    lemma_dec_rep_canon(int_mag(x));
                    let dr = dec_rep(int_mag(x));
                    assert(b@[gstart + 0] == dr[0]);
                    assert(is_digit(b@[gstart as int]));
                    assert(b@[gstart as int] == MARK_END);
                    assert(false);
                }
            }
        }
        return Err(MalformedInput { offset: j, detail: InputFault::EmptyInteger });
    }
    if b[start] == 48 && (neg || j > start + 1) {
        proof {
            assert forall|x: i64| !encodes_at(b@, gpos, BValue::Int(x)) by {
                if encodes_at(b@, gpos, BValue::Int(x)) {
                    lemma_int_candidate(b@, gpos, gstart, neg, x);
                    lemma_dec_rep_canon(int_mag(x));
                    lemma_digits_val_dec_rep(int_mag(x));
                    let dr = dec_rep(int_mag(x));
                    let tpos = gstart + dr.len();
                    let sj = j as int;
                    // The terminator must sit exactly at j.
                    assert(!is_digit(MARK_END));
                    if tpos < sj {
                        assert(b@[tpos] == MARK_END);
                        assert(is_digit(b@[tpos]));
                        assert(false);
                    }
                    if tpos > sj {
                        assert(0 <= sj - gstart < dr.len());
                        assert(b@[gstart + (sj - gstart)] == dr[sj - gstart]);
                        assert(is_digit(b@[sj]));
                        assert(b@[sj] == MARK_END);
                        assert(false);
                    }
                    assert(dr.len() == sj - gstart);
                    assert(dr[0] == b@[gstart as int]);
                    assert(dr[0] == 48);
                    // Canonical numerals only start with '0' when they are "0".
                    assert(dr.len() == 1);
                    assert(int_mag(x) == digits_val(seq![48u8])) by {
                        assert(dr =~= seq![48u8]);
                    }
                    assert(digits_val(seq![48u8]) == 0) by {
                        let z = seq![48u8];
                        assert(z.drop_last() =~= Seq::<u8>::empty());
                        reveal_with_fuel(digits_val, 2);
                    }
                    assert(int_mag(x) == 0);
                    if neg {
                        // A negative candidate has nonzero magnitude.
                        assert(x < 0);
                        assert(false);
                    } else {
                        // Then the digits are just "0", contradicting j > start + 1.
                        assert(sj == gstart + 1);
                        assert(false);
                    }
                }
            }
        }
        return Err(MalformedInput { offset: start, detail: InputFault::LeadingZero });
    }
    let x: i64 = if neg {
        if acc == 9223372036854775808u128 {
            i64::MIN
        } else {
            proof {
                lemma_digits_val_pos(b@.subrange(gstart, j as int));
            }
            -(acc as i64)
        }
    } else {
        acc as i64
    };
    proof {
        let sj = j as int;
        let s = b@.subrange(gstart, sj);
        assert(s.len() > 0);
        assert(s[0] == b@[gstart as int]);
        if neg {
            assert(s[0] != 48);
            lemma_digits_val_pos(s);
        }
        assert(s[0] == 48 ==> s.len() == 1);
        lemma_dec_rep_digits_val(s);
        assert(int_mag(x) == acc);
        assert(dec_rep(int_mag(x)) == s);
        let e = spec_encode(BValue::Int(x));
        let body = int_body(x as int);
        if neg {
            assert(x < 0);
            assert(body =~= seq![MARK_MINUS] + s);
        } else {
            assert(x >= 0);
            assert(body =~= s);
        }
        assert(b@.subrange(gpos, sj + 1) =~= e) by {
            assert(e =~= seq![MARK_INT] + body + seq![MARK_END]);
            assert(e.len() == body.len() + 2);
            assert(sj + 1 - gpos == e.len());
            assert(forall|k: int|
                0 <= k < s.len() ==> #[trigger] s[k] == b@[gstart + k]);
        }
    }
    Ok((x, j + 1))
}

/// Where the pieces of a list encoding lie in the buffer: after the first
/// `k` elements' run comes the `k`-th element, and after the whole run the
/// `'e'` terminator.
proof fn lemma_list_candidate(b: Seq<u8>, pos: int, ms: Seq<BValue>, k: int)
    requires
        encodes_at(b, pos, BValue::List(ms)),
        0 <= k <= ms.len(),
    ensures
        b[pos] == MARK_LIST,
        pos + 1 + encode_seq(ms).len() + 1 <= b.len(),
        b[pos + 1 + encode_seq(ms).len()] == MARK_END,
        encode_seq(ms.take(k)).len() <= encode_seq(ms).len(),
        b.subrange(pos + 1, pos + 1 + encode_seq(ms.take(k)).len() as int)
            == encode_seq(ms.take(k)),
        k < ms.len() ==> encodes_at(b, pos + 1 + encode_seq(ms.take(k)).len(), ms[k]),
{
    let m = BValue::List(ms);
    let e = spec_encode(m);
    let run = encode_seq(ms);
    assert(e =~= seq![MARK_LIST] + run + seq![MARK_END]);
    assert(e.len() == run.len() + 2);
    lemma_encodes_at_index(b, pos, m, 0);
    lemma_encodes_at_index(b, pos, m, 1 + run.len() as int);
    assert(e[1 + run.len() as int] == MARK_END);
    lemma_encode_seq_split(ms, k);
    let hd = encode_seq(ms.take(k));
    let tl = encode_seq(ms.skip(k));
    assert(run.len() == hd.len() + tl.len());
    assert forall|i: int| 0 <= i < run.len() implies b[pos + 1 + i] == run[i] by {
        lemma_encodes_at_index(b, pos, m, 1 + i);
        assert(e[1 + i] == run[i]);
    }
    assert(b.subrange(pos + 1, pos + 1 + hd.len() as int) =~= hd) by {
        assert(forall|i: int| 0 <= i < hd.len() ==> #[trigger] hd[i] == run[i]);
    }
    if k < ms.len() {
        lemma_encode_seq_skip_head(ms, k);
        let el = spec_encode(ms[k]);
        let off = pos + 1 + hd.len();
        assert(tl.len() == el.len() + encode_seq(ms.skip(k + 1)).len());
        assert(b.subrange(off, off + el.len() as int) =~= el) by {
            assert(forall|i: int|
                0 <= i < el.len() ==> #[trigger] el[i] == tl[i] && tl[i] == run[hd.len() + i]);
        }
    }
}

/// Where the pieces of a dictionary encoding lie in the buffer: after the
/// first `k` entries' run come the `k`-th key and then its value, and after
/// the whole run the `'e'` terminator.
proof fn lemma_dict_candidate(b: Seq<u8>, pos: int, ps: Seq<(Seq<u8>, BValue)>, k: int)
    requires
        encodes_at(b, pos, BValue::Dict(ps)),
        0 <= k <= ps.len(),
    ensures
        b[pos] == MARK_DICT,
        pos + 1 + encode_pairs(ps).len() + 1 <= b.len(),
        b[pos + 1 + encode_pairs(ps).len()] == MARK_END,
        encode_pairs(ps.take(k)).len() <= encode_pairs(ps).len(),
        b.subrange(pos + 1, pos + 1 + encode_pairs(ps.take(k)).len() as int)
            == encode_pairs(ps.take(k)),
        k < ps.len() ==> encodes_at(
            b,
            pos + 1 + encode_pairs(ps.take(k)).len(),
            BValue::Bytes(ps[k].0),
        ),
        k < ps.len() ==> encodes_at(
            b,
            pos + 1 + encode_pairs(ps.take(k)).len() + enc_bytes(ps[k].0).len(),
            ps[k].1,
        ),
{
    let m = BValue::Dict(ps);
    let e = spec_encode(m);
    let run = encode_pairs(ps);
    assert(e =~= seq![MARK_DICT] + run + seq![MARK_END]);
    assert(e.len() == run.len() + 2);
    lemma_encodes_at_index(b, pos, m, 0);
    lemma_encodes_at_index(b, pos, m, 1 + run.len() as int);
    assert(e[1 + run.len() as int] == MARK_END);
    lemma_encode_pairs_split(ps, k);
    let hd = encode_pairs(ps.take(k));
    let tl = encode_pairs(ps.skip(k));
    assert(run.len() == hd.len() + tl.len());
    assert forall|i: int| 0 <= i < run.len() implies b[pos + 1 + i] == run[i] by {
        lemma_encodes_at_index(b, pos, m, 1 + i);
        assert(e[1 + i] == run[i]);
    }
    assert(b.subrange(pos + 1, pos + 1 + hd.len() as int) =~= hd) by {
        assert(forall|i: int| 0 <= i < hd.len() ==> #[trigger] hd[i] == run[i]);
    }
    if k < ps.len() {
        lemma_encode_pairs_skip_head(ps, k);
        let ke = enc_bytes(ps[k].0);
        let ve = spec_encode(ps[k].1);
        let off = pos + 1 + hd.len();
        assert(tl =~= ke + ve + encode_pairs(ps.skip(k + 1)));
        assert(tl.len() == ke.len() + ve.len() + encode_pairs(ps.skip(k + 1)).len());
        assert(spec_encode(BValue::Bytes(ps[k].0)) == ke);
        assert(b.subrange(off, off + ke.len() as int) =~= ke) by {
            assert(forall|i: int|
                0 <= i < ke.len() ==> #[trigger] ke[i] == tl[i] && tl[i] == run[hd.len() + i]);
        }
        assert(b.subrange(off + ke.len(), off + ke.len() + ve.len() as int) =~= ve) by {
            assert(forall|i: int|
                0 <= i < ve.len() ==> #[trigger] ve[i] == tl[ke.len() + i]
                    && tl[ke.len() + i] == run[hd.len() + ke.len() + i]);
        }
    }
}

/// Parses one value at `pos`, rejecting containers nested more than `depth`
/// levels deep.
#[verifier::loop_isolation(false)]
#[verifier::rlimit(100)]
fn parse_value(b: &[u8], pos: usize, depth: u32) -> (r: Result<
    (BencodeValue, usize),
    MalformedInput,
>)
    requires
        pos <= b@.len(),
    ensures
        r matches Ok(p) ==> ({
            &&& pos < p.1 <= b@.len()
            &&& b@.subrange(pos as int, p.1 as int) == spec_encode(model_of(p.0))
            &&& depth_le(model_of(p.0), depth as nat)
        }),
        r matches Err(_) ==> forall|m: BValue|
            depth_le(m, depth as nat) ==> !encodes_at(b@, pos as int, m),
    decreases b@.len() - pos,
{
    let len = b.len();
    let ghost gpos = pos as int;
    if pos >= len {
        proof {
            assert forall|m: BValue|
                depth_le(m, depth as nat) implies !encodes_at(b@, gpos, m) by {
                lemma_encode_shape(m);
            }
        }
        return Err(MalformedInput { offset: pos, detail: InputFault::EndOfInput });
    }
    let c = b[pos];
    if c == MARK_INT {
        match parse_int(b, pos) {
            Ok(p) => Ok((BencodeValue::Integer(p.0), p.1)),
            Err(f) => {
                proof {
                    assert forall|m: BValue|
                        depth_le(m, depth as nat) implies !encodes_at(b@, gpos, m) by {
                        if encodes_at(b@, gpos, m) {
                            lemma_encode_shape(m);
                            lemma_encodes_at_index(b@, gpos, m, 0);
                            assert(m is Int);
                            assert(encodes_at(b@, gpos, BValue::Int(m->Int_0)));
                            assert(false);
                        }
                    }
                }
                Err(f)
            },
        }
    } else if 48 <= c && c <= 57 {
        match parse_bytes(b, pos) {
            Ok(p) => Ok((BencodeValue::ByteString(p.0), p.1)),
            Err(f) => {
                proof {
                    assert forall|m: BValue|
                        depth_le(m, depth as nat) implies !encodes_at(b@, gpos, m) by {
                        if encodes_at(b@, gpos, m) {
                            lemma_encode_shape(m);
                            lemma_encodes_at_index(b@, gpos, m, 0);
                            assert(m is Bytes);
                            assert(encodes_at(b@, gpos, BValue::Bytes(m->Bytes_0)));
                            assert(false);
                        }
                    }
                }
                Err(f)
            },
        }
    } else if c == MARK_LIST {
        if depth == 0 {
            proof {
                assert forall|m: BValue|
                    depth_le(m, depth as nat) implies !encodes_at(b@, gpos, m) by {
                    if encodes_at(b@, gpos, m) {
                        lemma_encode_shape(m);
                        lemma_encodes_at_index(b@, gpos, m, 0);
                        assert(m is List);
                    }
                }
            }
            return Err(MalformedInput { offset: pos, detail: InputFault::TooDeep });
        }
        let mut items: Vec<BencodeValue> = Vec::new();
        let mut cur = pos + 1;
        loop
            invariant
                pos < cur <= len,
                encode_seq(model_seq(items@)) == b@.subrange(gpos + 1, cur as int),
                forall|i: int|
                    0 <= i < items@.len() ==> depth_le(
                        #[trigger] model_seq(items@)[i],
                        (depth - 1) as nat,
                    ),
                forall|ms: Seq<BValue>|
                    depth_le(BValue::List(ms), depth as nat) && #[trigger] encodes_at(
                        b@,
                        gpos,
                        BValue::List(ms),
                    ) ==> ms.len() >= items@.len() && ms.take(items@.len() as int)
                        == model_seq(items@),
            decreases len - cur,
        {
            let ghost nk = items@.len() as int;
            if cur >= len {
                proof {
                    assert forall|m: BValue|
                        depth_le(m, depth as nat) implies !encodes_at(b@, gpos, m) by {
                        if encodes_at(b@, gpos, m) {
                            lemma_encode_shape(m);
                            lemma_encodes_at_index(b@, gpos, m, 0);
                            assert(m is List);
                            let ms = m->List_0;
                            assert(encodes_at(b@, gpos, BValue::List(ms)));
                            lemma_list_candidate(b@, gpos, ms, nk);
                            if ms.len() == nk {
                                assert(ms.take(nk) =~= ms);
                                assert(gpos + 1 + encode_seq(ms).len() == cur);
                            } else {
                                lemma_encode_shape(ms[nk]);
                                assert(gpos + 1 + encode_seq(ms.take(nk)).len() == cur);
                            }
                            assert(false);
                        }
                    }
                }
                return Err(MalformedInput { offset: cur, detail: InputFault::EndOfInput });
            }
            let c2 = b[cur];
            if c2 == MARK_END {
                proof {
                    let mm = model_of(BencodeValue::List(items));
                    assert(mm == BValue::List(model_seq(items@)));
                    let e = spec_encode(mm);
                    assert(e =~= seq![MARK_LIST] + encode_seq(model_seq(items@))
                        + seq![MARK_END]);
                    assert(b@.subrange(gpos, cur + 1) =~= e) by {
                        assert(forall|i: int|
                            0 <= i < cur - gpos - 1 ==> #[trigger] b@.subrange(
                                gpos + 1,
                                cur as int,
                            )[i] == b@[gpos + 1 + i]);
                    }
                    assert(depth_le(mm, depth as nat));
                }
                return Ok((BencodeValue::List(items), cur + 1));
            }
            let sub = parse_value(b, cur, depth - 1);
            match sub {
                Ok(p) => {
                    let ghost oldm = model_seq(items@);
                    let ghost vm = model_of(p.0);
                    let end = p.1;
                    proof {
                        assert(encodes_at(b@, cur as int, vm));
                        lemma_encode_seq_push(oldm, vm);
                        assert(model_seq(items@.push(p.0)) =~= oldm.push(vm));
                        assert(b@.subrange(gpos + 1, end as int) =~= b@.subrange(
                            gpos + 1,
                            cur as int,
                        ) + b@.subrange(cur as int, end as int));
                        assert forall|ms: Seq<BValue>|
                            depth_le(BValue::List(ms), depth as nat) && #[trigger] encodes_at(
                                b@,
                                gpos,
                                BValue::List(ms),
                            ) implies ms.len() >= nk + 1 && ms.take(nk + 1)
                            == oldm.push(vm) by {
                            lemma_list_candidate(b@, gpos, ms, nk);
                            if ms.len() == nk {
                                assert(ms.take(nk) =~= ms);
                                assert(gpos + 1 + encode_seq(ms).len() == cur);
                                assert(b@[cur as int] == MARK_END);
                                assert(false);
                            }
                            assert(gpos + 1 + encode_seq(ms.take(nk)).len() == cur);
                            assert(encodes_at(b@, cur as int, ms[nk]));
                            lemma_encodes_at_unique(b@, cur as int, ms[nk], vm);
                            assert(ms.take(nk + 1) =~= ms.take(nk).push(ms[nk]));
                            assert(ms.take(nk + 1) =~= oldm.push(vm));
                        }
                    }
                    items.push(p.0);
                    cur = end;
                },
                Err(f) => {
                    proof {
                        assert forall|m: BValue|
                            depth_le(m, depth as nat) implies !encodes_at(b@, gpos, m) by {
                            if encodes_at(b@, gpos, m) {
                                lemma_encode_shape(m);
                                lemma_encodes_at_index(b@, gpos, m, 0);
                                assert(m is List);
                                let ms = m->List_0;
                                assert(encodes_at(b@, gpos, BValue::List(ms)));
                                lemma_list_candidate(b@, gpos, ms, nk);
                                if ms.len() == nk {
                                    assert(ms.take(nk) =~= ms);
                                    assert(gpos + 1 + encode_seq(ms).len() == cur);
                                    assert(b@[cur as int] == MARK_END);
                                    assert(false);
                                }
                                assert(gpos + 1 + encode_seq(ms.take(nk)).len() == cur);
                                assert(encodes_at(b@, cur as int, ms[nk]));
                                assert(depth_le(ms[nk], (depth - 1) as nat));
                                assert(false);
                            }
                        }
                    }
                    return Err(f);
                },
            }
        }
    } else if c == MARK_DICT {
        if depth == 0 {
            proof {
                assert forall|m: BValue|
                    depth_le(m, depth as nat) implies !encodes_at(b@, gpos, m) by {
                    if encodes_at(b@, gpos, m) {
                        lemma_encode_shape(m);
                        lemma_encodes_at_index(b@, gpos, m, 0);
                        assert(m is Dict);
                    }
                }
            }
            return Err(MalformedInput { offset: pos, detail: InputFault::TooDeep });
        }
        let mut entries: Vec<(Vec<u8>, BencodeValue)> = Vec::new();
        let mut cur = pos + 1;
        loop
            invariant
                pos < cur <= len,
                encode_pairs(model_pairs(entries@)) == b@.subrange(gpos + 1, cur as int),
                forall|i: int|
                    0 <= i < entries@.len() ==> depth_le(
                        #[trigger] model_pairs(entries@)[i].1,
                        (depth - 1) as nat,
                    ),
                forall|ps: Seq<(Seq<u8>, BValue)>|
                    depth_le(BValue::Dict(ps), depth as nat) && #[trigger] encodes_at(
                        b@,
                        gpos,
                        BValue::Dict(ps),
                    ) ==> ps.len() >= entries@.len() && ps.take(entries@.len() as int)
                        == model_pairs(entries@),
            decreases len - cur,
        {
            let ghost nk = entries@.len() as int;
            if cur >= len {
                proof {
                    assert forall|m: BValue|
                        depth_le(m, depth as nat) implies !encodes_at(b@, gpos, m) by {
                        if encodes_at(b@, gpos, m) {
                            lemma_encode_shape(m);
                            lemma_encodes_at_index(b@, gpos, m, 0);
                            assert(m is Dict);
                            let ps = m->Dict_0;
                            assert(encodes_at(b@, gpos, BValue::Dict(ps)));
                            lemma_dict_candidate(b@, gpos, ps, nk);
                            if ps.len() == nk {
                                assert(ps.take(nk) =~= ps);
                                assert(gpos + 1 + encode_pairs(ps).len() == cur);
                            } else {
                                lemma_encode_shape(BValue::Bytes(ps[nk].0));
                                assert(gpos + 1 + encode_pairs(ps.take(nk)).len() == cur);
                            }
                            assert(false);
                        }
                    }
                }
                return Err(MalformedInput { offset: cur, detail: InputFault::EndOfInput });
            }
            let c2 = b[cur];
            if c2 == MARK_END {
                proof {
                    let mm = model_of(BencodeValue::Dictionary(entries));
                    assert(mm == BValue::Dict(model_pairs(entries@)));
                    let e = spec_encode(mm);
                    assert(e =~= seq![MARK_DICT] + encode_pairs(model_pairs(entries@))
                        + seq![MARK_END]);
                    assert(b@.subrange(gpos, cur + 1) =~= e) by {
                        assert(forall|i: int|
                            0 <= i < cur - gpos - 1 ==> #[trigger] b@.subrange(
                                gpos + 1,
                                cur as int,
                            )[i] == b@[gpos + 1 + i]);
                    }
                    assert(depth_le(mm, depth as nat));
                }
                return Ok((BencodeValue::Dictionary(entries), cur + 1));
            }
            if !(48 <= c2 && c2 <= 57) {
                proof {
                    assert forall|m: BValue|
                        depth_le(m, depth as nat) implies !encodes_at(b@, gpos, m) by {
                        if encodes_at(b@, gpos, m) {
                            lemma_encode_shape(m);
                            lemma_encodes_at_index(b@, gpos, m, 0);
                            assert(m is Dict);
                            let ps = m->Dict_0;
                            assert(encodes_at(b@, gpos, BValue::Dict(ps)));
                            lemma_dict_candidate(b@, gpos, ps, nk);
                            if ps.len() == nk {
                                assert(ps.take(nk) =~= ps);
                                assert(gpos + 1 + encode_pairs(ps).len() == cur);
                                assert(b@[cur as int] == MARK_END);
                                assert(false);
                            }
                            assert(gpos + 1 + encode_pairs(ps.take(nk)).len() == cur);
                            lemma_encode_shape(BValue::Bytes(ps[nk].0));
                            lemma_encodes_at_index(
                                b@,
                                cur as int,
                                BValue::Bytes(ps[nk].0),
                                0,
                            );
                            assert(is_digit(b@[cur as int]));
                            assert(false);
                        }
                    }
                }
                let fault = if c2 == MARK_INT || c2 == MARK_LIST || c2 == MARK_DICT {
                    InputFault::KeyNotByteString
                } else {
                    InputFault::UnexpectedByte(c2)
                };
                return Err(MalformedInput { offset: cur, detail: fault });
            }
            let key = match parse_bytes(b, cur) {
                Ok(kp) => kp,
                Err(f) => {
                    proof {
                        assert forall|m: BValue|
                            depth_le(m, depth as nat) implies !encodes_at(b@, gpos, m) by {
                            if encodes_at(b@, gpos, m) {
                                lemma_encode_shape(m);
                                lemma_encodes_at_index(b@, gpos, m, 0);
                                assert(m is Dict);
                                let ps = m->Dict_0;
                                assert(encodes_at(b@, gpos, BValue::Dict(ps)));
                                lemma_dict_candidate(b@, gpos, ps, nk);
                                if ps.len() == nk {
                                    assert(ps.take(nk) =~= ps);
                                    assert(gpos + 1 + encode_pairs(ps).len() == cur);
                                    assert(b@[cur as int] == MARK_END);
                                    assert(false);
                                }
                                assert(gpos + 1 + encode_pairs(ps.take(nk)).len() == cur);
                                assert(encodes_at(b@, cur as int, BValue::Bytes(ps[nk].0)));
                                assert(false);
                            }
                        }
                    }
                    return Err(f);
                },
            };
            let kend = key.1;
            let sub = parse_value(b, kend, depth - 1);
            match sub {
                Ok(p) => {
                    let ghost oldm = model_pairs(entries@);
                    let ghost km = key.0@;
                    let ghost vm = model_of(p.0);
                    let end = p.1;
                    proof {
                        assert(encodes_at(b@, cur as int, BValue::Bytes(km)));
                        assert(encodes_at(b@, kend as int, vm));
                        lemma_encode_pairs_push(oldm, km, vm);
                        assert(model_pairs(entries@.push((key.0, p.0))) =~= oldm.push(
                            (km, vm),
                        ));
                        assert(b@.subrange(gpos + 1, end as int) =~= b@.subrange(
                            gpos + 1,
                            cur as int,
                        ) + b@.subrange(cur as int, kend as int) + b@.subrange(
                            kend as int,
                            end as int,
                        ));
                        assert(enc_bytes(km) == spec_encode(BValue::Bytes(km)));
                        assert forall|ps: Seq<(Seq<u8>, BValue)>|
                            depth_le(BValue::Dict(ps), depth as nat) && #[trigger] encodes_at(
                                b@,
                                gpos,
                                BValue::Dict(ps),
                            ) implies ps.len() >= nk + 1 && ps.take(nk + 1)
                            == oldm.push((km, vm)) by {
                            lemma_dict_candidate(b@, gpos, ps, nk);
                            if ps.len() == nk {
                                assert(ps.take(nk) =~= ps);
                                assert(gpos + 1 + encode_pairs(ps).len() == cur);
                                assert(b@[cur as int] == MARK_END);
                                assert(false);
                            }
                            assert(gpos + 1 + encode_pairs(ps.take(nk)).len() == cur);
                            assert(encodes_at(b@, cur as int, BValue::Bytes(ps[nk].0)));
                            lemma_encodes_at_unique(
                                b@,
                                cur as int,
                                BValue::Bytes(ps[nk].0),
                                BValue::Bytes(km),
                            );
                            assert(ps[nk].0 == km);
                            assert(encodes_at(b@, kend as int, ps[nk].1));
                            lemma_encodes_at_unique(b@, kend as int, ps[nk].1, vm);
                            assert(ps[nk] == (km, vm));
                            assert(ps.take(nk + 1) =~= ps.take(nk).push(ps[nk]));
                            assert(ps.take(nk + 1) =~= oldm.push((km, vm)));
                        }
                    }
                    entries.push((key.0, p.0));
                    cur = end;
                },
                Err(f) => {
                    proof {
                        assert forall|m: BValue|
                            depth_le(m, depth as nat) implies !encodes_at(b@, gpos, m) by {
                            if encodes_at(b@, gpos, m) {
                                lemma_encode_shape(m);
                                lemma_encodes_at_index(b@, gpos, m, 0);
                                assert(m is Dict);
                                let ps = m->Dict_0;
                                assert(encodes_at(b@, gpos, BValue::Dict(ps)));
                                lemma_dict_candidate(b@, gpos, ps, nk);
                                if ps.len() == nk {
                                    assert(ps.take(nk) =~= ps);
                                    assert(gpos + 1 + encode_pairs(ps).len() == cur);
                                    assert(b@[cur as int] == MARK_END);
                                    assert(false);
                                }
                                assert(gpos + 1 + encode_pairs(ps.take(nk)).len() == cur);
                                assert(encodes_at(b@, cur as int, BValue::Bytes(ps[nk].0)));
                                lemma_encodes_at_unique(
                                    b@,
                                    cur as int,
                                    BValue::Bytes(ps[nk].0),
                                    BValue::Bytes(key.0@),
                                );
                                assert(encodes_at(b@, kend as int, ps[nk].1));
                                assert(depth_le(ps[nk].1, (depth - 1) as nat));
                                assert(false);
                            }
                        }
                    }
                    return Err(f);
                },
            }
        }
    } else {
        proof {
            assert forall|m: BValue|
                depth_le(m, depth as nat) implies !encodes_at(b@, gpos, m) by {
                if encodes_at(b@, gpos, m) {
                    lemma_encode_shape(m);
                    lemma_encodes_at_index(b@, gpos, m, 0);
                    assert(false);
                }
            }
        }
        Err(MalformedInput { offset: pos, detail: InputFault::UnexpectedByte(c) })
    }
}

/// Decodes one bencode term from the front of `data`.
///
/// On success the result holds the decoded value and the number of bytes its
/// encoding occupied; the remainder of the buffer was not consumed. On
/// failure no well-formed term (within [`MAX_DEPTH`]) starts at the front of
/// `data`.
pub fn decode(data: &[u8]) -> (r: Result<(BencodeValue, usize), MalformedInput>)
    ensures
        r matches Ok(p) ==> ({
            &&& 0 < p.1 <= data@.len()
            &&& data@.subrange(0, p.1 as int) == spec_encode(model_of(p.0))
            &&& depth_le(model_of(p.0), MAX_DEPTH as nat)
        }),
        r matches Err(_) ==> forall|m: BValue|
            depth_le(m, MAX_DEPTH as nat) ==> !encodes_at(data@, 0, m),
{
    parse_value(data, 0, MAX_DEPTH)
}

/// Decodes a buffer holding exactly one bencode term.
///
/// Succeeds precisely on the well-formed encodings (within [`MAX_DEPTH`]):
/// if `data` is the encoding of a value `m`, the whole buffer is consumed
/// and the result models `m`; otherwise the buffer is rejected.
pub fn decode_document(data: &[u8]) -> (r: Result<BencodeValue, MalformedInput>)
    ensures
        r matches Ok(v) ==> spec_encode(model_of(v)) == data@ && depth_le(
            model_of(v),
            MAX_DEPTH as nat,
        ),
        r matches Err(_) ==> forall|m: BValue|
            depth_le(m, MAX_DEPTH as nat) ==> spec_encode(m) != data@,
{
    match decode(data) {
        Ok(p) => {
            if p.1 == data.len() {
                proof {
                    assert(data@.subrange(0, data@.len() as int) =~= data@);
                }
                Ok(p.0)
            } else {
                proof {
                    assert forall|m: BValue|
                        depth_le(m, MAX_DEPTH as nat) implies spec_encode(m) != data@ by {
                        if spec_encode(m) == data@ {
                            assert(data@.subrange(0, data@.len() as int) =~= data@);
                            assert(encodes_at(data@, 0, m));
                            assert(encodes_at(data@, 0, model_of(p.0)));
                            lemma_encodes_at_unique(data@, 0, m, model_of(p.0));
                            assert(spec_encode(model_of(p.0)).len() == p.1);
                            assert(false);
                        }
                    }
                }
                Err(MalformedInput { offset: p.1, detail: InputFault::TrailingData })
            }
        },
        Err(f) => {
            proof {
                assert forall|m: BValue|
                    depth_le(m, MAX_DEPTH as nat) implies spec_encode(m) != data@ by {
                    if spec_encode(m) == data@ {
                        assert(data@.subrange(0, data@.len() as int) =~= data@);
                        assert(encodes_at(data@, 0, m));
                    }
                }
            }
            Err(f)
        },
    }
}

} // verus!
