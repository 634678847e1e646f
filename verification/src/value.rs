//! The bencode value model: a tagged union with one case per grammar
//! production, its mathematical counterpart, and the accessors and builders
//! of the value tree.

use vstd::prelude::*;

verus! {

/// A decoded bencode term.
///
/// Dictionary keys are always byte strings; entries keep the order in which
/// they were read. Lookup is by key equality, so that order never affects a
/// lookup result.
#[derive(Debug)]
pub enum BencodeValue {
    /// An arbitrary byte sequence; not assumed to be UTF-8 text.
    ByteString(Vec<u8>),
    /// A signed integer. Bencode itself puts no bound on integers; this
    /// decoder deliberately caps them at 64 signed bits and rejects input
    /// beyond that range rather than truncate it.
    Integer(i64),
    /// An ordered sequence of values; order is significant and preserved.
    List(Vec<BencodeValue>),
    /// Key/value pairs in the order they were read.
    Dictionary(Vec<(Vec<u8>, BencodeValue)>),
}

/// The mathematical model of a bencode term, used by every contract.
#[verifier::ext_equal]
pub enum BValue {
    Bytes(Seq<u8>),
    Int(i64),
    List(Seq<BValue>),
    Dict(Seq<(Seq<u8>, BValue)>),
}

/// The mathematical model of a value tree: each `Vec` becomes a `Seq` and
/// each node a [`BValue`] node.
pub open spec fn model_of(v: BencodeValue) -> BValue
    decreases v,
{
    match v {
        BencodeValue::ByteString(s) => BValue::Bytes(s@),
        BencodeValue::Integer(i) => BValue::Int(i),
        BencodeValue::List(xs) => BValue::List(model_seq(xs@)),
        BencodeValue::Dictionary(ps) => BValue::Dict(model_pairs(ps@)),
    }
}

/// The models of the elements of a list, in order.
pub open spec fn model_seq(xs: Seq<BencodeValue>) -> Seq<BValue>
    decreases xs,
{
    Seq::new(
        xs.len(),
        |i: int|
            if 0 <= i < xs.len() {
                model_of(xs[i])
            } else {
                arbitrary()
            },
    )
}

/// The models of the entries of a dictionary, in order.
pub open spec fn model_pairs(ps: Seq<(Vec<u8>, BencodeValue)>) -> Seq<(Seq<u8>, BValue)>
    decreases ps,
{
    Seq::new(
        ps.len(),
        |i: int|
            if 0 <= i < ps.len() {
                (ps[i].0@, model_of(ps[i].1))
            } else {
                arbitrary()
            },
    )
}

/// Which production a value belongs to, for type-mismatch reporting.
#[derive(Debug, PartialEq, Eq, Structural, Clone, Copy)]
pub enum ValueKind {
    /// A byte string.
    ByteString,
    /// A signed integer.
    Integer,
    /// A list.
    List,
    /// A dictionary.
    Dictionary,
}

/// The kind of a value.
pub open spec fn kind_of(v: BencodeValue) -> ValueKind {
    match v {
        BencodeValue::ByteString(_) => ValueKind::ByteString,
        BencodeValue::Integer(_) => ValueKind::Integer,
        BencodeValue::List(_) => ValueKind::List,
        BencodeValue::Dictionary(_) => ValueKind::Dictionary,
    }
}

/// A read accessor or builder was applied to the wrong variant.
#[derive(Debug, PartialEq, Eq, Structural, Clone, Copy)]
pub struct TypeMismatch {
    /// The variant the caller assumed.
    pub expected: ValueKind,
    /// The variant actually found.
    pub found: ValueKind,
}

impl BencodeValue {
    /// The kind of this value.
    pub fn kind(&self) -> (k: ValueKind)
        ensures
            k == kind_of(*self),
    {
        match self {
            BencodeValue::ByteString(_) => ValueKind::ByteString,
            BencodeValue::Integer(_) => ValueKind::Integer,
            BencodeValue::List(_) => ValueKind::List,
            BencodeValue::Dictionary(_) => ValueKind::Dictionary,
        }
    }

    /// The payload of a byte string, or a mismatch for any other variant.
    pub fn as_byte_string(&self) -> (r: Result<&Vec<u8>, TypeMismatch>)
        ensures
            r is Ok <==> *self is ByteString,
            r matches Ok(s) ==> *s == self->ByteString_0,
            r matches Err(e) ==> e == (TypeMismatch {
                expected: ValueKind::ByteString,
                found: kind_of(*self),
            }),
    {
        match self {
            BencodeValue::ByteString(s) => Ok(s),
            _ => Err(TypeMismatch { expected: ValueKind::ByteString, found: self.kind() }),
        }
    }

    /// The value of an integer, or a mismatch for any other variant.
    pub fn as_integer(&self) -> (r: Result<i64, TypeMismatch>)
        ensures
            r is Ok <==> *self is Integer,
            r matches Ok(n) ==> n == self->Integer_0,
            r matches Err(e) ==> e == (TypeMismatch {
                expected: ValueKind::Integer,
                found: kind_of(*self),
            }),
    {
        match self {
            BencodeValue::Integer(n) => Ok(*n),
            _ => Err(TypeMismatch { expected: ValueKind::Integer, found: self.kind() }),
        }
    }

    /// The elements of a list, or a mismatch for any other variant.
    pub fn as_list(&self) -> (r: Result<&Vec<BencodeValue>, TypeMismatch>)
        ensures
            r is Ok <==> *self is List,
            r matches Ok(xs) ==> *xs == self->List_0,
            r matches Err(e) ==> e == (TypeMismatch {
                expected: ValueKind::List,
                found: kind_of(*self),
            }),
    {
        match self {
            BencodeValue::List(xs) => Ok(xs),
            _ => Err(TypeMismatch { expected: ValueKind::List, found: self.kind() }),
        }
    }

    /// The entries of a dictionary, or a mismatch for any other variant.
    pub fn as_dictionary(&self) -> (r: Result<&Vec<(Vec<u8>, BencodeValue)>, TypeMismatch>)
        ensures
            r is Ok <==> *self is Dictionary,
            r matches Ok(ps) ==> *ps == self->Dictionary_0,
            r matches Err(e) ==> e == (TypeMismatch {
                expected: ValueKind::Dictionary,
                found: kind_of(*self),
            }),
    {
        match self {
            BencodeValue::Dictionary(ps) => Ok(ps),
            _ => Err(TypeMismatch { expected: ValueKind::Dictionary, found: self.kind() }),
        }
    }

    /// A list with no elements.
    pub fn empty_list() -> (r: BencodeValue)
        ensures
            model_of(r) == BValue::List(Seq::<BValue>::empty()),
    {
        let r = BencodeValue::List(Vec::new());
        proof {
            assert(model_seq(r->List_0@) =~= Seq::<BValue>::empty());
        }
        r
    }

    /// A dictionary with no entries.
    pub fn empty_dictionary() -> (r: BencodeValue)
        ensures
            model_of(r) == BValue::Dict(Seq::<(Seq<u8>, BValue)>::empty()),
    {
        let r = BencodeValue::Dictionary(Vec::new());
        proof {
            assert(model_pairs(r->Dictionary_0@) =~= Seq::<(Seq<u8>, BValue)>::empty());
        }
        r
    }

    /// Appends an element to a list; any other variant is left unchanged
    /// and reported as a mismatch.
    pub fn push_item(&mut self, item: BencodeValue) -> (r: Result<(), TypeMismatch>)
        ensures
            r is Ok <==> *old(self) is List,
            *old(self) is List ==> model_of(*final(self)) == BValue::List(
                model_seq((*old(self))->List_0@).push(model_of(item)),
            ),
            r matches Err(e) ==> *final(self) == *old(self) && e == (TypeMismatch {
                expected: ValueKind::List,
                found: kind_of(*old(self)),
            }),
    {
        match self {
            BencodeValue::List(xs) => {
                let ghost oldxs = xs@;
                xs.push(item);
                proof {
                    assert(model_seq(xs@) =~= model_seq(oldxs).push(model_of(item)));
                }
                Ok(())
            },
            _ => Err(TypeMismatch { expected: ValueKind::List, found: self.kind() }),
        }
    }

    /// Appends an entry to a dictionary; any other variant is left
    /// unchanged and reported as a mismatch.
    pub fn insert_entry(&mut self, key: Vec<u8>, value: BencodeValue) -> (r: Result<
        (),
        TypeMismatch,
    >)
        ensures
            r is Ok <==> *old(self) is Dictionary,
            *old(self) is Dictionary ==> model_of(*final(self)) == BValue::Dict(
                model_pairs((*old(self))->Dictionary_0@).push((key@, model_of(value))),
            ),
            r matches Err(e) ==> *final(self) == *old(self) && e == (TypeMismatch {
                expected: ValueKind::Dictionary,
                found: kind_of(*old(self)),
            }),
    {
        match self {
            BencodeValue::Dictionary(ps) => {
                let ghost oldps = ps@;
                ps.push((key, value));
                proof {
                    assert(model_pairs(ps@) =~= model_pairs(oldps).push(
                        (key@, model_of(value)),
                    ));
                }
                Ok(())
            },
            _ => Err(TypeMismatch { expected: ValueKind::Dictionary, found: self.kind() }),
        }
    }
}

/// True when every container in `m` sits at most `d` levels deep.
pub open spec fn depth_le(m: BValue, d: nat) -> bool
    decreases m,
{
    match m {
        BValue::Bytes(_) => true,
        BValue::Int(_) => true,
        BValue::List(ms) => d > 0 && (forall|i: int|
            0 <= i < ms.len() ==> depth_le(#[trigger] ms[i], (d - 1) as nat)),
        BValue::Dict(ps) => d > 0 && (forall|i: int|
            0 <= i < ps.len() ==> depth_le(#[trigger] ps[i].1, (d - 1) as nat)),
    }
}

} // verus!
