//! The byte layout of a scored pair at rest.
//!
//! A record is written as its five fields, one after the other: each label as
//! the number of its UTF-8 bytes followed by those bytes, each number as eight
//! bytes with the lowest first, and the optional number as one byte that says
//! whether it is there, followed by the number where it is.

use vstd::bytes::*;
use vstd::prelude::*;
use vstd::utf8::*;

verus! {

/// The error kind of the bincode crate. It is carried from the calls into that
/// crate to the place where it is mapped to a failure of this library, and
/// never looked into.
#[verifier::external_type_specification]
#[verifier::external_body]
pub struct ExBincodeErrorKind(bincode::ErrorKind);

/// The bytes of a number: eight bytes, the lowest first.
pub open spec fn number_bytes(value: u64) -> Seq<u8> {
    spec_u64_to_le_bytes(value)
}

/// The bytes of a label: the count of its UTF-8 bytes as a number, then the
/// UTF-8 bytes.
pub open spec fn text_bytes(text: Seq<char>) -> Seq<u8> {
    number_bytes(encode_utf8(text).len() as u64) + encode_utf8(text)
}

/// The bytes of an optional number: a zero byte for none, a one byte and the
/// number for some.
pub open spec fn optional_bytes(value: Option<u64>) -> Seq<u8> {
    match value {
        None => seq![0u8],
        Some(v) => seq![1u8] + number_bytes(v),
    }
}

/// The bytes of a record with the given fields.
pub open spec fn record_bytes(
    gene: Seq<char>,
    gem: Seq<char>,
    correlation: u64,
    p_value: u64,
    adjusted: Option<u64>,
) -> Seq<u8> {
    text_bytes(gene) + text_bytes(gem) + number_bytes(correlation) + number_bytes(p_value)
        + optional_bytes(adjusted)
}

/// The number of bytes of a record.
pub proof fn lemma_record_bytes_len(
    gene: Seq<char>,
    gem: Seq<char>,
    correlation: u64,
    p_value: u64,
    adjusted: Option<u64>,
)
    ensures
        record_bytes(gene, gem, correlation, p_value, adjusted).len() == 32 + encode_utf8(
            gene,
        ).len() + encode_utf8(gem).len() + (if adjusted is Some {
            9int
        } else {
            1int
        }),
{
    lemma_auto_spec_u64_to_from_le_bytes();
}

proof fn lemma_split_prefix(x1: Seq<u8>, r1: Seq<u8>, x2: Seq<u8>, r2: Seq<u8>)
    requires
        (x1 + r1).is_prefix_of(x2 + r2),
        x1.len() == x2.len(),
    ensures
        x1 == x2,
        r1.is_prefix_of(r2),
{
    let n = x1.len() as int;
    assert forall|i: int| 0 <= i < n implies x1[i] == x2[i] by {
        assert((x1 + r1)[i] == (x2 + r2).subrange(0, (x1 + r1).len() as int)[i]);
    }
    assert(x1 =~= x2);
    assert forall|i: int| 0 <= i < r1.len() implies r1[i] == r2[i] by {
        assert((x1 + r1)[n + i] == (x2 + r2).subrange(0, (x1 + r1).len() as int)[n + i]);
    }
    assert(r1 =~= r2.subrange(0, r1.len() as int));
}

proof fn lemma_number_bytes_injective(a: u64, b: u64)
    requires
        number_bytes(a) == number_bytes(b),
    ensures
        a == b,
{
    lemma_auto_spec_u64_to_from_le_bytes();
    assert(spec_u64_from_le_bytes(spec_u64_to_le_bytes(a)) == a);
    assert(spec_u64_from_le_bytes(spec_u64_to_le_bytes(b)) == b);
}

proof fn lemma_text_prefix(a: Seq<char>, ra: Seq<u8>, b: Seq<char>, rb: Seq<u8>)
    requires
        (text_bytes(a) + ra).is_prefix_of(text_bytes(b) + rb),
        (text_bytes(b) + rb).len() <= usize::MAX,
    ensures
        a == b,
        ra.is_prefix_of(rb),
{
    lemma_auto_spec_u64_to_from_le_bytes();
    let ua = encode_utf8(a);
    let ub = encode_utf8(b);
    let la = number_bytes(ua.len() as u64);
    let lb = number_bytes(ub.len() as u64);
    assert(text_bytes(a) + ra =~= la + (ua + ra));
    assert(text_bytes(b) + rb =~= lb + (ub + rb));
    lemma_split_prefix(la, ua + ra, lb, ub + rb);
    lemma_number_bytes_injective(ua.len() as u64, ub.len() as u64);
    assert(ua.len() == ub.len());
    lemma_split_prefix(ua, ra, ub, rb);
    encode_utf8_decode_utf8(a);
    encode_utf8_decode_utf8(b);
}

proof fn lemma_number_prefix(a: u64, ra: Seq<u8>, b: u64, rb: Seq<u8>)
    requires
        (number_bytes(a) + ra).is_prefix_of(number_bytes(b) + rb),
    ensures
        a == b,
        ra.is_prefix_of(rb),
{
    lemma_auto_spec_u64_to_from_le_bytes();
    lemma_split_prefix(number_bytes(a), ra, number_bytes(b), rb);
    lemma_number_bytes_injective(a, b);
}

proof fn lemma_optional_prefix(a: Option<u64>, b: Option<u64>)
    requires
        optional_bytes(a).is_prefix_of(optional_bytes(b)),
    ensures
        a == b,
{
    lemma_auto_spec_u64_to_from_le_bytes();
    let x = optional_bytes(a);
    let y = optional_bytes(b);
    assert(x[0] == y.subrange(0, x.len() as int)[0]);
    match (a, b) {
        (Some(va), Some(vb)) => {
            lemma_split_prefix(seq![1u8], number_bytes(va), seq![1u8], number_bytes(vb));
            assert(number_bytes(va) =~= number_bytes(vb));
            lemma_number_bytes_injective(va, vb);
        },
        _ => {},
    }
}

/// A record's bytes that fit in memory begin with the bytes of no other
/// record.
pub proof fn lemma_record_bytes_prefix_free(
    gene_a: Seq<char>,
    gem_a: Seq<char>,
    correlation_a: u64,
    p_value_a: u64,
    adjusted_a: Option<u64>,
    gene_b: Seq<char>,
    gem_b: Seq<char>,
    correlation_b: u64,
    p_value_b: u64,
    adjusted_b: Option<u64>,
)
    requires
        record_bytes(gene_a, gem_a, correlation_a, p_value_a, adjusted_a).is_prefix_of(
            record_bytes(gene_b, gem_b, correlation_b, p_value_b, adjusted_b),
        ),
        record_bytes(gene_b, gem_b, correlation_b, p_value_b, adjusted_b).len() <= usize::MAX,
    ensures
        gene_a == gene_b,
        gem_a == gem_b,
        correlation_a == correlation_b,
        p_value_a == p_value_b,
        adjusted_a == adjusted_b,
{
    let a4 = optional_bytes(adjusted_a);
    let b4 = optional_bytes(adjusted_b);
    let a3 = number_bytes(p_value_a) + a4;
    let b3 = number_bytes(p_value_b) + b4;
    let a2 = number_bytes(correlation_a) + a3;
    let b2 = number_bytes(correlation_b) + b3;
    let a1 = text_bytes(gem_a) + a2;
    let b1 = text_bytes(gem_b) + b2;
    let a0 = record_bytes(gene_a, gem_a, correlation_a, p_value_a, adjusted_a);
    let b0 = record_bytes(gene_b, gem_b, correlation_b, p_value_b, adjusted_b);
    assert(a0 =~= text_bytes(gene_a) + a1);
    assert(b0 =~= text_bytes(gene_b) + b1);
    lemma_text_prefix(gene_a, a1, gene_b, b1);
    lemma_text_prefix(gem_a, a2, gem_b, b2);
    lemma_number_prefix(correlation_a, a3, correlation_b, b3);
    lemma_number_prefix(p_value_a, a4, p_value_b, b4);
    lemma_optional_prefix(adjusted_a, adjusted_b);
}

/// Calls `bincode::serialize` on the five fields as one tuple. With its
/// fixed-width, little-endian defaults bincode writes a tuple as its members
/// in order: a string as its byte count in eight bytes and then its UTF-8
/// bytes, a `u64` as eight bytes, an `Option` as a tag byte of zero or one
/// and, after a one, the value. The call does not fail on such a tuple:
/// bincode reports a failure of `serialize` where a byte limit is exceeded,
/// the writer fails or a sequence has no known length, and here it sets no
/// limit, writes into a vector, and the tuple holds no sequence.
#[verifier::external_body]
pub(crate) fn serialize_fields(
    gene: &String,
    gem: &String,
    correlation: u64,
    p_value: u64,
    adjusted: Option<u64>,
) -> (r: Result<Vec<u8>, Box<bincode::ErrorKind>>)
    ensures
        r is Ok,
        r matches Ok(bytes) ==> bytes@ == record_bytes(
            gene@,
            gem@,
            correlation,
            p_value,
            adjusted,
        ),
{
    bincode::serialize(&(gene, gem, correlation, p_value, adjusted))
}

/// Calls `bincode::deserialize` on the bytes from `start` on, for a tuple of
/// the five fields. Bytes after the tuple are left alone. bincode reads what
/// `serialize_fields` writes, and fails where the bytes end early, a string
/// is no UTF-8 or the tag of the `Option` is neither zero nor one: so it
/// succeeds exactly where the bytes begin with the bytes of a record, and
/// returns that record.
#[verifier::external_body]
pub(crate) fn deserialize_fields(bytes: &[u8], start: usize) -> (r: Result<
    (String, String, u64, u64, Option<u64>),
    Box<bincode::ErrorKind>,
>)
    requires
        start <= bytes@.len(),
    ensures
        match r {
            Ok(fields) => record_bytes(
                fields.0@,
                fields.1@,
                fields.2,
                fields.3,
                fields.4,
            ).is_prefix_of(bytes@.skip(start as int)),
            Err(_) => forall|
                gene: Seq<char>,
                gem: Seq<char>,
                correlation: u64,
                p_value: u64,
                adjusted: Option<u64>,
            |
                !(#[trigger] record_bytes(gene, gem, correlation, p_value, adjusted)).is_prefix_of(
                    bytes@.skip(start as int),
                ),
        },
{
    bincode::deserialize(&bytes[start..])
}

} // verus!
