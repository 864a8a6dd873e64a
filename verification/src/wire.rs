//! The binary format of PostgreSQL array values.
//!
//! A value starts with three big-endian 32-bit words: the number of
//! dimensions, a flag word that is nonzero when the array may hold NULL
//! elements, and the element type's oid. Each dimension then contributes its
//! length and its lower bound, and the elements follow in row-major order,
//! each as a 32-bit byte count followed by that many bytes; a count of -1
//! marks a NULL element.

use vstd::prelude::*;
use vstd::slice::slice_subrange;
use byteorder::{NetworkEndian, ReadBytesExt, WriteBytesExt};
use crate::shape::{running_prod_fits, seq_prod};
use crate::ndarray::{running_count, NdArray};
use crate::nested::{chunks, Vec2, Vec3};
use crate::text::{shape_mismatch_msg, wrong_dim_msg};

verus! {

#[verifier::external_type_specification]
#[verifier::external_body]
pub struct ExIoError(std::io::Error);

/// Unsigned value of the four bytes at `pos`, most significant first.
pub open spec fn be_word(s: Seq<u8>, pos: int) -> int {
    s[pos] as int * 0x100_0000 + s[pos + 1] as int * 0x1_0000 + s[pos + 2] as int * 0x100
        + s[pos + 3] as int
}

/// The four bytes at `pos` read as a big-endian two's-complement `i32`.
pub open spec fn be_i32_at(s: Seq<u8>, pos: int) -> i32 {
    let u = be_word(s, pos);
    if u < 0x8000_0000 {
        u as i32
    } else {
        (u - 0x1_0000_0000) as i32
    }
}

/// The big-endian bytes of an unsigned 32-bit word given as an integer.
pub open spec fn word_bytes(u: int) -> Seq<u8> {
    seq![
        (u / 0x100_0000) as u8,
        ((u / 0x1_0000) % 0x100) as u8,
        ((u / 0x100) % 0x100) as u8,
        (u % 0x100) as u8,
    ]
}

/// The big-endian two's-complement bytes of `n`.
pub open spec fn i32_bytes(n: i32) -> Seq<u8> {
    word_bytes(if n >= 0 { n as int } else { n + 0x1_0000_0000 })
}

/// The big-endian bytes of `n`.
pub open spec fn u32_bytes(n: u32) -> Seq<u8> {
    word_bytes(n as int)
}

/// byteorder's `ReadBytesExt::read_i32::<NetworkEndian>` on a byte slice.
/// It reads the first four bytes as a big-endian two's-complement integer and
/// fails (with an end-of-file error) when fewer than four bytes are left.
#[verifier::external_body]
fn read_i32_network(input: &[u8]) -> (r: Result<i32, std::io::Error>)
    ensures
        r is Ok <==> input@.len() >= 4,
        r matches Ok(v) ==> v == be_i32_at(input@, 0),
{
    let mut reader: &[u8] = input;
    reader.read_i32::<NetworkEndian>()
}

/// byteorder's `WriteBytesExt::write_i32::<NetworkEndian>` on a `Vec<u8>`.
/// It appends the four big-endian two's-complement bytes of `n`; writing to a
/// vector appends and grows it, so the call succeeds.
#[verifier::external_body]
fn write_i32_network(out: &mut Vec<u8>, n: i32) -> (r: Result<(), std::io::Error>)
    ensures
        r is Ok,
        final(out)@ == old(out)@ + i32_bytes(n),
{
    out.write_i32::<NetworkEndian>(n)
}

/// byteorder's `WriteBytesExt::write_u32::<NetworkEndian>` on a `Vec<u8>`.
/// It appends the four big-endian bytes of `n`; writing to a vector appends
/// and grows it, so the call succeeds.
#[verifier::external_body]
fn write_u32_network(out: &mut Vec<u8>, n: u32) -> (r: Result<(), std::io::Error>)
    ensures
        r is Ok,
        final(out)@ == old(out)@ + u32_bytes(n),
{
    out.write_u32::<NetworkEndian>(n)
}

/// Why a binary array value could not be decoded.
#[derive(Debug, Clone, Copy, PartialEq, Eq, Structural)]
pub enum ArrayDecodeError {
    /// The input ended inside a 32-bit word.
    UnexpectedEof,
    /// A one-dimensional array was asked for, but the value has more dimensions.
    MultiDimensional,
    /// An n-dimensional array was asked for, but the value has one dimension.
    OneDimensional,
    /// The number of dimensions is negative.
    NegativeDimensionCount,
    /// The length of a dimension is negative.
    NegativeDimensionLength,
    /// An element's byte count is negative and does not mark a NULL.
    InvalidElementSize,
}

/// Where decoding stops short of a value.
#[derive(Debug, Clone, Copy, PartialEq, Eq, Structural)]
pub enum DecodeStop {
    /// The input is malformed.
    Failed(ArrayDecodeError),
    /// An element's byte count runs past the end of the input.
    Overrun,
    /// The element count of the dimensions overflows `usize`.
    CountOverflow,
}

/// The 32-bit word at `pos`, if four bytes are left there.
pub open spec fn word_at(s: Seq<u8>, pos: int) -> Option<i32> {
    if 0 <= pos && pos + 4 <= s.len() {
        Some(be_i32_at(s, pos))
    } else {
        None
    }
}

/// Result of decoding a part of the input: the value and the position after it.
pub type Decoded<V> = Result<(V, int), DecodeStop>;

pub open spec fn eof<V>() -> Decoded<V> {
    Err(DecodeStop::Failed(ArrayDecodeError::UnexpectedEof))
}

/// Puts `x` in front of the sequence that `rest` decoded.
pub open spec fn prepend<A>(x: A, rest: Decoded<Seq<A>>) -> Decoded<Seq<A>> {
    match rest {
        Ok((v, e)) => Ok((seq![x] + v, e)),
        Err(stop) => Err(stop),
    }
}

/// Puts `prefix` in front of the sequence that `rest` decoded.
pub open spec fn after<A>(prefix: Seq<A>, rest: Decoded<Seq<A>>) -> Decoded<Seq<A>> {
    match rest {
        Ok((v, e)) => Ok((prefix + v, e)),
        Err(stop) => Err(stop),
    }
}

/// Decodes `n` elements starting at `pos`. With `has_null`, a byte count of -1
/// is a NULL element.
pub open spec fn decode_elements(s: Seq<u8>, pos: int, n: nat, has_null: bool) -> Decoded<
    Seq<Option<Seq<u8>>>,
>
    decreases n,
{
    if n == 0 {
        Ok((seq![], pos))
    } else {
        match word_at(s, pos) {
            None => eof(),
            Some(size) => if has_null && size == -1 {
                prepend(None, decode_elements(s, pos + 4, (n - 1) as nat, has_null))
            } else if size < 0 {
                Err(DecodeStop::Failed(ArrayDecodeError::InvalidElementSize))
            } else if pos + 4 + size > s.len() {
                Err(DecodeStop::Overrun)
            } else {
                prepend(
                    Some(s.subrange(pos + 4, pos + 4 + size)),
                    decode_elements(s, pos + 4 + size, (n - 1) as nat, has_null),
                )
            },
        }
    }
}

/// The abstract value of a decoded element: its bytes, or `None` for NULL.
pub open spec fn raw_view(e: Option<Vec<u8>>) -> Option<Seq<u8>> {
    match e {
        Some(b) => Some(b@),
        None => None,
    }
}

pub open spec fn raw_seq_view(v: Seq<Option<Vec<u8>>>) -> Seq<Option<Seq<u8>>> {
    v.map_values(|e: Option<Vec<u8>>| raw_view(e))
}

/// An exec decoding result agrees with its specification.
pub open spec fn agrees(
    r: Result<(Vec<Option<Vec<u8>>>, usize), DecodeStop>,
    d: Decoded<Seq<Option<Seq<u8>>>>,
) -> bool {
    match r {
        Ok((v, p)) => d == Ok::<_, DecodeStop>((raw_seq_view(v@), p as int)),
        Err(stop) => d == Err::<(Seq<Option<Seq<u8>>>, int), _>(stop),
    }
}

/// Reads the 32-bit word at `pos`.
fn read_word(input: &[u8], pos: usize) -> (r: Result<i32, ArrayDecodeError>)
    requires
        pos <= input@.len(),
    ensures
        r == (match word_at(input@, pos as int) {
            Some(v) => Ok::<i32, ArrayDecodeError>(v),
            None => Err(ArrayDecodeError::UnexpectedEof),
        }),
{
    let rest = slice_subrange(input, pos, input.len());
    match read_i32_network(rest) {
        Ok(v) => Ok(v),
        Err(_) => Err(ArrayDecodeError::UnexpectedEof),
    }
}

proof fn lemma_after_prepend<A>(prefix: Seq<A>, x: A, rest: Decoded<Seq<A>>)
    ensures
        after(prefix, prepend(x, rest)) == after(prefix.push(x), rest),
{
    match rest {
        Ok((v, e)) => {
            assert(prefix + (seq![x] + v) =~= prefix.push(x) + v);
        },
        Err(_) => {},
    }
}

/// Decodes `n` elements starting at `pos`.
fn decode_elements_exec(input: &[u8], pos: usize, n: usize, has_null: bool) -> (r: Result<
    (Vec<Option<Vec<u8>>>, usize),
    DecodeStop,
>)
    requires
        pos <= input@.len(),
    ensures
        agrees(r, decode_elements(input@, pos as int, n as nat, has_null)),
        r matches Ok((_, p)) ==> p <= input@.len(),
{
    let ghost s = input@;
    let len = input.len();
    let mut elems: Vec<Option<Vec<u8>>> = Vec::new();
    let mut p: usize = pos;
    let mut k: usize = 0;
    assert(raw_seq_view(elems@) =~= Seq::<Option<Seq<u8>>>::empty());
    assert(after(Seq::<Option<Seq<u8>>>::empty(), decode_elements(s, pos as int, n as nat, has_null))
        =~= decode_elements(s, pos as int, n as nat, has_null)) by {
        match decode_elements(s, pos as int, n as nat, has_null) {
            Ok((v, e)) => {
                assert(Seq::<Option<Seq<u8>>>::empty() + v =~= v);
            },
            Err(_) => {},
        }
    }
    while k < n
        invariant
            s == input@,
            len == s.len(),
            k <= n,
            p <= s.len(),
            decode_elements(s, pos as int, n as nat, has_null) == after(
                raw_seq_view(elems@),
                decode_elements(s, p as int, (n - k) as nat, has_null),
            ),
        decreases n - k,
    {
        let size = match read_word(input, p) {
            Ok(v) => v,
            Err(e) => {
                return Err(DecodeStop::Failed(e));
            },
        };
        assert(word_at(s, p as int) == Some(size));
        assert(p + 4 <= s.len());
        if has_null && size == -1 {
            proof {
                lemma_after_prepend(
                    raw_seq_view(elems@),
                    None,
                    decode_elements(s, p + 4, (n - k - 1) as nat, has_null),
                );
                assert(raw_seq_view(elems@).push(None) =~= raw_seq_view(elems@.push(None)));
            }
            elems.push(None);
            p = p + 4;
        } else if size < 0 {
            return Err(DecodeStop::Failed(ArrayDecodeError::InvalidElementSize));
        } else {
            let size: usize = size as usize;
            if size > len - p - 4 {
                return Err(DecodeStop::Overrun);
            }
            let bytes = slice_subrange(input, p + 4, p + 4 + size);
            let v = vstd::slice::slice_to_vec(bytes);
            proof {
                lemma_after_prepend(
                    raw_seq_view(elems@),
                    Some(v@),
                    decode_elements(s, p + 4 + size, (n - k - 1) as nat, has_null),
                );
                assert(raw_seq_view(elems@).push(Some(v@)) =~= raw_seq_view(elems@.push(Some(v))));
            }
            elems.push(Some(v));
            p = p + 4 + size;
        }
        k = k + 1;
    }
    proof {
        let d = decode_elements(s, pos as int, n as nat, has_null);
        assert(raw_seq_view(elems@) + Seq::<Option<Seq<u8>>>::empty() =~= raw_seq_view(elems@));
    }
    Ok((elems, p))
}


/// Decodes the lengths of `n` dimensions starting at `pos`; each dimension is
/// its length followed by its lower bound.
pub open spec fn decode_dims(s: Seq<u8>, pos: int, n: nat) -> Decoded<Seq<usize>>
    decreases n,
{
    if n == 0 {
        Ok((seq![], pos))
    } else {
        match (word_at(s, pos), word_at(s, pos + 4)) {
            (Some(len), Some(_)) => if len < 0 {
                Err(DecodeStop::Failed(ArrayDecodeError::NegativeDimensionLength))
            } else {
                prepend(len as usize, decode_dims(s, pos + 8, (n - 1) as nat))
            },
            _ => eof(),
        }
    }
}

/// Decodes a value as a one-dimensional array. A value without dimensions is
/// the empty array; any number of dimensions other than one is refused.
pub open spec fn decode_vec_spec(s: Seq<u8>) -> Decoded<Seq<Option<Seq<u8>>>> {
    match (word_at(s, 0), word_at(s, 4), word_at(s, 8)) {
        (Some(ndims), Some(flags), Some(_)) => if ndims == 0 {
            Ok((seq![], 12))
        } else {
            match (word_at(s, 12), word_at(s, 16)) {
                (Some(count), Some(_)) => if ndims != 1 {
                    Err(DecodeStop::Failed(ArrayDecodeError::MultiDimensional))
                } else {
                    decode_elements(s, 20, if count < 0 { 0 } else { count as nat }, flags != 0)
                },
                _ => eof(),
            }
        },
        _ => eof(),
    }
}

/// Decodes a value as an n-dimensional array: the dimension lengths and the
/// elements in row-major order. A value without dimensions is the empty array;
/// a one-dimensional value is refused.
pub open spec fn decode_ndarray_spec(s: Seq<u8>) -> Decoded<(Seq<usize>, Seq<Option<Seq<u8>>>)> {
    match (word_at(s, 0), word_at(s, 4), word_at(s, 8)) {
        (Some(ndims), Some(flags), Some(_)) => if ndims == 0 {
            Ok(((seq![], seq![]), 12))
        } else if ndims == 1 {
            Err(DecodeStop::Failed(ArrayDecodeError::OneDimensional))
        } else if ndims < 0 {
            Err(DecodeStop::Failed(ArrayDecodeError::NegativeDimensionCount))
        } else {
            match decode_dims(s, 12, ndims as nat) {
                Ok((dims, p)) => if !running_prod_fits(dims) {
                    Err(DecodeStop::CountOverflow)
                } else {
                    match decode_elements(s, p, seq_prod(dims) as nat, flags != 0) {
                        Ok((elems, e)) => Ok(((dims, elems), e)),
                        Err(stop) => Err(stop),
                    }
                },
                Err(stop) => Err(stop),
            }
        },
        _ => eof(),
    }
}

/// Decoding ends in a value or in a format error: no element runs past the
/// end of the input and the element count fits in a `usize`.
pub open spec fn decodable<V>(d: Decoded<V>) -> bool {
    d != Err::<(V, int), DecodeStop>(DecodeStop::Overrun) && d != Err::<(V, int), DecodeStop>(
        DecodeStop::CountOverflow,
    )
}

/// Decodes `n` dimension lengths starting at `pos`.
fn decode_dims_exec(input: &[u8], pos: usize, n: usize) -> (r: Result<
    (Vec<usize>, usize),
    DecodeStop,
>)
    requires
        pos <= input@.len(),
    ensures
        match r {
            Ok((dims, p)) => decode_dims(input@, pos as int, n as nat) == Ok::<_, DecodeStop>(
                (dims@, p as int),
            ) && p <= input@.len(),
            Err(stop) => decode_dims(input@, pos as int, n as nat) == Err::<
                (Seq<usize>, int),
                DecodeStop,
            >(stop),
        },
{
    let ghost s = input@;
    let len = input.len();
    let mut dims: Vec<usize> = Vec::new();
    let mut p: usize = pos;
    let mut k: usize = 0;
    assert(after(Seq::<usize>::empty(), decode_dims(s, pos as int, n as nat)) =~= decode_dims(
        s,
        pos as int,
        n as nat,
    )) by {
        match decode_dims(s, pos as int, n as nat) {
            Ok((v, e)) => {
                assert(Seq::<usize>::empty() + v =~= v);
            },
            Err(_) => {},
        }
    }
    while k < n
        invariant
            s == input@,
            len == s.len(),
            k <= n,
            p <= s.len(),
            decode_dims(s, pos as int, n as nat) == after(
                dims@,
                decode_dims(s, p as int, (n - k) as nat),
            ),
        decreases n - k,
    {
        let dim_len = match read_word(input, p) {
            Ok(v) => v,
            Err(e) => {
                return Err(DecodeStop::Failed(e));
            },
        };
        assert(p + 4 <= s.len());
        match read_word(input, p + 4) {
            Ok(_) => {},
            Err(e) => {
                return Err(DecodeStop::Failed(e));
            },
        }
        assert(p + 8 <= s.len());
        if dim_len < 0 {
            return Err(DecodeStop::Failed(ArrayDecodeError::NegativeDimensionLength));
        }
        let d: usize = dim_len as usize;
        proof {
            lemma_after_prepend(dims@, d, decode_dims(s, p + 8, (n - k - 1) as nat));
        }
        dims.push(d);
        p = p + 8;
        k = k + 1;
    }
    assert(dims@ + Seq::<usize>::empty() =~= dims@);
    Ok((dims, p))
}

/// Decodes a one-dimensional array, reporting inputs on which no value is
/// defined: an element whose byte count runs past the end of the input.
pub fn try_decode_vec(bytes: &[u8]) -> (r: Result<Vec<Option<Vec<u8>>>, DecodeStop>)
    ensures
        match r {
            Ok(v) => decode_vec_spec(bytes@) matches Ok((elems, _)) && elems == raw_seq_view(v@),
            Err(stop) => decode_vec_spec(bytes@) == Err::<(Seq<Option<Seq<u8>>>, int), _>(stop),
        },
{
    let ndims = match read_word(bytes, 0) {
        Ok(v) => v,
        Err(e) => {
            return Err(DecodeStop::Failed(e));
        },
    };
    let flags = match read_word(bytes, 4) {
        Ok(v) => v,
        Err(e) => {
            return Err(DecodeStop::Failed(e));
        },
    };
    match read_word(bytes, 8) {
        Ok(_) => {},
        Err(e) => {
            return Err(DecodeStop::Failed(e));
        },
    }
    let has_null = flags != 0;
    if ndims == 0 {
        let empty: Vec<Option<Vec<u8>>> = Vec::new();
        assert(raw_seq_view(empty@) =~= Seq::<Option<Seq<u8>>>::empty());
        return Ok(empty);
    }
    let count = match read_word(bytes, 12) {
        Ok(v) => v,
        Err(e) => {
            return Err(DecodeStop::Failed(e));
        },
    };
    match read_word(bytes, 16) {
        Ok(_) => {},
        Err(e) => {
            return Err(DecodeStop::Failed(e));
        },
    }
    if ndims != 1 {
        return Err(DecodeStop::Failed(ArrayDecodeError::MultiDimensional));
    }
    let n: usize = if count < 0 {
        0
    } else {
        count as usize
    };
    match decode_elements_exec(bytes, 20, n, has_null) {
        Ok((elems, _)) => Ok(elems),
        Err(stop) => Err(stop),
    }
}

/// Decodes a PostgreSQL array value as a one-dimensional array of raw elements
/// (`None` for NULL). A value without dimensions decodes to the empty array.
pub fn vec_from_sql(bytes: &[u8]) -> (r: Result<Vec<Option<Vec<u8>>>, ArrayDecodeError>)
    requires
        decodable(decode_vec_spec(bytes@)),
    ensures
        match r {
            Ok(v) => decode_vec_spec(bytes@) matches Ok((elems, _)) && elems == raw_seq_view(v@),
            Err(e) => decode_vec_spec(bytes@) == Err::<(Seq<Option<Seq<u8>>>, int), _>(
                DecodeStop::Failed(e),
            ),
        },
{
    match try_decode_vec(bytes) {
        Ok(v) => Ok(v),
        Err(DecodeStop::Failed(e)) => Err(e),
        Err(DecodeStop::Overrun) => Err(ArrayDecodeError::UnexpectedEof),
        Err(DecodeStop::CountOverflow) => Err(ArrayDecodeError::UnexpectedEof),
    }
}


/// The decoded n-dimensional array agrees with the specification.
pub open spec fn ndarray_agrees(
    nd: NdArray<Option<Vec<u8>>>,
    d: Decoded<(Seq<usize>, Seq<Option<Seq<u8>>>)>,
) -> bool {
    d matches Ok(((dims, elems), _)) && nd.dims@ == dims && raw_seq_view(nd.data@) == elems
}

impl NdArray<Option<Vec<u8>>> {
    /// Decodes an n-dimensional array of raw elements, reporting inputs on
    /// which no value is defined: an element whose byte count runs past the end
    /// of the input, or dimensions whose running element count overflows.
    pub fn try_decode(bytes: &[u8]) -> (r: Result<Self, DecodeStop>)
        ensures
            match r {
                Ok(nd) => ndarray_agrees(nd, decode_ndarray_spec(bytes@)),
                Err(stop) => decode_ndarray_spec(bytes@) == Err::<
                    ((Seq<usize>, Seq<Option<Seq<u8>>>), int),
                    _,
                >(stop),
            },
    {
        let ndims = match read_word(bytes, 0) {
            Ok(v) => v,
            Err(e) => {
                return Err(DecodeStop::Failed(e));
            },
        };
        let flags = match read_word(bytes, 4) {
            Ok(v) => v,
            Err(e) => {
                return Err(DecodeStop::Failed(e));
            },
        };
        match read_word(bytes, 8) {
            Ok(_) => {},
            Err(e) => {
                return Err(DecodeStop::Failed(e));
            },
        }
        let has_null = flags != 0;
        if ndims == 0 {
            let nd = NdArray { dims: Vec::new(), data: Vec::new() };
            assert(raw_seq_view(nd.data@) =~= Seq::<Option<Seq<u8>>>::empty());
            assert(nd.dims@ =~= Seq::<usize>::empty());
            return Ok(nd);
        }
        if ndims == 1 {
            return Err(DecodeStop::Failed(ArrayDecodeError::OneDimensional));
        }
        if ndims < 0 {
            return Err(DecodeStop::Failed(ArrayDecodeError::NegativeDimensionCount));
        }
        let num_dims: usize = ndims as usize;
        let (dims, pos) = match decode_dims_exec(bytes, 12, num_dims) {
            Ok(r) => r,
            Err(stop) => {
                return Err(stop);
            },
        };
        let count = match running_count(&dims) {
            Some(c) => c,
            None => {
                return Err(DecodeStop::CountOverflow);
            },
        };
        match decode_elements_exec(bytes, pos, count, has_null) {
            Ok((data, _)) => Ok(NdArray { dims, data }),
            Err(stop) => Err(stop),
        }
    }

    /// Decodes a PostgreSQL array value as an n-dimensional array of raw
    /// elements (`None` for NULL). A value without dimensions decodes to the
    /// empty array; a one-dimensional value is refused.
    pub fn from_sql(bytes: &[u8]) -> (r: Result<Self, ArrayDecodeError>)
        requires
            decodable(decode_ndarray_spec(bytes@)),
        ensures
            match r {
                Ok(nd) => ndarray_agrees(nd, decode_ndarray_spec(bytes@)),
                Err(e) => decode_ndarray_spec(bytes@) == Err::<
                    ((Seq<usize>, Seq<Option<Seq<u8>>>), int),
                    _,
                >(DecodeStop::Failed(e)),
            },
    {
        match Self::try_decode(bytes) {
            Ok(nd) => Ok(nd),
            Err(DecodeStop::Failed(e)) => Err(e),
            Err(DecodeStop::Overrun) => Err(ArrayDecodeError::UnexpectedEof),
            Err(DecodeStop::CountOverflow) => Err(ArrayDecodeError::UnexpectedEof),
        }
    }
}


/// Why an array could not be encoded.
#[derive(Debug, Clone, Copy, PartialEq, Eq, Structural)]
pub enum ArrayEncodeError {
    /// The array has more elements than an `i32` counts.
    TooManyElements,
    /// An element has more bytes than an `i32` counts.
    ElementTooLarge,
}

/// The encoding of one element: its byte count and bytes, or -1 for NULL.
pub open spec fn encode_element(e: Option<Seq<u8>>) -> Seq<u8> {
    match e {
        Some(b) => i32_bytes(b.len() as i32) + b,
        None => i32_bytes(-1i32),
    }
}

/// An element that an `i32` byte count can describe.
pub open spec fn encodable_element(e: Option<Seq<u8>>) -> bool {
    match e {
        Some(b) => b.len() <= i32::MAX,
        None => true,
    }
}

/// The bytes written for `elems` and the outcome: encoding stops before the
/// first element whose length does not fit in an `i32`.
pub open spec fn encode_elements(elems: Seq<Option<Seq<u8>>>) -> (Seq<u8>, Result<(), ArrayEncodeError>)
    decreases elems.len(),
{
    if elems.len() == 0 {
        (seq![], Ok(()))
    } else if !encodable_element(elems[0]) {
        (seq![], Err(ArrayEncodeError::ElementTooLarge))
    } else {
        let rest = encode_elements(elems.drop_first());
        (encode_element(elems[0]) + rest.0, rest.1)
    }
}

/// The bytes written for a one-dimensional array and the outcome: one
/// dimension, no NULL flag, the element oid, the element count with lower
/// bound 1, then the elements.
pub open spec fn encode_array(elems: Seq<Option<Seq<u8>>>, element_oid: u32) -> (
    Seq<u8>,
    Result<(), ArrayEncodeError>,
) {
    let header = i32_bytes(1) + i32_bytes(0) + u32_bytes(element_oid);
    if elems.len() > i32::MAX {
        (header, Err(ArrayEncodeError::TooManyElements))
    } else {
        let body = encode_elements(elems);
        (header + i32_bytes(elems.len() as i32) + i32_bytes(1) + body.0, body.1)
    }
}

proof fn lemma_encode_elements_skip(elems: Seq<Option<Seq<u8>>>, k: int)
    requires
        0 <= k < elems.len(),
    ensures
        encode_elements(elems.skip(k)) == (if !encodable_element(elems[k]) {
            (Seq::<u8>::empty(), Err::<(), ArrayEncodeError>(ArrayEncodeError::ElementTooLarge))
        } else {
            (
                encode_element(elems[k]) + encode_elements(elems.skip(k + 1)).0,
                encode_elements(elems.skip(k + 1)).1,
            )
        }),
{
    assert(elems.skip(k).drop_first() =~= elems.skip(k + 1));
    assert(elems.skip(k)[0] == elems[k]);
}

/// Writes a one-dimensional array held in a vector, as `array_to_sql` does
/// for its elements.
pub fn vec_to_sql(
    elements: &Vec<Option<Vec<u8>>>,
    element_oid: u32,
    out: &mut Vec<u8>,
) -> (r: Result<(), ArrayEncodeError>)
    ensures
        final(out)@ == old(out)@ + encode_array(raw_seq_view(elements@), element_oid).0,
        r == encode_array(raw_seq_view(elements@), element_oid).1,
{
    array_to_sql(elements.as_slice(), element_oid, out)
}

/// Appends `bytes` to `out`.
fn push_bytes(out: &mut Vec<u8>, bytes: &Vec<u8>)
    ensures
        final(out)@ == old(out)@ + bytes@,
{
    let mut i: usize = 0;
    while i < bytes.len()
        invariant
            i <= bytes@.len(),
            out@ =~= old(out)@ + bytes@.take(i as int),
        decreases bytes@.len() - i,
    {
        out.push(bytes[i]);
        i = i + 1;
        assert(out@ =~= old(out)@ + bytes@.take(i as int));
    }
    assert(bytes@.take(bytes@.len() as int) =~= bytes@);
}

/// Writes a one-dimensional array in the binary format: elements holds each
/// element's encoded bytes, or `None` for NULL. On an error the bytes written
/// so far stay in `out`.
pub fn array_to_sql(
    elements: &[Option<Vec<u8>>],
    element_oid: u32,
    out: &mut Vec<u8>,
) -> (r: Result<(), ArrayEncodeError>)
    ensures
        final(out)@ == old(out)@ + encode_array(raw_seq_view(elements@), element_oid).0,
        r == encode_array(raw_seq_view(elements@), element_oid).1,
{
    let ghost elems = raw_seq_view(elements@);
    let num_dimensions: i32 = 1;
    let _ = write_i32_network(out, num_dimensions);
    let flags: i32 = 0;
    let _ = write_i32_network(out, flags);
    let _ = write_u32_network(out, element_oid);
    let ghost header = i32_bytes(1) + i32_bytes(0) + u32_bytes(element_oid);
    assert(out@ =~= old(out)@ + header);
    let n = elements.len();
    if n > 0x7fff_ffff {
        return Err(ArrayEncodeError::TooManyElements);
    }
    let _ = write_i32_network(out, n as i32);
    let lower_bound: i32 = 1;
    let _ = write_i32_network(out, lower_bound);
    let ghost start = out@;
    assert(elems.len() == n);
    let ghost mut written: Seq<u8> = Seq::empty();
    assert(elems.skip(0) =~= elems);
    assert(start + written =~= start);
    let mut k: usize = 0;
    while k < n
        invariant
            n == elements@.len(),
            elems == raw_seq_view(elements@),
            elems.len() == n,
            n <= i32::MAX,
            header == i32_bytes(1) + i32_bytes(0) + u32_bytes(element_oid),
            k <= n,
            start == old(out)@ + header + i32_bytes(n as i32) + i32_bytes(1),
            out@ == start + written,
            encode_elements(elems).0 == written + encode_elements(elems.skip(k as int)).0,
            encode_elements(elems).1 == encode_elements(elems.skip(k as int)).1,
        decreases n - k,
    {
        proof {
            lemma_encode_elements_skip(elems, k as int);
        }
        let ghost rest = encode_elements(elems.skip(k + 1));
        assert(elems[k as int] == raw_view(elements@[k as int]));
        match &elements[k] {
            None => {
                let _ = write_i32_network(out, -1);
                proof {
                    assert(encode_element(elems[k as int]) == i32_bytes(-1i32));
                    assert(written + (i32_bytes(-1i32) + rest.0) =~= (written + i32_bytes(-1i32))
                        + rest.0);
                    written = written + i32_bytes(-1i32);
                    assert(out@ =~= start + written);
                }
            },
            Some(bytes) => {
                let len = bytes.len();
                if len > 0x7fff_ffff {
                    proof {
                        assert(encode_elements(elems).0 =~= written);
                        assert(encode_array(elems, element_oid).0 =~= header + i32_bytes(n as i32)
                            + i32_bytes(1) + written);
                    }
                    return Err(ArrayEncodeError::ElementTooLarge);
                }
                let _ = write_i32_network(out, len as i32);
                push_bytes(out, bytes);
                proof {
                    let chunk = i32_bytes(len as i32) + bytes@;
                    assert(encode_element(elems[k as int]) == chunk);
                    assert(written + (chunk + rest.0) =~= (written + chunk) + rest.0);
                    written = written + chunk;
                    assert(out@ =~= start + written);
                }
            },
        }
        k = k + 1;
    }
    proof {
        assert(elems.skip(n as int) =~= Seq::<Option<Seq<u8>>>::empty());
        assert(encode_elements(elems).0 =~= written);
        assert(encode_array(elems, element_oid).0 =~= header + i32_bytes(n as i32) + i32_bytes(1)
            + written);
    }
    Ok(())
}


/// The four bytes of a word read back give the word.
pub proof fn lemma_word_roundtrip(u: int, s: Seq<u8>, pos: int)
    requires
        0 <= u < 0x1_0000_0000,
        0 <= pos,
        pos + 4 <= s.len(),
        s.subrange(pos, pos + 4) == word_bytes(u),
    ensures
        be_word(s, pos) == u,
{
    let w = word_bytes(u);
    assert(s[pos] == w[0]);
    assert(s[pos + 1] == w[1]);
    assert(s[pos + 2] == w[2]);
    assert(s[pos + 3] == w[3]);
    let q0 = u / 0x100_0000;
    let q1 = (u / 0x1_0000) % 0x100;
    let q2 = (u / 0x100) % 0x100;
    let q3 = u % 0x100;
    assert(0 <= q0 < 0x100);
    assert(w[0] == q0);
    assert(w[1] == q1);
    assert(w[2] == q2);
    assert(w[3] == q3);
    assert(q0 * 0x100_0000 + q1 * 0x1_0000 + q2 * 0x100 + q3 == u);
}

/// The bytes of an `i32` read back give the `i32`.
pub proof fn lemma_i32_roundtrip(n: i32, s: Seq<u8>, pos: int)
    requires
        0 <= pos,
        pos + 4 <= s.len(),
        s.subrange(pos, pos + 4) == i32_bytes(n),
    ensures
        word_at(s, pos) == Some(n),
{
    let u: int = if n >= 0 { n as int } else { n + 0x1_0000_0000 };
    lemma_word_roundtrip(u, s, pos);
}

/// No element is NULL.
pub open spec fn no_nulls(elems: Seq<Option<Seq<u8>>>) -> bool {
    forall|i: int| 0 <= i < elems.len() ==> #[trigger] elems[i] is Some
}

proof fn lemma_decode_encoded_elements(
    s: Seq<u8>,
    p: int,
    e: Seq<Option<Seq<u8>>>,
    has_null: bool,
)
    requires
        0 <= p,
        encode_elements(e).1 is Ok,
        p + encode_elements(e).0.len() <= s.len(),
        s.subrange(p, p + encode_elements(e).0.len()) == encode_elements(e).0,
    ensures
        decode_elements(s, p, e.len(), has_null) == (if has_null || no_nulls(e) {
            Ok::<_, DecodeStop>((e, p + encode_elements(e).0.len()))
        } else {
            Err(DecodeStop::Failed(ArrayDecodeError::InvalidElementSize))
        }),
    decreases e.len(),
{
    let enc = encode_elements(e).0;
    if e.len() == 0 {
        assert(e =~= Seq::<Option<Seq<u8>>>::empty());
    } else {
        let rest = e.drop_first();
        let renc = encode_elements(rest).0;
        let chunk = encode_element(e[0]);
        assert(enc == chunk + renc);
        let q = p + chunk.len();
        assert(s.subrange(q, q + renc.len()) =~= renc) by {
            assert forall|i: int| 0 <= i < renc.len() implies #[trigger] s.subrange(q, q + renc.len())[i]
                == renc[i] by {
                assert(s[q + i] == s.subrange(p, p + enc.len())[chunk.len() + i]);
            }
        }
        lemma_decode_encoded_elements(s, q, rest, has_null);
        match e[0] {
            None => {
                assert(s.subrange(p, p + 4) =~= i32_bytes(-1i32)) by {
                    assert forall|i: int| 0 <= i < 4 implies #[trigger] s.subrange(p, p + 4)[i]
                        == i32_bytes(-1i32)[i] by {
                        assert(s[p + i] == s.subrange(p, p + enc.len())[i]);
                    }
                }
                lemma_i32_roundtrip(-1i32, s, p);
                if has_null {
                    assert(seq![None::<Seq<u8>>] + rest =~= e);
                } else {
                    assert(!no_nulls(e));
                }
            },
            Some(b) => {
                let n = b.len() as i32;
                assert(s.subrange(p, p + 4) =~= i32_bytes(n)) by {
                    assert forall|i: int| 0 <= i < 4 implies #[trigger] s.subrange(p, p + 4)[i]
                        == i32_bytes(n)[i] by {
                        assert(s[p + i] == s.subrange(p, p + enc.len())[i]);
                    }
                }
                lemma_i32_roundtrip(n, s, p);
                assert(s.subrange(p + 4, p + 4 + b.len()) =~= b) by {
                    assert forall|i: int| 0 <= i < b.len() implies #[trigger] s.subrange(
                        p + 4,
                        p + 4 + b.len(),
                    )[i] == b[i] by {
                        assert(s[p + 4 + i] == s.subrange(p, p + enc.len())[4 + i]);
                    }
                }
                assert(seq![Some(b)] + rest =~= e);
                if !has_null && !no_nulls(e) {
                    let i = choose|i: int| 0 <= i < e.len() && !(e[i] is Some);
                    assert(rest[i - 1] == e[i]);
                    assert(!no_nulls(rest));
                }
                if no_nulls(e) {
                    assert forall|i: int| 0 <= i < rest.len() implies #[trigger] rest[i] is Some by {
                        assert(rest[i] == e[i + 1]);
                    }
                }
            },
        }
    }
}

/// Decoding what the encoder wrote gives back the elements when none of them
/// is NULL. The encoder never sets the NULL flag, so a NULL element is read
/// back as an invalid element size.
pub proof fn law_decode_encode_roundtrip(elems: Seq<Option<Seq<u8>>>, element_oid: u32)
    requires
        encode_array(elems, element_oid).1 is Ok,
    ensures
        decode_vec_spec(encode_array(elems, element_oid).0) == (if no_nulls(elems) {
            Ok::<_, DecodeStop>((elems, encode_array(elems, element_oid).0.len() as int))
        } else {
            Err(DecodeStop::Failed(ArrayDecodeError::InvalidElementSize))
        }),
{
    let s = encode_array(elems, element_oid).0;
    let n = elems.len() as i32;
    let body = encode_elements(elems).0;
    assert(s == i32_bytes(1) + i32_bytes(0) + u32_bytes(element_oid) + i32_bytes(n) + i32_bytes(1)
        + body);
    assert(s.len() == 20 + body.len());
    assert(s.subrange(0, 4) =~= i32_bytes(1));
    assert(s.subrange(4, 8) =~= i32_bytes(0));
    assert(s.subrange(8, 12) =~= u32_bytes(element_oid));
    assert(s.subrange(12, 16) =~= i32_bytes(n));
    assert(s.subrange(16, 20) =~= i32_bytes(1));
    assert(s.subrange(20, 20 + body.len() as int) =~= body);
    lemma_i32_roundtrip(1, s, 0);
    lemma_i32_roundtrip(0, s, 4);
    lemma_word_roundtrip(element_oid as int, s, 8);
    lemma_i32_roundtrip(n, s, 12);
    lemma_i32_roundtrip(1, s, 16);
    lemma_decode_encoded_elements(s, 20, elems, false);
}


/// The text of a decoding error.
pub open spec fn decode_error_msg(e: ArrayDecodeError) -> Seq<char> {
    match e {
        ArrayDecodeError::UnexpectedEof => "failed to fill whole buffer"@,
        ArrayDecodeError::MultiDimensional => "multi-dimensional arrays are not supported"@,
        ArrayDecodeError::OneDimensional =>
            "trying to deserialize one-dimensional postgres array into NdArray<T>, use Vec<T> instead"@,
        ArrayDecodeError::NegativeDimensionCount => "number of dimensions must be positive"@,
        ArrayDecodeError::NegativeDimensionLength => "array dimension length must be positive"@,
        ArrayDecodeError::InvalidElementSize => "out of range integral type conversion attempted"@,
    }
}

impl ArrayDecodeError {
    /// The error's message.
    pub fn message(&self) -> (s: &'static str)
        ensures
            s@ == decode_error_msg(*self),
    {
        match self {
            ArrayDecodeError::UnexpectedEof => "failed to fill whole buffer",
            ArrayDecodeError::MultiDimensional => "multi-dimensional arrays are not supported",
            ArrayDecodeError::OneDimensional =>
                "trying to deserialize one-dimensional postgres array into NdArray<T>, use Vec<T> instead",
            ArrayDecodeError::NegativeDimensionCount => "number of dimensions must be positive",
            ArrayDecodeError::NegativeDimensionLength => "array dimension length must be positive",
            ArrayDecodeError::InvalidElementSize => "out of range integral type conversion attempted",
        }
    }
}

/// Why a binary array value could not be read as nested vectors.
#[derive(Debug, Clone, PartialEq, Eq)]
pub enum NestedFromSqlError {
    /// The value is malformed.
    Decode(ArrayDecodeError),
    /// The decoded array does not have the shape of the nested vectors.
    Shape(String),
}

/// The text of an error from reading nested vectors.
pub open spec fn nested_error_msg(e: NestedFromSqlError) -> Seq<char> {
    match e {
        NestedFromSqlError::Decode(d) => decode_error_msg(d),
        NestedFromSqlError::Shape(msg) => msg@,
    }
}

impl NestedFromSqlError {
    /// The error's message: that of the decoding error, or the shape message.
    pub fn message(&self) -> (s: String)
        ensures
            s@ == nested_error_msg(*self),
    {
        match self {
            NestedFromSqlError::Decode(d) => String::from_str(d.message()),
            NestedFromSqlError::Shape(msg) => msg.clone(),
        }
    }
}

pub open spec fn raw_rows_view(v: Seq<Seq<Option<Vec<u8>>>>) -> Seq<Seq<Option<Seq<u8>>>> {
    v.map_values(|r: Seq<Option<Vec<u8>>>| raw_seq_view(r))
}

pub open spec fn raw_planes_view(v: Seq<Seq<Seq<Option<Vec<u8>>>>>) -> Seq<
    Seq<Seq<Option<Seq<u8>>>>,
> {
    v.map_values(|p: Seq<Seq<Option<Vec<u8>>>>| raw_rows_view(p))
}

/// The outcome of reading a decoded value as two-dimensional rows.
pub open spec fn vec2_from_sql_spec(
    d: Decoded<(Seq<usize>, Seq<Option<Seq<u8>>>)>,
    r: Result<Vec2<Option<Vec<u8>>>, NestedFromSqlError>,
) -> bool {
    match d {
        Ok(((dims, elems), _)) => match r {
            Ok(v) => dims.len() == 2 && elems.len() == seq_prod(dims) && raw_rows_view(v@) == (
            if elems.len() == 0 {
                Seq::<Seq<Option<Seq<u8>>>>::empty()
            } else {
                chunks(elems, dims[0] as nat, dims[1] as nat)
            }),
            Err(NestedFromSqlError::Shape(msg)) => !(dims.len() == 2 && elems.len() == seq_prod(
                dims,
            )) && msg@ == (if dims.len() != 2 {
                wrong_dim_msg(2, dims.len())
            } else {
                shape_mismatch_msg(seq_prod(dims) as nat, elems.len())
            }),
            Err(NestedFromSqlError::Decode(_)) => false,
        },
        Err(DecodeStop::Failed(e)) => r == Err::<Vec2<Option<Vec<u8>>>, _>(
            NestedFromSqlError::Decode(e),
        ),
        Err(_) => false,
    }
}

/// The outcome of reading a decoded value as three-dimensional planes.
pub open spec fn vec3_from_sql_spec(
    d: Decoded<(Seq<usize>, Seq<Option<Seq<u8>>>)>,
    r: Result<Vec3<Option<Vec<u8>>>, NestedFromSqlError>,
) -> bool {
    match d {
        Ok(((dims, elems), _)) => match r {
            Ok(v) => dims.len() == 3 && elems.len() == seq_prod(dims) && raw_planes_view(v@) == (
            if elems.len() == 0 {
                Seq::<Seq<Seq<Option<Seq<u8>>>>>::empty()
            } else {
                chunks(
                    chunks(elems, (dims[0] * dims[1]) as nat, dims[2] as nat),
                    dims[0] as nat,
                    dims[1] as nat,
                )
            }),
            Err(NestedFromSqlError::Shape(msg)) => !(dims.len() == 3 && elems.len() == seq_prod(
                dims,
            )) && msg@ == (if dims.len() != 3 {
                wrong_dim_msg(3, dims.len())
            } else {
                shape_mismatch_msg(seq_prod(dims) as nat, elems.len())
            }),
            Err(NestedFromSqlError::Decode(_)) => false,
        },
        Err(DecodeStop::Failed(e)) => r == Err::<Vec3<Option<Vec<u8>>>, _>(
            NestedFromSqlError::Decode(e),
        ),
        Err(_) => false,
    }
}

proof fn lemma_raw_chunks(data: Seq<Option<Vec<u8>>>, n: nat, size: nat)
    requires
        data.len() == n * size,
    ensures
        raw_rows_view(chunks(data, n, size)) == chunks(raw_seq_view(data), n, size),
{
    let lhs = raw_rows_view(chunks(data, n, size));
    let rhs = chunks(raw_seq_view(data), n, size);
    assert forall|i: int| 0 <= i < n implies #[trigger] lhs[i] == rhs[i] by {
        assert(0 <= i * size) by (nonlinear_arith)
            requires
                0 <= i,
        ;
        assert(i * size + size <= n * size) by (nonlinear_arith)
            requires
                i < n,
        ;
        assert(lhs[i] =~= rhs[i]);
    }
    assert(lhs =~= rhs);
}

impl Vec2<Option<Vec<u8>>> {
    /// Reads a PostgreSQL array value as rows of raw elements: the value is
    /// decoded as an n-dimensional array, which is then nested into rows.
    pub fn from_sql(bytes: &[u8]) -> (r: Result<Self, NestedFromSqlError>)
        requires
            decodable(decode_ndarray_spec(bytes@)),
        ensures
            vec2_from_sql_spec(decode_ndarray_spec(bytes@), r),
    {
        let nd = match NdArray::<Option<Vec<u8>>>::from_sql(bytes) {
            Ok(nd) => nd,
            Err(e) => {
                return Err(NestedFromSqlError::Decode(e));
            },
        };
        let ghost dims = nd.dims@;
        let ghost data = nd.data@;
        match Vec2::try_from(nd) {
            Ok(v) => {
                proof {
                    if data.len() == 0 {
                        assert(raw_rows_view(v@) =~= Seq::<Seq<Option<Seq<u8>>>>::empty());
                    } else {
                        crate::shape::lemma_seq_prod_small(dims[0], dims[1], 0);
                        assert(dims =~= seq![dims[0], dims[1]]);
                        lemma_raw_chunks(data, dims[0] as nat, dims[1] as nat);
                    }
                }
                Ok(v)
            },
            Err(msg) => Err(NestedFromSqlError::Shape(msg)),
        }
    }
}

impl Vec3<Option<Vec<u8>>> {
    /// Reads a PostgreSQL array value as planes of rows of raw elements: the
    /// value is decoded as an n-dimensional array, which is then nested.
    pub fn from_sql(bytes: &[u8]) -> (r: Result<Self, NestedFromSqlError>)
        requires
            decodable(decode_ndarray_spec(bytes@)),
        ensures
            vec3_from_sql_spec(decode_ndarray_spec(bytes@), r),
    {
        let nd = match NdArray::<Option<Vec<u8>>>::from_sql(bytes) {
            Ok(nd) => nd,
            Err(e) => {
                return Err(NestedFromSqlError::Decode(e));
            },
        };
        let ghost dims = nd.dims@;
        let ghost data = nd.data@;
        match Vec3::try_from(nd) {
            Ok(v) => {
                proof {
                    if data.len() == 0 {
                        assert(raw_planes_view(v@) =~= Seq::<Seq<Seq<Option<Seq<u8>>>>>::empty());
                    } else {
                        let (a, b, c) = (dims[0], dims[1], dims[2]);
                        crate::shape::lemma_seq_prod_small(a, b, c);
                        assert(dims =~= seq![a, b, c]);
                        assert(data.len() == (a * b) * c) by (nonlinear_arith)
                            requires
                                data.len() == a * b * c,
                        ;
                        let mid = chunks(data, (a * b) as nat, c as nat);
                        lemma_raw_chunks(data, (a * b) as nat, c as nat);
                        let outer = chunks(mid, a as nat, b as nat);
                        let raw_mid = chunks(raw_seq_view(data), (a * b) as nat, c as nat);
                        let expect = chunks(raw_mid, a as nat, b as nat);
                        assert forall|i: int| 0 <= i < a implies #[trigger] raw_planes_view(v@)[i]
                            == expect[i] by {
                            assert(0 <= i * b) by (nonlinear_arith)
                                requires
                                    0 <= i,
                            ;
                            assert(i * b + b <= a * b) by (nonlinear_arith)
                                requires
                                    i < a,
                            ;
                            assert(raw_planes_view(v@)[i] == raw_rows_view(outer[i]));
                            assert(raw_rows_view(outer[i]) =~= raw_rows_view(mid).subrange(
                                i * b,
                                i * b + b,
                            ));
                        }
                        assert(raw_planes_view(v@) =~= expect);
                    }
                }
                Ok(v)
            },
            Err(msg) => Err(NestedFromSqlError::Shape(msg)),
        }
    }
}

/// The oids of a PostgreSQL type: its own, and that of the array type whose
/// elements it is (0 when there is none).
#[derive(Debug, Clone, Copy, PartialEq, Eq, Structural)]
pub struct PgTypeOids {
    pub oid: u32,
    pub array_oid: u32,
}

/// The type of an array whose elements have the type `element`: its oid is the
/// element type's array oid, and it has no array type of its own. A failed
/// lookup of the element type is passed on.
pub fn array_type_metadata<E>(element: Result<PgTypeOids, E>) -> (r: Result<PgTypeOids, E>)
    ensures
        match element {
            Ok(t) => r == Ok::<PgTypeOids, E>(PgTypeOids { oid: t.array_oid, array_oid: 0 }),
            Err(e) => r == Err::<PgTypeOids, E>(e),
        },
{
    match element {
        Ok(tpe) => Ok(PgTypeOids { oid: tpe.array_oid, array_oid: 0 }),
        Err(e) => Err(e),
    }
}


proof fn lemma_decode_elements_len(s: Seq<u8>, pos: int, n: nat, has_null: bool)
    ensures
        decode_elements(s, pos, n, has_null) matches Ok((e, _)) ==> e.len() == n,
    decreases n,
{
    if n > 0 {
        match word_at(s, pos) {
            Some(size) => {
                if has_null && size == -1 {
                    lemma_decode_elements_len(s, pos + 4, (n - 1) as nat, has_null);
                } else {
                    lemma_decode_elements_len(s, pos + 4 + size, (n - 1) as nat, has_null);
                }
            },
            None => {},
        }
    }
}

proof fn lemma_decode_dims_len(s: Seq<u8>, pos: int, n: nat)
    ensures
        decode_dims(s, pos, n) matches Ok((d, _)) ==> d.len() == n,
    decreases n,
{
    if n > 0 {
        lemma_decode_dims_len(s, pos + 8, (n - 1) as nat);
    }
}

/// A decoded n-dimensional array is well formed: either it has no dimensions
/// and no elements, or it has at least two dimensions, its running element
/// count fits in a `usize` and it holds exactly that many elements. So a
/// decoded array of two (three) dimensions always nests into rows (planes).
pub proof fn law_decoded_ndarray_shape(s: Seq<u8>)
    ensures
        decode_ndarray_spec(s) matches Ok(((dims, elems), _)) ==> {
            ||| dims.len() == 0 && elems.len() == 0
            ||| dims.len() >= 2 && running_prod_fits(dims) && elems.len() == seq_prod(dims)
        },
{
    match (word_at(s, 0), word_at(s, 4), word_at(s, 8)) {
        (Some(ndims), Some(flags), Some(_)) => {
            if ndims >= 2 {
                lemma_decode_dims_len(s, 12, ndims as nat);
                match decode_dims(s, 12, ndims as nat) {
                    Ok((dims, p)) => {
                        crate::shape::lemma_seq_prod_nonneg(dims);
                        lemma_decode_elements_len(s, p, seq_prod(dims) as nat, flags != 0);
                    },
                    Err(_) => {},
                }
            }
        },
        _ => {},
    }
}

/// A decoded one-dimensional array holds as many elements as its header
/// counts (none when the count is negative or the value has no dimensions).
pub proof fn law_decoded_vec_len(s: Seq<u8>)
    ensures
        decode_vec_spec(s) matches Ok((elems, _)) ==> elems.len() == (if word_at(s, 0) == Some(
            0i32,
        ) {
            0
        } else {
            let count = word_at(s, 12).unwrap();
            if count < 0 {
                0
            } else {
                count as int
            }
        }),
{
    match (word_at(s, 12), word_at(s, 4)) {
        (Some(count), Some(flags)) => {
            lemma_decode_elements_len(
                s,
                20,
                if count < 0 {
                    0
                } else {
                    count as nat
                },
                flags != 0,
            );
        },
        _ => {},
    }
}


/// The three header words of an array value: the number of dimensions, the
/// NULL flag word and the element oid.
pub open spec fn header_bytes(ndims: i32, flags: i32, element_oid: u32) -> Seq<u8> {
    i32_bytes(ndims) + i32_bytes(flags) + u32_bytes(element_oid)
}

/// The dimension words of an array value: each extent followed by the lower
/// bound 1.
pub open spec fn dims_bytes(dims: Seq<usize>) -> Seq<u8>
    decreases dims.len(),
{
    if dims.len() == 0 {
        seq![]
    } else {
        i32_bytes(dims[0] as i32) + i32_bytes(1) + dims_bytes(dims.drop_first())
    }
}

/// Every extent fits in a dimension word.
pub open spec fn dims_encodable(dims: Seq<usize>) -> bool {
    forall|i: int| 0 <= i < dims.len() ==> #[trigger] dims[i] <= i32::MAX
}

/// Every element fits in an element word.
pub open spec fn elements_encodable(elems: Seq<Option<Seq<u8>>>) -> bool {
    forall|i: int| 0 <= i < elems.len() ==> #[trigger] encodable_element(elems[i])
}

/// The bytes of a one-dimensional array value with the given flag word.
pub open spec fn vec_value_bytes(elems: Seq<Option<Seq<u8>>>, flags: i32, element_oid: u32) -> Seq<
    u8,
> {
    header_bytes(1, flags, element_oid) + i32_bytes(elems.len() as i32) + i32_bytes(1)
        + encode_elements(elems).0
}

/// The bytes of an n-dimensional array value with the given flag word.
pub open spec fn ndarray_value_bytes(
    dims: Seq<usize>,
    elems: Seq<Option<Seq<u8>>>,
    flags: i32,
    element_oid: u32,
) -> Seq<u8> {
    header_bytes(dims.len() as i32, flags, element_oid) + dims_bytes(dims) + encode_elements(
        elems,
    ).0
}

proof fn lemma_encode_elements_ok(elems: Seq<Option<Seq<u8>>>)
    ensures
        encode_elements(elems).1 is Ok <==> elements_encodable(elems),
        encode_elements(elems).1 is Err ==> encode_elements(elems).1 == Err::<(), ArrayEncodeError>(
            ArrayEncodeError::ElementTooLarge,
        ),
    decreases elems.len(),
{
    if elems.len() > 0 {
        let rest = elems.drop_first();
        lemma_encode_elements_ok(rest);
        if elements_encodable(elems) {
            assert forall|i: int| 0 <= i < rest.len() implies #[trigger] encodable_element(
                rest[i],
            ) by {
                assert(rest[i] == elems[i + 1]);
            }
            assert(encodable_element(elems[0]));
        } else if encodable_element(elems[0]) {
            let i = choose|i: int| 0 <= i < elems.len() && !encodable_element(#[trigger] elems[i]);
            assert(rest[i - 1] == elems[i]);
        }
    }
}

/// Encoding succeeds exactly when the element count and every element's byte
/// count fit in an `i32`; a count that does not fit is reported first.
pub proof fn law_encode_outcome(elems: Seq<Option<Seq<u8>>>, element_oid: u32)
    ensures
        encode_array(elems, element_oid).1 is Ok <==> elems.len() <= i32::MAX
            && elements_encodable(elems),
        encode_array(elems, element_oid).1 == Err::<(), ArrayEncodeError>(
            ArrayEncodeError::TooManyElements,
        ) <==> elems.len() > i32::MAX,
        encode_array(elems, element_oid).1 == Err::<(), ArrayEncodeError>(
            ArrayEncodeError::ElementTooLarge,
        ) <==> elems.len() <= i32::MAX && !elements_encodable(elems),
        encode_array(elems, element_oid).1 is Ok ==> encode_array(elems, element_oid).0
            == vec_value_bytes(elems, 0, element_oid),
{
    lemma_encode_elements_ok(elems);
}

proof fn lemma_decode_encoded_dims(s: Seq<u8>, p: int, dims: Seq<usize>)
    requires
        0 <= p,
        dims_encodable(dims),
        p + dims_bytes(dims).len() <= s.len(),
        s.subrange(p, p + dims_bytes(dims).len()) == dims_bytes(dims),
    ensures
        dims_bytes(dims).len() == 8 * dims.len(),
        decode_dims(s, p, dims.len()) == Ok::<_, DecodeStop>((dims, p + 8 * dims.len())),
    decreases dims.len(),
{
    if dims.len() == 0 {
        assert(dims =~= Seq::<usize>::empty());
    } else {
        let rest = dims.drop_first();
        let enc = dims_bytes(dims);
        let renc = dims_bytes(rest);
        let d0 = dims[0] as i32;
        assert(enc == i32_bytes(d0) + i32_bytes(1) + renc);
        assert(dims_encodable(rest)) by {
            assert forall|i: int| 0 <= i < rest.len() implies #[trigger] rest[i] <= i32::MAX by {
                assert(rest[i] == dims[i + 1]);
            }
        }
        assert(s.subrange(p + 8, p + 8 + renc.len()) =~= renc) by {
            assert forall|i: int| 0 <= i < renc.len() implies #[trigger] s.subrange(
                p + 8,
                p + 8 + renc.len(),
            )[i] == renc[i] by {
                assert(s[p + 8 + i] == s.subrange(p, p + enc.len())[8 + i]);
            }
        }
        lemma_decode_encoded_dims(s, p + 8, rest);
        assert(s.subrange(p, p + 4) =~= i32_bytes(d0)) by {
            assert forall|i: int| 0 <= i < 4 implies #[trigger] s.subrange(p, p + 4)[i]
                == i32_bytes(d0)[i] by {
                assert(s[p + i] == s.subrange(p, p + enc.len())[i]);
            }
        }
        assert(s.subrange(p + 4, p + 8) =~= i32_bytes(1)) by {
            assert forall|i: int| 0 <= i < 4 implies #[trigger] s.subrange(p + 4, p + 8)[i]
                == i32_bytes(1)[i] by {
                assert(s[p + 4 + i] == s.subrange(p, p + enc.len())[4 + i]);
            }
        }
        lemma_i32_roundtrip(d0, s, p);
        lemma_i32_roundtrip(1, s, p + 4);
        assert(seq![dims[0]] + rest =~= dims);
    }
}

/// Decoding a one-dimensional value gives back exactly the elements its
/// element words encode, empty elements included. With the NULL flag set a
/// NULL element is read as NULL; without it, a NULL element is an invalid
/// element size.
pub proof fn law_decode_vec_value(elems: Seq<Option<Seq<u8>>>, flags: i32, element_oid: u32)
    requires
        elems.len() <= i32::MAX,
        elements_encodable(elems),
    ensures
        decode_vec_spec(vec_value_bytes(elems, flags, element_oid)) == (if flags != 0 || no_nulls(
            elems,
        ) {
            Ok::<_, DecodeStop>((elems, vec_value_bytes(elems, flags, element_oid).len() as int))
        } else {
            Err(DecodeStop::Failed(ArrayDecodeError::InvalidElementSize))
        }),
{
    lemma_encode_elements_ok(elems);
    let s = vec_value_bytes(elems, flags, element_oid);
    let n = elems.len() as i32;
    let body = encode_elements(elems).0;
    assert(s == i32_bytes(1) + i32_bytes(flags) + u32_bytes(element_oid) + i32_bytes(n)
        + i32_bytes(1) + body);
    assert(s.len() == 20 + body.len());
    assert(s.subrange(0, 4) =~= i32_bytes(1));
    assert(s.subrange(4, 8) =~= i32_bytes(flags));
    assert(s.subrange(8, 12) =~= u32_bytes(element_oid));
    assert(s.subrange(12, 16) =~= i32_bytes(n));
    assert(s.subrange(16, 20) =~= i32_bytes(1));
    assert(s.subrange(20, 20 + body.len() as int) =~= body);
    lemma_i32_roundtrip(1, s, 0);
    lemma_i32_roundtrip(flags, s, 4);
    lemma_word_roundtrip(element_oid as int, s, 8);
    lemma_i32_roundtrip(n, s, 12);
    lemma_i32_roundtrip(1, s, 16);
    lemma_decode_encoded_elements(s, 20, elems, flags != 0);
}

/// Decoding an n-dimensional value gives back exactly its extents and the
/// elements its element words encode, in order, empty elements included.
/// With the NULL flag set a NULL element is read as NULL; without it, a NULL
/// element is an invalid element size.
pub proof fn law_decode_ndarray_value(
    dims: Seq<usize>,
    elems: Seq<Option<Seq<u8>>>,
    flags: i32,
    element_oid: u32,
)
    requires
        2 <= dims.len() <= i32::MAX,
        dims_encodable(dims),
        running_prod_fits(dims),
        elems.len() == seq_prod(dims),
        elements_encodable(elems),
    ensures
        decode_ndarray_spec(ndarray_value_bytes(dims, elems, flags, element_oid)) == (if flags != 0
            || no_nulls(elems) {
            Ok::<_, DecodeStop>(
                (
                    (dims, elems),
                    ndarray_value_bytes(dims, elems, flags, element_oid).len() as int,
                ),
            )
        } else {
            Err(DecodeStop::Failed(ArrayDecodeError::InvalidElementSize))
        }),
{
    lemma_encode_elements_ok(elems);
    let s = ndarray_value_bytes(dims, elems, flags, element_oid);
    let nd = dims.len() as i32;
    let db = dims_bytes(dims);
    let body = encode_elements(elems).0;
    assert(s == i32_bytes(nd) + i32_bytes(flags) + u32_bytes(element_oid) + db + body);
    assert(s.subrange(0, 4) =~= i32_bytes(nd));
    assert(s.subrange(4, 8) =~= i32_bytes(flags));
    assert(s.subrange(8, 12) =~= u32_bytes(element_oid));
    assert(s.subrange(12, 12 + db.len() as int) =~= db);
    lemma_i32_roundtrip(nd, s, 0);
    lemma_i32_roundtrip(flags, s, 4);
    lemma_word_roundtrip(element_oid as int, s, 8);
    lemma_decode_encoded_dims(s, 12, dims);
    let p: int = 12 + db.len() as int;
    assert(s.subrange(p, p + body.len() as int) =~= body);
    lemma_decode_encoded_elements(s, p, elems, flags != 0);
    assert(seq_prod(dims) as nat == elems.len());
}

/// Reading a two-dimensional value as rows gives the elements its element
/// words encode, cut into rows of the second extent; without elements there
/// are no rows. NULL elements come back as NULL when the NULL flag is set.
pub proof fn law_vec2_from_sql_value(
    dims: Seq<usize>,
    elems: Seq<Option<Seq<u8>>>,
    flags: i32,
    element_oid: u32,
    r: Result<Vec2<Option<Vec<u8>>>, NestedFromSqlError>,
)
    requires
        dims.len() == 2,
        dims_encodable(dims),
        running_prod_fits(dims),
        elems.len() == seq_prod(dims),
        elements_encodable(elems),
        flags != 0 || no_nulls(elems),
        vec2_from_sql_spec(decode_ndarray_spec(ndarray_value_bytes(dims, elems, flags, element_oid)), r),
    ensures
        r matches Ok(v) && raw_rows_view(v@) == (if elems.len() == 0 {
            Seq::<Seq<Option<Seq<u8>>>>::empty()
        } else {
            chunks(elems, dims[0] as nat, dims[1] as nat)
        }),
{
    law_decode_ndarray_value(dims, elems, flags, element_oid);
}

/// Reading a three-dimensional value as planes gives the elements its element
/// words encode, cut into rows of the third extent and planes of the second;
/// without elements there are no planes. NULL elements come back as NULL when
/// the NULL flag is set.
pub proof fn law_vec3_from_sql_value(
    dims: Seq<usize>,
    elems: Seq<Option<Seq<u8>>>,
    flags: i32,
    element_oid: u32,
    r: Result<Vec3<Option<Vec<u8>>>, NestedFromSqlError>,
)
    requires
        dims.len() == 3,
        dims_encodable(dims),
        running_prod_fits(dims),
        elems.len() == seq_prod(dims),
        elements_encodable(elems),
        flags != 0 || no_nulls(elems),
        vec3_from_sql_spec(decode_ndarray_spec(ndarray_value_bytes(dims, elems, flags, element_oid)), r),
    ensures
        r matches Ok(v) && raw_planes_view(v@) == (if elems.len() == 0 {
            Seq::<Seq<Seq<Option<Seq<u8>>>>>::empty()
        } else {
            chunks(
                chunks(elems, (dims[0] * dims[1]) as nat, dims[2] as nat),
                dims[0] as nat,
                dims[1] as nat,
            )
        }),
{
    law_decode_ndarray_value(dims, elems, flags, element_oid);
}


proof fn lemma_header_words(ndims: i32, flags: i32, element_oid: u32, rest: Seq<u8>)
    ensures
        ({
            let s = header_bytes(ndims, flags, element_oid) + rest;
            &&& word_at(s, 0) == Some(ndims)
            &&& word_at(s, 4) == Some(flags)
            &&& word_at(s, 8) is Some
            &&& s.len() == 12 + rest.len()
            &&& s.skip(12) == rest
        }),
{
    let s = header_bytes(ndims, flags, element_oid) + rest;
    assert(s.subrange(0, 4) =~= i32_bytes(ndims));
    assert(s.subrange(4, 8) =~= i32_bytes(flags));
    assert(s.subrange(8, 12) =~= u32_bytes(element_oid));
    assert(s.skip(12) =~= rest);
    lemma_i32_roundtrip(ndims, s, 0);
    lemma_i32_roundtrip(flags, s, 4);
}

proof fn lemma_word_in_rest(s: Seq<u8>, rest: Seq<u8>, pos: int, n: i32)
    requires
        s.len() == 12 + rest.len(),
        s.skip(12) == rest,
        0 <= pos,
        pos + 4 <= rest.len(),
        rest.subrange(pos, pos + 4) == i32_bytes(n),
    ensures
        word_at(s, 12 + pos) == Some(n),
{
    assert(s.subrange(12 + pos, 12 + pos + 4) =~= i32_bytes(n)) by {
        assert forall|i: int| 0 <= i < 4 implies #[trigger] s.subrange(12 + pos, 12 + pos + 4)[i]
            == i32_bytes(n)[i] by {
            assert(s[12 + pos + i] == rest[pos + i]);
            assert(rest[pos + i] == rest.subrange(pos, pos + 4)[i]);
        }
    }
    lemma_i32_roundtrip(n, s, 12 + pos);
}

/// How the header decides a value: fewer than twelve bytes end the input
/// early; no dimensions give the empty array in both shapes; one dimension is
/// refused as an n-dimensional array; a negative dimension count is refused.
pub proof fn law_decode_header(ndims: i32, flags: i32, element_oid: u32, rest: Seq<u8>, short: Seq<u8>)
    requires
        short.len() < 12,
    ensures
        decode_vec_spec(short) == eof::<Seq<Option<Seq<u8>>>>(),
        decode_ndarray_spec(short) == eof::<(Seq<usize>, Seq<Option<Seq<u8>>>)>(),
        ndims == 0 ==> decode_vec_spec(header_bytes(ndims, flags, element_oid) + rest) == Ok::<
            _,
            DecodeStop,
        >((Seq::<Option<Seq<u8>>>::empty(), 12int)),
        ndims == 0 ==> decode_ndarray_spec(header_bytes(ndims, flags, element_oid) + rest) == Ok::<
            _,
            DecodeStop,
        >(((Seq::<usize>::empty(), Seq::<Option<Seq<u8>>>::empty()), 12int)),
        ndims == 1 ==> decode_ndarray_spec(header_bytes(ndims, flags, element_oid) + rest) == Err::<
            ((Seq<usize>, Seq<Option<Seq<u8>>>), int),
            _,
        >(DecodeStop::Failed(ArrayDecodeError::OneDimensional)),
        ndims < 0 ==> decode_ndarray_spec(header_bytes(ndims, flags, element_oid) + rest) == Err::<
            ((Seq<usize>, Seq<Option<Seq<u8>>>), int),
            _,
        >(DecodeStop::Failed(ArrayDecodeError::NegativeDimensionCount)),
{
    lemma_header_words(ndims, flags, element_oid, rest);
}

/// A one-dimensional read of a value whose header counts a number of
/// dimensions other than zero and one is refused as multi-dimensional, once
/// the first dimension's two words are present.
pub proof fn law_decode_vec_multi(
    ndims: i32,
    flags: i32,
    element_oid: u32,
    count: i32,
    lower: i32,
    rest: Seq<u8>,
)
    requires
        ndims != 0,
        ndims != 1,
    ensures
        decode_vec_spec(
            header_bytes(ndims, flags, element_oid) + i32_bytes(count) + i32_bytes(lower) + rest,
        ) == Err::<(Seq<Option<Seq<u8>>>, int), _>(
            DecodeStop::Failed(ArrayDecodeError::MultiDimensional),
        ),
{
    let tail = i32_bytes(count) + i32_bytes(lower) + rest;
    lemma_header_words(ndims, flags, element_oid, tail);
    let s = header_bytes(ndims, flags, element_oid) + tail;
    assert(header_bytes(ndims, flags, element_oid) + i32_bytes(count) + i32_bytes(lower) + rest
        =~= s);
    assert(tail.subrange(0, 4) =~= i32_bytes(count));
    assert(tail.subrange(4, 8) =~= i32_bytes(lower));
    lemma_word_in_rest(s, tail, 0, count);
    lemma_word_in_rest(s, tail, 4, lower);
}

/// An n-dimensional read refuses a negative extent in the first dimension.
pub proof fn law_decode_ndarray_negative_extent(
    ndims: i32,
    flags: i32,
    element_oid: u32,
    extent: i32,
    lower: i32,
    rest: Seq<u8>,
)
    requires
        ndims >= 2,
        extent < 0,
    ensures
        decode_ndarray_spec(
            header_bytes(ndims, flags, element_oid) + i32_bytes(extent) + i32_bytes(lower) + rest,
        ) == Err::<((Seq<usize>, Seq<Option<Seq<u8>>>), int), _>(
            DecodeStop::Failed(ArrayDecodeError::NegativeDimensionLength),
        ),
{
    let tail = i32_bytes(extent) + i32_bytes(lower) + rest;
    lemma_header_words(ndims, flags, element_oid, tail);
    let s = header_bytes(ndims, flags, element_oid) + tail;
    assert(header_bytes(ndims, flags, element_oid) + i32_bytes(extent) + i32_bytes(lower) + rest
        =~= s);
    assert(tail.subrange(0, 4) =~= i32_bytes(extent));
    assert(tail.subrange(4, 8) =~= i32_bytes(lower));
    lemma_word_in_rest(s, tail, 0, extent);
    lemma_word_in_rest(s, tail, 4, lower);
}

} // verus!
