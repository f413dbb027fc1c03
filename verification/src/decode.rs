use crate::be::{be_val, lemma_be_val_bound, lemma_be_val_zero_prefix, pow256, read_be_u128};
use crate::buf::{bytes_copy_from_slice, bytes_mut_from_slice, bytes_mut_view, bytes_view};
use crate::error::Error;
use crate::header::{lemma_header_decode_ok, push_all, spec_decode_payload, Header};
use vstd::prelude::*;
use vstd::string::StringSliceAdditionalSpecFns;
use vstd::utf8::{decode_utf8, encode_utf8, encode_utf8_decode_utf8, valid_utf8};

verus! {

/// A value that can be read back from the front of an RLP byte stream.
///
/// `dec_spec` says, for every input, either the decoded value (as its deep
/// view) together with the number of bytes consumed, or the exact error;
/// `decode` realises it, advancing the buffer past the consumed bytes on
/// success and leaving it unspecified on failure.
pub trait Decodable: Sized + DeepView {
    /// What decoding reads off the front of `input`: the value and the
    /// bytes consumed, or the error.
    spec fn dec_spec(input: Seq<u8>) -> Result<(Self::V, int), Error>;

    /// Reads one value from the front of the buffer.
    fn decode(buf: &mut &[u8]) -> (r: Result<Self, Error>)
        ensures
            match r {
                Ok(v) => Self::dec_spec(old(buf)@) matches Ok(p) && p.0 == v.deep_view() && 1
                    <= p.1 <= old(buf)@.len() && final(buf)@ == old(buf)@.skip(p.1),
                Err(e) => Self::dec_spec(old(buf)@) == Err::<(Self::V, int), Error>(e),
            },
    ;
}

/// Decoding a string payload as an unsigned integer of at most `width`
/// bytes: the payload must fit the width and carry no leading zero; its
/// big-endian value is the result.
pub open spec fn spec_decode_uint(input: Seq<u8>, width: nat) -> Result<(nat, int), Error> {
    match spec_decode_payload(input, false) {
        Ok(p) => if p.0.len() > width {
            Err(Error::Overflow)
        } else if p.0.len() > 0 && p.0[0] == 0 {
            Err(Error::LeadingZero)
        } else {
            Ok((be_val(p.0), p.1))
        },
        Err(e) => Err(e),
    }
}

/// Left-pads `data` with zero bytes to exactly `n` bytes, rejecting data
/// that is too wide (`Overflow`) or has a leading zero (`LeadingZero`).
pub fn static_left_pad(data: &[u8], n: usize) -> (r: Result<Vec<u8>, Error>)
    ensures
        match r {
            Ok(v) => data@.len() <= n && (data@.len() > 0 ==> data@[0] != 0) && v@.len() == n
                && v@.skip(n - data@.len()) == data@ && (forall|i: int|
                0 <= i < n - data@.len() ==> v@[i] == 0),
            Err(e) => (data@.len() > n && e == Error::Overflow) || (data@.len() <= n && data@.len()
                > 0 && data@[0] == 0 && e == Error::LeadingZero),
        },
{
    if data.len() > n {
        return Err(Error::Overflow);
    }
    if data.len() > 0 && data[0] == 0 {
        return Err(Error::LeadingZero);
    }
    let pad = n - data.len();
    let mut v: Vec<u8> = Vec::new();
    let mut i: usize = 0;
    while i < pad
        invariant
            0 <= i <= pad,
            v@.len() == i,
            forall|j: int| 0 <= j < i ==> v@[j] == 0,
        decreases pad - i,
    {
        v.push(0);
        i = i + 1;
    }
    push_all(&mut v, data);
    proof {
        assert(v@.skip(pad as int) =~= data@);
    }
    Ok(v)
}

/// Reads an unsigned integer of at most `width` bytes, as `spec_decode_uint`
/// describes.
fn decode_uint_raw(buf: &mut &[u8], width: usize) -> (r: Result<u128, Error>)
    requires
        1 <= width <= 16,
    ensures
        match r {
            Ok(v) => spec_decode_uint(old(buf)@, width as nat) matches Ok(p) && v as nat == p.0
                && (v as nat) < pow256(width as nat) && 1 <= p.1 <= old(buf)@.len()
                && final(buf)@ == old(buf)@.skip(p.1),
            Err(e) => spec_decode_uint(old(buf)@, width as nat) == Err::<(nat, int), Error>(e),
        },
{
    proof {
        lemma_header_decode_ok(old(buf)@);
    }
    let payload = match Header::decode_bytes(buf, false) {
        Ok(p) => p,
        Err(e) => {
            return Err(e);
        },
    };
    let padded = match static_left_pad(payload, width) {
        Ok(v) => v,
        Err(e) => {
            return Err(e);
        },
    };
    let value = read_be_u128(padded.as_slice());
    proof {
        lemma_be_val_zero_prefix(padded@, width - payload@.len());
        lemma_be_val_bound(padded@);
    }
    Ok(value)
}

impl Decodable for u8 {
    open spec fn dec_spec(input: Seq<u8>) -> Result<(u8, int), Error> {
        match spec_decode_uint(input, 1) {
            Ok(p) => Ok((p.0 as u8, p.1)),
            Err(e) => Err(e),
        }
    }

    fn decode(buf: &mut &[u8]) -> (r: Result<Self, Error>) {
        proof {
            reveal_with_fuel(pow256, 2);
        }
        match decode_uint_raw(buf, 1) {
            Ok(v) => Ok(v as u8),
            Err(e) => Err(e),
        }
    }
}

impl Decodable for u16 {
    open spec fn dec_spec(input: Seq<u8>) -> Result<(u16, int), Error> {
        match spec_decode_uint(input, 2) {
            Ok(p) => Ok((p.0 as u16, p.1)),
            Err(e) => Err(e),
        }
    }

    fn decode(buf: &mut &[u8]) -> (r: Result<Self, Error>) {
        proof {
            reveal_with_fuel(pow256, 3);
        }
        match decode_uint_raw(buf, 2) {
            Ok(v) => Ok(v as u16),
            Err(e) => Err(e),
        }
    }
}

impl Decodable for u32 {
    open spec fn dec_spec(input: Seq<u8>) -> Result<(u32, int), Error> {
        match spec_decode_uint(input, 4) {
            Ok(p) => Ok((p.0 as u32, p.1)),
            Err(e) => Err(e),
        }
    }

    fn decode(buf: &mut &[u8]) -> (r: Result<Self, Error>) {
        proof {
            reveal_with_fuel(pow256, 5);
        }
        match decode_uint_raw(buf, 4) {
            Ok(v) => Ok(v as u32),
            Err(e) => Err(e),
        }
    }
}

impl Decodable for u64 {
    open spec fn dec_spec(input: Seq<u8>) -> Result<(u64, int), Error> {
        match spec_decode_uint(input, 8) {
            Ok(p) => Ok((p.0 as u64, p.1)),
            Err(e) => Err(e),
        }
    }

    fn decode(buf: &mut &[u8]) -> (r: Result<Self, Error>) {
        proof {
            reveal_with_fuel(pow256, 9);
        }
        match decode_uint_raw(buf, 8) {
            Ok(v) => Ok(v as u64),
            Err(e) => Err(e),
        }
    }
}

impl Decodable for u128 {
    open spec fn dec_spec(input: Seq<u8>) -> Result<(u128, int), Error> {
        match spec_decode_uint(input, 16) {
            Ok(p) => Ok((p.0 as u128, p.1)),
            Err(e) => Err(e),
        }
    }

    fn decode(buf: &mut &[u8]) -> (r: Result<Self, Error>) {
        proof {
            reveal_with_fuel(pow256, 17);
        }
        match decode_uint_raw(buf, 16) {
            Ok(v) => Ok(v),
            Err(e) => Err(e),
        }
    }
}

/// The width in bytes of the platform word.
pub open spec fn spec_usize_width() -> nat {
    if usize::MAX == 0xFFFFFFFF {
        4
    } else {
        8
    }
}

/// The platform word's range matches its width.
pub proof fn lemma_usize_range()
    ensures
        pow256(spec_usize_width()) == usize::MAX as nat + 1,
{
    reveal_with_fuel(pow256, 9);
    assert(usize::MAX as nat == 0xFFFFFFFF || usize::MAX as nat == 0xFFFFFFFFFFFFFFFF);
}

impl Decodable for usize {
    open spec fn dec_spec(input: Seq<u8>) -> Result<(usize, int), Error> {
        match spec_decode_uint(input, spec_usize_width()) {
            Ok(p) => Ok((p.0 as usize, p.1)),
            Err(e) => Err(e),
        }
    }

    fn decode(buf: &mut &[u8]) -> (r: Result<Self, Error>) {
        proof {
            lemma_usize_range();
        }
        let width: usize = if usize::MAX as u128 == 0xFFFFFFFF {
            4
        } else {
            8
        };
        match decode_uint_raw(buf, width) {
            Ok(v) => Ok(v as usize),
            Err(e) => Err(e),
        }
    }
}

impl<const N: usize> Decodable for [u8; N] {
    open spec fn dec_spec(input: Seq<u8>) -> Result<(Seq<u8>, int), Error> {
        match spec_decode_payload(input, false) {
            Ok(p) => if p.0.len() == N as int {
                Ok((p.0, p.1))
            } else {
                Err(Error::UnexpectedLength)
            },
            Err(e) => Err(e),
        }
    }

    fn decode(buf: &mut &[u8]) -> (r: Result<Self, Error>) {
        proof {
            lemma_header_decode_ok(old(buf)@);
        }
        let bytes = match Header::decode_bytes(buf, false) {
            Ok(b) => b,
            Err(e) => {
                return Err(e);
            },
        };
        if bytes.len() != N {
            return Err(Error::UnexpectedLength);
        }
        let mut arr: [u8; N] = vstd::array::array_fill_for_copy_types(0);
        let mut i: usize = 0;
        while i < N
            invariant
                0 <= i <= N,
                bytes@.len() == N,
                arr@.len() == N,
                forall|j: int| 0 <= j < i ==> arr@[j] == bytes@[j],
            decreases N - i,
        {
            arr[i] = bytes[i];
            i = i + 1;
        }
        proof {
            assert(arr@ =~= bytes@);
            assert(arr.deep_view() =~= arr@);
        }
        Ok(arr)
    }
}

impl Decodable for bool {
    open spec fn dec_spec(input: Seq<u8>) -> Result<(bool, int), Error> {
        match u8::dec_spec(input) {
            Ok(p) => if p.0 == 0 {
                Ok((false, p.1))
            } else if p.0 == 1 {
                Ok((true, p.1))
            } else {
                Err(Error::InputTooShort)
            },
            Err(e) => Err(e),
        }
    }

    fn decode(buf: &mut &[u8]) -> (r: Result<Self, Error>) {
        match u8::decode(buf) {
            Ok(0) => Ok(false),
            Ok(1) => Ok(true),
            Ok(_) => Err(Error::InputTooShort),
            Err(e) => Err(e),
        }
    }
}

impl Decodable for String {
    open spec fn dec_spec(input: Seq<u8>) -> Result<(Seq<char>, int), Error> {
        match spec_decode_payload(input, false) {
            Ok(p) => if valid_utf8(p.0) {
                Ok((decode_utf8(p.0), p.1))
            } else {
                Err(Error::UnexpectedString)
            },
            Err(e) => Err(e),
        }
    }

    fn decode(buf: &mut &[u8]) -> (r: Result<Self, Error>) {
        proof {
            lemma_header_decode_ok(old(buf)@);
        }
        match Header::decode_str(buf) {
            Ok(s) => {
                proof {
                    encode_utf8_decode_utf8(s@);
                }
                Ok(s.to_owned())
            },
            Err(e) => Err(e),
        }
    }
}

/// Decoding the elements of a list payload, one after the other, until it
/// is exhausted. An element that consumes nothing or reaches past the end
/// cannot make progress and reads as a short input.
pub open spec fn spec_decode_items<T: Decodable>(p: Seq<u8>) -> Result<Seq<T::V>, Error>
    decreases p.len(),
{
    if p.len() == 0 {
        Ok(Seq::empty())
    } else {
        match T::dec_spec(p) {
            Ok(q) => if 1 <= q.1 <= p.len() {
                match spec_decode_items::<T>(p.skip(q.1)) {
                    Ok(rest) => Ok(seq![q.0] + rest),
                    Err(e) => Err(e),
                }
            } else {
                Err(Error::InputTooShort)
            },
            Err(e) => Err(e),
        }
    }
}

impl<T: Decodable> Decodable for Vec<T> {
    open spec fn dec_spec(input: Seq<u8>) -> Result<(Seq<T::V>, int), Error> {
        match spec_decode_payload(input, true) {
            Ok(p) => match spec_decode_items::<T>(p.0) {
                Ok(items) => Ok((items, p.1)),
                Err(e) => Err(e),
            },
            Err(e) => Err(e),
        }
    }

    #[verifier::loop_isolation(false)]
    fn decode(buf: &mut &[u8]) -> (r: Result<Self, Error>) {
        proof {
            lemma_header_decode_ok(old(buf)@);
        }
        let mut bytes = match Header::decode_bytes(buf, true) {
            Ok(b) => b,
            Err(e) => {
                return Err(e);
            },
        };
        let ghost payload = bytes@;
        let mut vec: Vec<T> = Vec::new();
        proof {
            assert(vec.deep_view() =~= Seq::<T::V>::empty());
        }
        while bytes.len() > 0
            invariant
                match spec_decode_items::<T>(bytes@) {
                    Ok(rest) => spec_decode_items::<T>(payload) == Ok::<Seq<T::V>, Error>(
                        vec.deep_view() + rest,
                    ),
                    Err(e) => spec_decode_items::<T>(payload) == Err::<Seq<T::V>, Error>(e),
                },
            decreases bytes@.len(),
        {
            let ghost prev = bytes@;
            let ghost prev_dv = vec.deep_view();
            match T::decode(&mut bytes) {
                Ok(item) => {
                    let ghost idv = item.deep_view();
                    vec.push(item);
                    proof {
                        assert(vec.deep_view() =~= prev_dv.push(idv));
                        let q = T::dec_spec(prev)->Ok_0;
                        if spec_decode_items::<T>(prev.skip(q.1)) is Ok {
                            let rest = spec_decode_items::<T>(prev.skip(q.1))->Ok_0;
                            assert(prev_dv + (seq![q.0] + rest) =~= vec.deep_view() + rest);
                        }
                    }
                },
                Err(e) => {
                    proof {
                        assert(prev.len() > 0);
                        assert(T::dec_spec(prev) == Err::<(T::V, int), Error>(e));
                        assert(spec_decode_items::<T>(prev) == Err::<Seq<T::V>, Error>(e));
                    }
                    return Err(e);
                },
            }
        }
        proof {
            assert(vec.deep_view() + Seq::<T::V>::empty() =~= vec.deep_view());
        }
        Ok(vec)
    }
}

/// Reads one owned byte-string payload into a `bytes::Bytes` buffer.
pub fn decode_owned_bytes(buf: &mut &[u8]) -> (r: Result<bytes::Bytes, Error>)
    ensures
        match r {
            Ok(b) => spec_decode_payload(old(buf)@, false) matches Ok(p) && bytes_view(b) == p.0
                && final(buf)@ == old(buf)@.skip(p.1),
            Err(e) => spec_decode_payload(old(buf)@, false) == Err::<(Seq<u8>, int), Error>(e),
        },
{
    match Header::decode_bytes(buf, false) {
        Ok(s) => Ok(bytes_copy_from_slice(s)),
        Err(e) => Err(e),
    }
}

/// Reads one owned byte-string payload into a `bytes::BytesMut` buffer.
pub fn decode_owned_bytes_mut(buf: &mut &[u8]) -> (r: Result<bytes::BytesMut, Error>)
    ensures
        match r {
            Ok(b) => spec_decode_payload(old(buf)@, false) matches Ok(p) && bytes_mut_view(b)
                == p.0 && final(buf)@ == old(buf)@.skip(p.1),
            Err(e) => spec_decode_payload(old(buf)@, false) == Err::<(Seq<u8>, int), Error>(e),
        },
{
    match Header::decode_bytes(buf, false) {
        Ok(s) => Ok(bytes_mut_from_slice(s)),
        Err(e) => Err(e),
    }
}

/// A streaming walker over the elements of one list item: it opens the
/// outer list header and hands out one decoded element per call.
pub struct Rlp<'a> {
    pub payload_view: &'a [u8],
}

impl<'a> Rlp<'a> {
    /// Opens a list item: decodes its header and retains the payload.
    pub fn new(payload: &'a [u8]) -> (r: Result<Self, Error>)
        ensures
            match r {
                Ok(rlp) => spec_decode_payload(payload@, true) matches Ok(p) && rlp.payload_view@
                    == p.0,
                Err(e) => spec_decode_payload(payload@, true) == Err::<(Seq<u8>, int), Error>(e),
            },
    {
        let mut payload = payload;
        let payload_view = match Header::decode_bytes(&mut payload, true) {
            Ok(b) => b,
            Err(e) => {
                return Err(e);
            },
        };
        Ok(Self { payload_view })
    }

    /// The next element of the list, or `None` once the payload is
    /// exhausted.
    pub fn get_next<T: Decodable>(&mut self) -> (r: Result<Option<T>, Error>)
        ensures
            match r {
                Ok(opt) => match opt {
                    None => old(self).payload_view@.len() == 0 && final(self).payload_view@
                        == old(self).payload_view@,
                    Some(v) => T::dec_spec(old(self).payload_view@) matches Ok(p) && p.0
                        == v.deep_view() && final(self).payload_view@
                        == old(self).payload_view@.skip(p.1),
                },
                Err(e) => old(self).payload_view@.len() > 0 && T::dec_spec(
                    old(self).payload_view@,
                ) == Err::<(T::V, int), Error>(e),
            },
    {
        if self.payload_view.len() == 0 {
            Ok(None)
        } else {
            match T::decode(&mut self.payload_view) {
                Ok(v) => Ok(Some(v)),
                Err(e) => Err(e),
            }
        }
    }
}

/// Decoding one value that must occupy the whole input: trailing bytes are
/// rejected with `UnexpectedLength`.
pub open spec fn spec_decode_exact<T: Decodable>(input: Seq<u8>) -> Result<T::V, Error> {
    match T::dec_spec(input) {
        Ok(p) => if p.1 == input.len() {
            Ok(p.0)
        } else {
            Err(Error::UnexpectedLength)
        },
        Err(e) => Err(e),
    }
}

/// Decodes one value and requires that it consumes the entire input.
pub fn decode_exact<T: Decodable>(bytes: &[u8]) -> (r: Result<T, Error>)
    ensures
        match r {
            Ok(v) => spec_decode_exact::<T>(bytes@) == Ok::<T::V, Error>(v.deep_view()),
            Err(e) => spec_decode_exact::<T>(bytes@) == Err::<T::V, Error>(e),
        },
{
    let mut buf: &[u8] = bytes;
    let out = match T::decode(&mut buf) {
        Ok(v) => v,
        Err(e) => {
            return Err(e);
        },
    };
    if buf.len() > 0 {
        return Err(Error::UnexpectedLength);
    }
    Ok(out)
}

} // verus!
