use crate::be::{
    be_val, byte_width, lemma_be_val_bound, lemma_min_be_bytes_len, lemma_min_be_bytes_val,
    min_be_bytes, pow256, read_be_u128, to_be_bytes_trimmed,
};
use crate::error::Error;
use vstd::prelude::*;
use vstd::slice::slice_subrange;
use vstd::string::StringSliceAdditionalSpecFns;

verus! {

/// First byte of an empty string item, and offset of short string headers.
pub const EMPTY_STRING_CODE: u8 = 0x80;

/// First byte of an empty list item, and offset of short list headers.
pub const EMPTY_LIST_CODE: u8 = 0xC0;

/// The largest payload a short-form header can describe.
pub const MAX_SHORT_LEN: usize = 55;

/// Offset of long string headers.
pub const LONG_STRING_OFFSET: u8 = 0xB7;

/// Offset of long list headers.
pub const LONG_LIST_OFFSET: u8 = 0xF7;

/// The bytes of a header describing an item of kind `list` with an
/// `n`-byte payload.
pub open spec fn spec_header(list: bool, n: nat) -> Seq<u8> {
    if n <= 55 {
        seq![((if list { 0xC0int } else { 0x80int }) + n) as u8]
    } else {
        seq![((if list { 0xF7int } else { 0xB7int }) + min_be_bytes(n).len()) as u8] + min_be_bytes(n)
    }
}

/// The number of bytes a header for an `n`-byte payload occupies.
pub open spec fn spec_length_of_length(n: nat) -> nat {
    if n <= 55 {
        1
    } else {
        1 + min_be_bytes(n).len()
    }
}

/// A header occupies on the wire exactly the count that
/// `spec_length_of_length` gives, whatever its kind.
pub proof fn lemma_spec_header_len(list: bool, n: nat)
    ensures
        spec_header(list, n).len() == spec_length_of_length(n),
{
}

/// Reading a long-form header (first byte `0xB8..=0xBF` or `0xF8..=0xFF`)
/// from the front of `input`: the result carries the item kind, the bytes the
/// header occupies, and the payload length it promises.
pub open spec fn spec_long_header(input: Seq<u8>, list: bool) -> Result<(bool, int, int), Error> {
    let l = input[0] - (if list { 0xF7int } else { 0xB7int });
    if input.len() - 1 < l {
        Err(Error::InputTooShort)
    } else {
        let len_bytes = input.subrange(1, 1 + l);
        if len_bytes[0] == 0 {
            Err(Error::LeadingZero)
        } else {
            let n = be_val(len_bytes);
            if n > usize::MAX as nat {
                Err(Error::Overflow)
            } else if n <= 55 {
                Err(Error::NonCanonicalSize)
            } else if input.len() - 1 - l < n {
                Err(Error::InputTooShort)
            } else {
                Ok((list, 1 + l, n as int))
            }
        }
    }
}

/// Reading a header from the front of `input`. On success the triple is
/// `(list, consumed, payload_length)`: the item kind, how many bytes the
/// header itself occupies (zero for a bare single byte, which is its own
/// payload), and the payload length, which the input is checked to retain.
pub open spec fn spec_header_decode(input: Seq<u8>) -> Result<(bool, int, int), Error> {
    if input.len() == 0 {
        Err(Error::InputTooShort)
    } else {
        let b = input[0];
        if b <= 0x7F {
            Ok((false, 0, 1))
        } else if b <= 0xB7 {
            let n = b - 0x80;
            if n == 1 && input.len() < 2 {
                Err(Error::InputTooShort)
            } else if n == 1 && input[1] < 0x80 {
                Err(Error::NonCanonicalSingleByte)
            } else if input.len() - 1 < n {
                Err(Error::InputTooShort)
            } else {
                Ok((false, 1, n as int))
            }
        } else if b <= 0xBF {
            spec_long_header(input, false)
        } else if b <= 0xF7 {
            let n = b - 0xC0;
            if input.len() - 1 < n {
                Err(Error::InputTooShort)
            } else {
                Ok((true, 1, n as int))
            }
        } else {
            spec_long_header(input, true)
        }
    }
}

/// A successful header read stays within the input: the header bytes and the
/// promised payload both fit.
pub proof fn lemma_header_decode_ok(input: Seq<u8>)
    ensures
        spec_header_decode(input) matches Ok(t) ==> 0 <= t.1 <= 9 && 0 <= t.2 && t.1 + t.2
            <= input.len(),
{
}

/// Reading a header and taking the payload it frames, requiring the item
/// kind to be `list`. On success the pair is `(payload, consumed)` where
/// `consumed` covers the header and the payload.
pub open spec fn spec_decode_payload(input: Seq<u8>, list: bool) -> Result<(Seq<u8>, int), Error> {
    match spec_header_decode(input) {
        Ok(t) => if t.0 != list {
            Err(if list {
                Error::UnexpectedString
            } else {
                Error::UnexpectedList
            })
        } else {
            Ok((input.subrange(t.1, t.1 + t.2), t.1 + t.2))
        },
        Err(e) => Err(e),
    }
}

/// The header of one RLP item: its kind (string or list) and the length in
/// bytes of its payload.
#[derive(Clone, Copy, Debug, PartialEq, Eq, Structural)]
pub struct Header {
    pub list: bool,
    pub payload_length: usize,
}

impl Header {
    /// A header with the given kind and payload length.
    pub fn new(list: bool, payload_length: usize) -> (h: Self)
        ensures
            h.list == list,
            h.payload_length == payload_length,
    {
        Self { list, payload_length }
    }

    /// Whether the item is a list.
    pub fn list(&self) -> (r: bool)
        ensures
            r == self.list,
    {
        self.list
    }

    /// The payload length in bytes.
    pub fn payload_length(&self) -> (r: usize)
        ensures
            r == self.payload_length,
    {
        self.payload_length
    }

    /// Reads a header from the front of the buffer and advances past it
    /// (not past the payload). A bare byte below `0x80` is left in place:
    /// it is its own one-byte payload.
    pub fn decode(buf: &mut &[u8]) -> (r: Result<Self, Error>)
        ensures
            match r {
                Ok(h) => spec_header_decode(old(buf)@) matches Ok(t) && h.list == t.0
                    && h.payload_length as int == t.2 && final(buf)@ == old(buf)@.skip(t.1),
                Err(e) => spec_header_decode(old(buf)@) == Err::<(bool, int, int), Error>(e),
            },
    {
        let first = match get_next_byte(*buf) {
            Ok(b) => b,
            Err(e) => {
                return Err(e);
            },
        };
        let mut list = false;
        let payload_length: usize;
        if first <= 0x7F {
            payload_length = 1;
            proof {
                assert(final(buf)@ =~= old(buf)@.skip(0));
            }
        } else if first <= LONG_STRING_OFFSET {
            advance_unchecked(buf, 1);
            payload_length = (first - EMPTY_STRING_CODE) as usize;
            if payload_length == 1 {
                let next = match get_next_byte(*buf) {
                    Ok(b) => b,
                    Err(e) => {
                        return Err(e);
                    },
                };
                if next < EMPTY_STRING_CODE {
                    return Err(Error::NonCanonicalSingleByte);
                }
            }
        } else if first <= 0xBF || first >= 0xF8 {
            list = first >= 0xF8;
            advance_unchecked(buf, 1);
            let offset = if list {
                LONG_LIST_OFFSET
            } else {
                LONG_STRING_OFFSET
            };
            let len_of_len = (first - offset) as usize;
            if buf.len() < len_of_len {
                return Err(Error::InputTooShort);
            }
            let len_slice = slice_subrange(*buf, 0, len_of_len);
            proof {
                assert(len_slice@ =~= old(buf)@.subrange(1, 1 + len_of_len as int));
            }
            if len_slice[0] == 0 {
                return Err(Error::LeadingZero);
            }
            let len_val = read_be_u128(len_slice);
            advance_unchecked(buf, len_of_len);
            if len_val > usize::MAX as u128 {
                return Err(Error::Overflow);
            }
            let pl = len_val as usize;
            if pl <= MAX_SHORT_LEN {
                return Err(Error::NonCanonicalSize);
            }
            payload_length = pl;
            proof {
                assert(final(buf)@ =~= old(buf)@.skip(1 + len_of_len as int));
            }
        } else {
            advance_unchecked(buf, 1);
            list = true;
            payload_length = (first - EMPTY_LIST_CODE) as usize;
        }
        if buf.len() < payload_length {
            return Err(Error::InputTooShort);
        }
        Ok(Self::new(list, payload_length))
    }

    /// Appends the wire form of this header to `out`.
    pub fn encode(&self, out: &mut Vec<u8>)
        ensures
            final(out)@ == old(out)@ + spec_header(self.list, self.payload_length as nat),
    {
        let payload_length = self.payload_length();
        if payload_length <= MAX_SHORT_LEN {
            let offset = if self.list() {
                EMPTY_LIST_CODE
            } else {
                EMPTY_STRING_CODE
            };
            out.push(offset + payload_length as u8);
            proof {
                assert(final(out)@ =~= old(out)@ + spec_header(self.list, self.payload_length as nat));
            }
        } else {
            proof {
                lemma_usize_width();
                lemma_min_be_bytes_len(payload_length as nat, 8);
            }
            let len_be = to_be_bytes_trimmed(payload_length as u128);
            let offset = if self.list() {
                LONG_LIST_OFFSET
            } else {
                LONG_STRING_OFFSET
            };
            out.push(offset + len_be.len() as u8);
            push_all(out, len_be.as_slice());
            proof {
                assert(final(out)@ =~= old(out)@ + spec_header(self.list, self.payload_length as nat));
            }
        }
    }

    /// Reads a header, requires its kind to equal `list`, and returns the
    /// payload as a borrow of the input, advancing past it.
    pub fn decode_bytes<'a>(buf: &mut &'a [u8], list: bool) -> (r: Result<&'a [u8], Error>)
        ensures
            match r {
                Ok(payload) => spec_decode_payload(old(buf)@, list) matches Ok(p) && payload@
                    == p.0 && final(buf)@ == old(buf)@.skip(p.1),
                Err(e) => spec_decode_payload(old(buf)@, list) == Err::<(Seq<u8>, int), Error>(e),
            },
    {
        let header = match Self::decode(buf) {
            Ok(h) => h,
            Err(e) => {
                return Err(e);
            },
        };
        if header.list() != list {
            return Err(
                if list {
                    Error::UnexpectedString
                } else {
                    Error::UnexpectedList
                },
            );
        }
        let payload_length = header.payload_length();
        if buf.len() < payload_length {
            return Err(Error::InputTooShort);
        }
        let ghost t = spec_header_decode(old(buf)@)->Ok_0;
        let bytes = advance_unchecked(buf, payload_length);
        proof {
            assert(bytes@ =~= old(buf)@.subrange(t.1, t.1 + t.2));
            assert(final(buf)@ =~= old(buf)@.skip(t.1 + t.2));
        }
        Ok(bytes)
    }

    /// Reads a string payload and returns it as UTF-8 text, or
    /// `UnexpectedString` if the payload is not valid UTF-8.
    pub fn decode_str<'a>(buf: &mut &'a [u8]) -> (r: Result<&'a str, Error>)
        ensures
            match r {
                Ok(s) => spec_decode_payload(old(buf)@, false) matches Ok(p)
                    && vstd::utf8::valid_utf8(p.0) && s.spec_bytes() == p.0 && final(buf)@
                    == old(buf)@.skip(p.1),
                Err(e) => match spec_decode_payload(old(buf)@, false) {
                    Ok(p) => !vstd::utf8::valid_utf8(p.0) && e == Error::UnexpectedString,
                    Err(e0) => e == e0,
                },
            },
    {
        let bytes = match Self::decode_bytes(buf, false) {
            Ok(b) => b,
            Err(e) => {
                return Err(e);
            },
        };
        str_from_utf8(bytes)
    }

    /// The number of bytes this header occupies on the wire.
    pub fn length(&self) -> (r: usize)
        ensures
            r as nat == spec_header(self.list, self.payload_length as nat).len(),
    {
        length_of_length(self.payload_length())
    }
}

/// Relies on `core::str::from_utf8`: it succeeds exactly on valid UTF-8 and
/// returns the text whose bytes are the input. The error is mapped to this
/// crate's `UnexpectedString`.
#[verifier::external_body]
fn str_from_utf8(bytes: &[u8]) -> (r: Result<&str, Error>)
    ensures
        match r {
            Ok(s) => vstd::utf8::valid_utf8(bytes@) && s.spec_bytes() == bytes@,
            Err(e) => !vstd::utf8::valid_utf8(bytes@) && e == Error::UnexpectedString,
        },
{
    core::str::from_utf8(bytes).map_err(|_| Error::UnexpectedString)
}

/// The first byte of the buffer, without consuming it.
pub fn get_next_byte(buf: &[u8]) -> (r: Result<u8, Error>)
    ensures
        match r {
            Ok(b) => buf@.len() >= 1 && b == buf@[0],
            Err(e) => buf@.len() == 0 && e == Error::InputTooShort,
        },
{
    if buf.len() >= 1 {
        Ok(buf[0])
    } else {
        Err(Error::InputTooShort)
    }
}

/// Splits off the first `cnt` bytes of the buffer, advancing it past them.
pub fn advance_unchecked<'a>(buf: &mut &'a [u8], cnt: usize) -> (r: &'a [u8])
    requires
        cnt <= old(buf)@.len(),
    ensures
        r@ == old(buf)@.take(cnt as int),
        final(buf)@ == old(buf)@.skip(cnt as int),
{
    let cur: &'a [u8] = *buf;
    let bytes = slice_subrange(cur, 0, cnt);
    *buf = slice_subrange(cur, cnt, cur.len());
    proof {
        assert(bytes@ =~= old(buf)@.take(cnt as int));
        assert(final(buf)@ =~= old(buf)@.skip(cnt as int));
    }
    bytes
}

/// The number of bytes a header for an `n`-byte payload occupies: one for
/// short form, one plus the width of `n` for long form.
pub fn length_of_length(payload_length: usize) -> (r: usize)
    ensures
        r as nat == spec_length_of_length(payload_length as nat),
{
    if payload_length <= MAX_SHORT_LEN {
        1
    } else {
        proof {
            lemma_usize_width();
            lemma_min_be_bytes_len(payload_length as nat, 8);
        }
        1 + byte_width(payload_length as u128)
    }
}

/// The platform word is at most eight bytes wide.
pub proof fn lemma_usize_width()
    ensures
        (usize::MAX as nat) < pow256(8),
{
    reveal_with_fuel(pow256, 9);
    assert((usize::MAX as nat) < pow256(8));
}

/// Appends every byte of `src` to `out`.
pub fn push_all(out: &mut Vec<u8>, src: &[u8])
    ensures
        final(out)@ == old(out)@ + src@,
{
    let mut i: usize = 0;
    proof {
        assert(out@ =~= old(out)@ + src@.take(0));
    }
    while i < src.len()
        invariant
            0 <= i <= src@.len(),
            out@ == old(out)@ + src@.take(i as int),
        decreases src@.len() - i,
    {
        out.push(src[i]);
        proof {
            assert(out@ =~= old(out)@ + src@.take(i + 1));
        }
        i = i + 1;
    }
    proof {
        assert(out@ =~= old(out)@ + src@);
    }
}

} // verus!
