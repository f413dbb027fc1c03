use crate::be::{
    be_val, lemma_min_be_bytes_len, lemma_min_be_bytes_val, min_be_bytes, pow256,
};
use crate::decode::{
    spec_decode_exact, spec_decode_items, spec_decode_uint, spec_usize_width, Decodable,
    lemma_usize_range,
};
use crate::encode::{rlp_list, rlp_seq, spec_encode_bytes, spec_encode_uint, Encodable};
use crate::error::Error;
use crate::header::{
    lemma_usize_width, spec_decode_payload, spec_header, spec_header_decode, spec_length_of_length,
};
use vstd::prelude::*;
use vstd::utf8::{encode_utf8, encode_utf8_decode_utf8, encode_utf8_valid_utf8};

verus! {

/// Reading back a header that was written for an `n`-byte payload yields the
/// same kind and length, and consumes exactly the header. A one-byte string
/// payload must start at `0x80`, since smaller bytes are encoded bare.
pub proof fn lemma_header_round_trip(list: bool, n: nat, rest: Seq<u8>)
    requires
        n <= usize::MAX,
        rest.len() >= n,
        (n == 1 && !list) ==> rest[0] >= 0x80,
    ensures
        spec_header_decode(spec_header(list, n) + rest) == Ok::<(bool, int, int), Error>(
            (list, spec_length_of_length(n) as int, n as int),
        ),
{
    let input = spec_header(list, n) + rest;
    if n <= 55 {
        assert(input[0] == (if list {
            0xC0int
        } else {
            0x80int
        }) + n);
        if n == 1 && !list {
            assert(input[1] == rest[0]);
        }
    } else {
        lemma_min_be_bytes_val(n);
        lemma_usize_width();
        lemma_min_be_bytes_len(n, 8);
        let w = min_be_bytes(n);
        let l = w.len() as int;
        assert(input[0] == (if list {
            0xF7int
        } else {
            0xB7int
        }) + l);
        assert(input.subrange(1, 1 + l) =~= w);
        assert(input.len() - 1 - l == rest.len());
    }
}

/// Reading back a payload that was written with its header yields the
/// payload, whatever follows it.
pub proof fn lemma_decode_payload_round_trip(list: bool, payload: Seq<u8>, extra: Seq<u8>)
    requires
        payload.len() <= usize::MAX,
        (payload.len() == 1 && !list) ==> payload[0] >= 0x80,
    ensures
        spec_decode_payload(spec_header(list, payload.len()) + payload + extra, list)
            == Ok::<(Seq<u8>, int), Error>(
            (payload, spec_length_of_length(payload.len()) + payload.len() as int),
        ),
{
    let rest = payload + extra;
    if payload.len() == 1 && !list {
        assert(rest[0] == payload[0]);
    }
    lemma_header_round_trip(list, payload.len(), rest);
    let input = spec_header(list, payload.len()) + rest;
    assert(spec_header(list, payload.len()) + payload + extra =~= input);
    let c = spec_length_of_length(payload.len()) as int;
    assert(input.subrange(c, c + payload.len()) =~= payload);
}

/// The encoding of an atomic byte string is at least one byte and no shorter
/// than the string.
pub proof fn lemma_encode_bytes_len(s: Seq<u8>)
    ensures
        spec_encode_bytes(s).len() >= 1,
        spec_encode_bytes(s).len() >= s.len(),
        spec_encode_bytes(s).len() == spec_length_of_length(s.len()) + s.len() || (s.len() == 1
            && s[0] < 0x80 && spec_encode_bytes(s).len() == 1),
{
}

/// Round-trip for atomic byte strings: decoding an encoded string yields the
/// string and consumes exactly its encoding, whatever follows it.
pub proof fn lemma_encode_bytes_round_trip(s: Seq<u8>, extra: Seq<u8>)
    requires
        s.len() <= usize::MAX,
    ensures
        spec_decode_payload(spec_encode_bytes(s) + extra, false) == Ok::<(Seq<u8>, int), Error>(
            (s, spec_encode_bytes(s).len() as int),
        ),
{
    if s.len() == 1 && s[0] < 0x80 {
        let input = spec_encode_bytes(s) + extra;
        assert(input[0] == s[0]);
        assert(input.subrange(0, 1) =~= s);
    } else {
        lemma_decode_payload_round_trip(false, s, extra);
        assert(spec_encode_bytes(s) + extra =~= spec_header(false, s.len()) + s + extra);
    }
}

/// Round-trip for unsigned integers of at most `width` bytes.
pub proof fn lemma_uint_round_trip(x: nat, width: nat, extra: Seq<u8>)
    requires
        x < pow256(width),
        width <= 55,
    ensures
        spec_decode_uint(spec_encode_uint(x) + extra, width) == Ok::<(nat, int), Error>(
            (x, spec_encode_uint(x).len() as int),
        ),
{
    let payload: Seq<u8> = if x == 0 {
        Seq::empty()
    } else {
        min_be_bytes(x)
    };
    lemma_min_be_bytes_val(x);
    lemma_min_be_bytes_len(x, width);
    lemma_encode_bytes_round_trip(payload, extra);
}

/// The view sequence of every element, in order: what decoding a list is
/// expected to produce.
pub open spec fn deep_views<T: DeepView>(s: Seq<T>) -> Seq<T::V> {
    Seq::new(s.len(), |i: int| s[i].deep_view())
}

/// A codec that round-trips: every value's encoding is nonempty, and
/// decoding an encoding yields the value back (as its view) and consumes
/// exactly the encoding, whatever bytes follow it. The size bound keeps the
/// encoding within what a buffer on the platform can hold.
pub open spec fn round_trips<T: Encodable + Decodable>() -> bool {
    &&& forall|v: T| (#[trigger] v.rlp()).len() >= 1
    &&& forall|v: T, extra: Seq<u8>|
        v.rlp().len() <= usize::MAX ==> #[trigger] T::dec_spec(v.rlp() + extra) == Ok::<
            (T::V, int),
            Error,
        >((v.deep_view(), v.rlp().len() as int))
}

pub proof fn lemma_u8_round_trips()
    ensures
        round_trips::<u8>(),
{
    reveal_with_fuel(pow256, 2);
    assert forall|v: u8| (#[trigger] v.rlp()).len() >= 1 by {
        lemma_encode_bytes_len(if v == 0 {
            Seq::empty()
        } else {
            min_be_bytes(v as nat)
        });
    }
    assert forall|v: u8, extra: Seq<u8>| v.rlp().len() <= usize::MAX implies #[trigger] u8::dec_spec(
        v.rlp() + extra,
    ) == Ok::<(u8, int), Error>((v.deep_view(), v.rlp().len() as int)) by {
        lemma_uint_round_trip(v as nat, 1, extra);
    }
}

pub proof fn lemma_u16_round_trips()
    ensures
        round_trips::<u16>(),
{
    reveal_with_fuel(pow256, 3);
    assert forall|v: u16| (#[trigger] v.rlp()).len() >= 1 by {
        lemma_encode_bytes_len(if v == 0 {
            Seq::empty()
        } else {
            min_be_bytes(v as nat)
        });
    }
    assert forall|v: u16, extra: Seq<u8>| v.rlp().len()
        <= usize::MAX implies #[trigger] u16::dec_spec(v.rlp() + extra) == Ok::<(u16, int), Error>(
        (v.deep_view(), v.rlp().len() as int),
    ) by {
        lemma_uint_round_trip(v as nat, 2, extra);
    }
}

pub proof fn lemma_u32_round_trips()
    ensures
        round_trips::<u32>(),
{
    reveal_with_fuel(pow256, 5);
    assert forall|v: u32| (#[trigger] v.rlp()).len() >= 1 by {
        lemma_encode_bytes_len(if v == 0 {
            Seq::empty()
        } else {
            min_be_bytes(v as nat)
        });
    }
    assert forall|v: u32, extra: Seq<u8>| v.rlp().len()
        <= usize::MAX implies #[trigger] u32::dec_spec(v.rlp() + extra) == Ok::<(u32, int), Error>(
        (v.deep_view(), v.rlp().len() as int),
    ) by {
        lemma_uint_round_trip(v as nat, 4, extra);
    }
}

pub proof fn lemma_u64_round_trips()
    ensures
        round_trips::<u64>(),
{
    reveal_with_fuel(pow256, 9);
    assert forall|v: u64| (#[trigger] v.rlp()).len() >= 1 by {
        lemma_encode_bytes_len(if v == 0 {
            Seq::empty()
        } else {
            min_be_bytes(v as nat)
        });
    }
    assert forall|v: u64, extra: Seq<u8>| v.rlp().len()
        <= usize::MAX implies #[trigger] u64::dec_spec(v.rlp() + extra) == Ok::<(u64, int), Error>(
        (v.deep_view(), v.rlp().len() as int),
    ) by {
        lemma_uint_round_trip(v as nat, 8, extra);
    }
}

pub proof fn lemma_u128_round_trips()
    ensures
        round_trips::<u128>(),
{
    reveal_with_fuel(pow256, 17);
    assert forall|v: u128| (#[trigger] v.rlp()).len() >= 1 by {
        lemma_encode_bytes_len(if v == 0 {
            Seq::empty()
        } else {
            min_be_bytes(v as nat)
        });
    }
    assert forall|v: u128, extra: Seq<u8>| v.rlp().len()
        <= usize::MAX implies #[trigger] u128::dec_spec(v.rlp() + extra) == Ok::<
        (u128, int),
        Error,
    >((v.deep_view(), v.rlp().len() as int)) by {
        lemma_uint_round_trip(v as nat, 16, extra);
    }
}

pub proof fn lemma_usize_round_trips()
    ensures
        round_trips::<usize>(),
{
    lemma_usize_range();
    assert forall|v: usize| (#[trigger] v.rlp()).len() >= 1 by {
        lemma_encode_bytes_len(if v == 0 {
            Seq::empty()
        } else {
            min_be_bytes(v as nat)
        });
    }
    assert forall|v: usize, extra: Seq<u8>| v.rlp().len()
        <= usize::MAX implies #[trigger] usize::dec_spec(v.rlp() + extra) == Ok::<
        (usize, int),
        Error,
    >((v.deep_view(), v.rlp().len() as int)) by {
        lemma_uint_round_trip(v as nat, spec_usize_width(), extra);
    }
}

pub proof fn lemma_array_round_trips<const N: usize>()
    ensures
        round_trips::<[u8; N]>(),
{
    assert forall|v: [u8; N]| (#[trigger] v.rlp()).len() >= 1 by {
        lemma_encode_bytes_len(v@);
    }
    assert forall|v: [u8; N], extra: Seq<u8>| v.rlp().len()
        <= usize::MAX implies #[trigger] <[u8; N]>::dec_spec(v.rlp() + extra) == Ok::<
        (Seq<u8>, int),
        Error,
    >((v.deep_view(), v.rlp().len() as int)) by {
        lemma_encode_bytes_len(v@);
        lemma_encode_bytes_round_trip(v@, extra);
        assert(v.deep_view() =~= v@);
    }
}

pub proof fn lemma_string_round_trips()
    ensures
        round_trips::<String>(),
{
    assert forall|v: String| (#[trigger] v.rlp()).len() >= 1 by {
        lemma_encode_bytes_len(encode_utf8(v@));
    }
    assert forall|v: String, extra: Seq<u8>| v.rlp().len()
        <= usize::MAX implies #[trigger] String::dec_spec(v.rlp() + extra) == Ok::<
        (Seq<char>, int),
        Error,
    >((v.deep_view(), v.rlp().len() as int)) by {
        let bytes = encode_utf8(v@);
        lemma_encode_bytes_len(bytes);
        lemma_encode_bytes_round_trip(bytes, extra);
        encode_utf8_valid_utf8(v@);
        encode_utf8_decode_utf8(v@);
    }
}

/// Decoding a concatenation of element encodings yields the elements.
proof fn lemma_items_round_trip<T: Encodable + Decodable>(s: Seq<T>)
    requires
        round_trips::<T>(),
        rlp_seq(s).len() <= usize::MAX,
    ensures
        spec_decode_items::<T>(rlp_seq(s)) == Ok::<Seq<T::V>, Error>(deep_views(s)),
    decreases s.len(),
{
    if s.len() == 0 {
        assert(deep_views::<T>(s) =~= Seq::<T::V>::empty());
    } else {
        let head = s[0];
        let tail = s.skip(1);
        let p = rlp_seq(s);
        assert(p == head.rlp() + rlp_seq(tail));
        assert(T::dec_spec(head.rlp() + rlp_seq(tail)) == Ok::<(T::V, int), Error>(
            (head.deep_view(), head.rlp().len() as int),
        ));
        assert(p.skip(head.rlp().len() as int) =~= rlp_seq(tail));
        lemma_items_round_trip(tail);
        assert(seq![head.deep_view()] + deep_views(tail) =~= deep_views(s));
    }
}

/// Round-trip for lists: if the element codec round-trips, so does the list
/// codec, at any nesting depth this statement is applied to.
pub proof fn lemma_vec_round_trips<T: Encodable + Decodable>()
    requires
        round_trips::<T>(),
    ensures
        round_trips::<Vec<T>>(),
{
    assert forall|v: Vec<T>| (#[trigger] v.rlp()).len() >= 1 by {
        assert(v.rlp() == spec_header(true, rlp_seq(v@).len()) + rlp_seq(v@));
    }
    assert forall|v: Vec<T>, extra: Seq<u8>| v.rlp().len() <= usize::MAX implies #[trigger] Vec::<
        T,
    >::dec_spec(v.rlp() + extra) == Ok::<(Seq<T::V>, int), Error>(
        (v.deep_view(), v.rlp().len() as int),
    ) by {
        let payload = rlp_seq(v@);
        assert(v.rlp() == spec_header(true, payload.len()) + payload);
        lemma_decode_payload_round_trip(true, payload, extra);
        assert(spec_header(true, payload.len()) + payload + extra =~= v.rlp() + extra);
        lemma_items_round_trip(v@);
        assert(v.deep_view() =~= deep_views(v@));
    }
}

/// An item of the wrong kind is rejected: asking for a list where a string
/// stands yields `UnexpectedString`, and the other way `UnexpectedList`.
pub proof fn lemma_shape_mismatch(input: Seq<u8>, list: bool)
    ensures
        (spec_header_decode(input) matches Ok(t) && t.0 != list) ==> spec_decode_payload(
            input,
            list,
        ) == Err::<(Seq<u8>, int), Error>(
            if list {
                Error::UnexpectedString
            } else {
                Error::UnexpectedList
            },
        ),
{
}

/// A list encoding decoded as an integer is rejected with `UnexpectedList`.
pub proof fn lemma_list_as_uint_rejected<T: Encodable>(items: Seq<T>, width: nat, extra: Seq<u8>)
    requires
        rlp_list(items).len() <= usize::MAX,
    ensures
        spec_decode_uint(rlp_list(items) + extra, width) == Err::<(nat, int), Error>(
            Error::UnexpectedList,
        ),
{
    let payload = rlp_seq(items);
    lemma_header_round_trip(true, payload.len(), payload + extra);
    assert(spec_header(true, payload.len()) + (payload + extra) =~= rlp_list(items) + extra);
}

/// A string encoding decoded as a list is rejected with `UnexpectedString`.
pub proof fn lemma_string_as_list_rejected(s: Seq<u8>, extra: Seq<u8>)
    requires
        s.len() <= usize::MAX,
    ensures
        spec_decode_payload(spec_encode_bytes(s) + extra, true) == Err::<(Seq<u8>, int), Error>(
            Error::UnexpectedString,
        ),
{
    if s.len() == 1 && s[0] < 0x80 {
        let input = spec_encode_bytes(s) + extra;
        assert(input[0] == s[0]);
    } else {
        lemma_header_round_trip(false, s.len(), s + extra);
        assert(spec_header(false, s.len()) + (s + extra) =~= spec_encode_bytes(s) + extra);
    }
}

/// A single byte below `0x80` wrapped in an `0x81` prefix is rejected.
pub proof fn lemma_reject_non_canonical_single_byte(input: Seq<u8>)
    requires
        input.len() >= 2,
        input[0] == 0x81,
        input[1] < 0x80,
    ensures
        spec_header_decode(input) == Err::<(bool, int, int), Error>(
            Error::NonCanonicalSingleByte,
        ),
{
}

/// A long-form length field with a leading zero byte is rejected.
pub proof fn lemma_reject_leading_zero_length(input: Seq<u8>)
    requires
        input.len() >= 2,
        (0xB8 <= input[0] <= 0xBF) || (0xF8 <= input[0] <= 0xFF),
        input.len() - 1 >= input[0] - (if input[0] >= 0xF8 {
            0xF7int
        } else {
            0xB7int
        }),
        input[1] == 0,
    ensures
        spec_header_decode(input) == Err::<(bool, int, int), Error>(Error::LeadingZero),
{
    let list = input[0] >= 0xF8;
    let l = input[0] - (if list {
        0xF7int
    } else {
        0xB7int
    });
    assert(input.subrange(1, 1 + l)[0] == input[1]);
}

/// A one-byte long-form length that fits short form is rejected.
pub proof fn lemma_reject_non_canonical_size(input: Seq<u8>)
    requires
        input.len() >= 2,
        input[0] == 0xB8 || input[0] == 0xF8,
        0 < input[1] <= 55,
    ensures
        spec_header_decode(input) == Err::<(bool, int, int), Error>(Error::NonCanonicalSize),
{
    let w = input.subrange(1, 2);
    assert(w[0] == input[1]);
    reveal_with_fuel(be_val, 2);
    assert(w.drop_last() =~= Seq::<u8>::empty());
    assert(be_val(w) == input[1]);
    lemma_usize_width();
    crate::be::lemma_pow256_monotone(1, 8);
    reveal_with_fuel(pow256, 2);
}

/// An integer payload with a leading zero byte is rejected.
pub proof fn lemma_reject_integer_leading_zero(input: Seq<u8>, width: nat)
    ensures
        (spec_decode_payload(input, false) matches Ok(p) && 0 < p.0.len() <= width && p.0[0] == 0)
            ==> spec_decode_uint(input, width) == Err::<(nat, int), Error>(Error::LeadingZero),
{
}

/// A header read back from the input is the one its encoder writes: apart
/// from a bare single byte (which carries no header bytes), the consumed
/// prefix is exactly `spec_header` of what was read.
pub proof fn lemma_header_decode_canonical(input: Seq<u8>)
    ensures
        spec_header_decode(input) matches Ok(t) ==> {
            &&& t.1 == 0 ==> t == (false, 0int, 1int) && input[0] <= 0x7F
            &&& t.1 > 0 ==> spec_header(t.0, t.2 as nat) == input.take(t.1)
        },
{
    if spec_header_decode(input) is Ok {
        let t = spec_header_decode(input)->Ok_0;
        let b = input[0];
        if b <= 0x7F {
        } else if b <= 0xB7 || (0xC0 <= b && b <= 0xF7) {
            assert(spec_header(t.0, t.2 as nat) =~= input.take(1));
        } else {
            let w = input.subrange(1, t.1);
            crate::be::lemma_be_val_canonical(w);
            assert(spec_header(t.0, t.2 as nat) =~= input.take(t.1));
        }
    }
}

/// The decoder admits only canonical byte strings: whenever a string payload
/// is read, the bytes consumed are exactly the payload's one encoding.
pub proof fn lemma_decode_bytes_canonical(input: Seq<u8>)
    ensures
        spec_decode_payload(input, false) matches Ok(p) ==> spec_encode_bytes(p.0) == input.take(
            p.1,
        ),
{
    lemma_header_decode_canonical(input);
    if spec_decode_payload(input, false) is Ok {
        let p = spec_decode_payload(input, false)->Ok_0;
        let t = spec_header_decode(input)->Ok_0;
        if t.1 == 0 {
            assert(p.0 =~= input.take(1));
            assert(spec_encode_bytes(p.0) =~= input.take(p.1));
        } else {
            if t.2 == 1 {
                assert(input[t.1] >= 0x80);
                assert(p.0[0] == input[t.1]);
            }
            assert(spec_encode_bytes(p.0) =~= input.take(t.1) + input.subrange(t.1, t.1 + t.2));
            assert(input.take(t.1) + input.subrange(t.1, t.1 + t.2) =~= input.take(p.1));
        }
    }
}

/// The decoder admits only canonical integers: whenever an integer is read,
/// the bytes consumed are exactly that integer's one encoding.
pub proof fn lemma_decode_uint_canonical(input: Seq<u8>, width: nat)
    ensures
        spec_decode_uint(input, width) matches Ok(p) ==> spec_encode_uint(p.0) == input.take(p.1),
{
    lemma_decode_bytes_canonical(input);
    if spec_decode_uint(input, width) is Ok {
        let q = spec_decode_payload(input, false)->Ok_0;
        let s = q.0;
        if s.len() == 0 {
            assert(s =~= Seq::<u8>::empty());
        } else {
            crate::be::lemma_be_val_canonical(s);
            crate::be::lemma_be_val_lower_bound(s);
            crate::be::lemma_pow256_pos((s.len() - 1) as nat);
        }
    }
}

/// The decoder admits only canonical text: whenever a string decodes, the
/// bytes consumed are exactly the one encoding of the decoded characters.
pub proof fn lemma_decode_string_canonical(input: Seq<u8>)
    ensures
        String::dec_spec(input) matches Ok(p) ==> spec_encode_bytes(encode_utf8(p.0))
            == input.take(p.1),
{
    lemma_decode_bytes_canonical(input);
    if String::dec_spec(input) is Ok {
        let q = spec_decode_payload(input, false)->Ok_0;
        vstd::utf8::decode_utf8_encode_utf8(q.0);
    }
}

/// Decoding with trailing bytes: a strict decode rejects them with
/// `UnexpectedLength`, while a plain decode succeeds and leaves them.
pub proof fn lemma_prefix_vs_exact<T: Encodable + Decodable>(v: T, extra: Seq<u8>)
    requires
        round_trips::<T>(),
        v.rlp().len() <= usize::MAX,
    ensures
        T::dec_spec(v.rlp() + extra) == Ok::<(T::V, int), Error>(
            (v.deep_view(), v.rlp().len() as int),
        ),
        extra.len() > 0 ==> spec_decode_exact::<T>(v.rlp() + extra) == Err::<T::V, Error>(
            Error::UnexpectedLength,
        ),
        spec_decode_exact::<T>(v.rlp()) == Ok::<T::V, Error>(v.deep_view()),
{
    assert(T::dec_spec(v.rlp() + extra) == Ok::<(T::V, int), Error>(
        (v.deep_view(), v.rlp().len() as int),
    ));
    assert(v.rlp() + Seq::<u8>::empty() =~= v.rlp());
    assert(T::dec_spec(v.rlp() + Seq::<u8>::empty()) == Ok::<(T::V, int), Error>(
        (v.deep_view(), v.rlp().len() as int),
    ));
}

/// Encoding is deterministic: the bytes an encode appends are a function of
/// the value alone, whatever the sink already held.
pub proof fn lemma_encode_deterministic<T: Encodable>(v: &T, out1: Seq<u8>, out2: Seq<u8>)
    ensures
        (out1 + v.rlp()).skip(out1.len() as int) == (out2 + v.rlp()).skip(out2.len() as int),
{
    assert((out1 + v.rlp()).skip(out1.len() as int) =~= v.rlp());
    assert((out2 + v.rlp()).skip(out2.len() as int) =~= v.rlp());
}

/// What `encode` appends is exactly as many bytes as `length` reports: both
/// sides of the contract speak of the value's one encoding.
pub proof fn lemma_length_consistent<T: Encodable>(v: &T, out: Seq<u8>)
    ensures
        (out + v.rlp()).len() == out.len() + v.rlp().len(),
{
}

} // verus!
