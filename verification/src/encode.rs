use crate::be::{
    be_val, byte_width, lemma_min_be_bytes_len, lemma_min_be_bytes_val, min_be_bytes, pow256,
    to_be_bytes_trimmed,
};
use crate::buf::{bytes_as_slice, bytes_mut_as_slice, bytes_mut_view, bytes_view};
use crate::header::{length_of_length, push_all, spec_header, Header, EMPTY_STRING_CODE};
use vstd::arithmetic::div_mod::{lemma_basic_div, lemma_small_mod};
use vstd::prelude::*;
use vstd::string::StringSliceAdditionalSpecFns;

verus! {

/// The encoding of an atomic byte string: a single byte below `0x80` is its
/// own encoding; anything else is a string header followed by the bytes.
pub open spec fn spec_encode_bytes(s: Seq<u8>) -> Seq<u8> {
    if s.len() == 1 && s[0] < 0x80 {
        s
    } else {
        spec_header(false, s.len()) + s
    }
}

/// The encoding of an unsigned integer: its minimal big-endian bytes,
/// encoded as an atomic byte string (so zero becomes the empty string).
pub open spec fn spec_encode_uint(x: nat) -> Seq<u8> {
    spec_encode_bytes(
        if x == 0 {
            Seq::empty()
        } else {
            min_be_bytes(x)
        },
    )
}

/// A value with a canonical RLP encoding.
///
/// `rlp` is the encoding itself, as a mathematical byte sequence; `encode`
/// appends exactly those bytes and `length` counts them, so the two are
/// consistent byte for byte.
pub trait Encodable {
    /// The encoding of this value.
    spec fn rlp(&self) -> Seq<u8>;

    /// Appends the encoding of this value to `out`.
    fn encode(&self, out: &mut Vec<u8>)
        requires
            self.rlp().len() <= usize::MAX,
        ensures
            final(out)@ == old(out)@ + self.rlp(),
    ;

    /// The exact number of bytes `encode` appends.
    fn length(&self) -> (r: usize)
        requires
            self.rlp().len() <= usize::MAX,
        ensures
            r as nat == self.rlp().len(),
    {
        let mut out: Vec<u8> = Vec::new();
        self.encode(&mut out);
        proof {
            assert(out@ =~= self.rlp());
        }
        out.len()
    }
}

/// Advertises a compile-time upper bound on a type's encoded size as a
/// const generic, so callers can reserve fixed buffers. Implementers
/// guarantee the bound.
pub trait MaxEncodedLen<const LEN: usize>: Encodable {
}

/// Advertises a compile-time upper bound on a type's encoded size as an
/// associated constant. Implementers guarantee the bound.
pub trait MaxEncodedLenAssoc: Encodable {
    const LEN: usize;
}

/// Appends the encoding of an unsigned integer value.
fn encode_uint_raw(x: u128, out: &mut Vec<u8>)
    ensures
        final(out)@ == old(out)@ + spec_encode_uint(x as nat),
{
    if x == 0 {
        out.push(EMPTY_STRING_CODE);
        proof {
            assert(final(out)@ =~= old(out)@ + spec_encode_uint(0));
        }
    } else if x < 0x80 {
        out.push(x as u8);
        proof {
            lemma_basic_div(x as int, 256);
            lemma_small_mod(x as nat, 256);
            reveal_with_fuel(min_be_bytes, 2);
            assert(min_be_bytes(x as nat) =~= seq![x as u8]);
            assert(final(out)@ =~= old(out)@ + spec_encode_uint(x as nat));
        }
    } else {
        proof {
            reveal_with_fuel(pow256, 17);
            lemma_min_be_bytes_len(x as nat, 16);
            lemma_min_be_bytes_val(x as nat);
            if min_be_bytes(x as nat).len() == 1 {
                reveal_with_fuel(be_val, 2);
                let s = min_be_bytes(x as nat);
                assert(s.drop_last() =~= Seq::<u8>::empty());
                assert(s.last() == s[0]);
                assert(be_val(s) == s[0]);
            }
        }
        let be = to_be_bytes_trimmed(x);
        out.push(EMPTY_STRING_CODE + be.len() as u8);
        push_all(out, be.as_slice());
        proof {
            assert(final(out)@ =~= old(out)@ + spec_encode_uint(x as nat));
        }
    }
}

/// The number of bytes `encode_uint_raw` appends.
fn uint_rlp_length(x: u128) -> (r: usize)
    ensures
        r as nat == spec_encode_uint(x as nat).len(),
{
    if x < 0x80 {
        proof {
            if x > 0 {
                lemma_basic_div(x as int, 256);
                lemma_small_mod(x as nat, 256);
                reveal_with_fuel(min_be_bytes, 2);
                assert(min_be_bytes(x as nat) =~= seq![x as u8]);
            }
        }
        1
    } else {
        proof {
            reveal_with_fuel(pow256, 17);
            lemma_min_be_bytes_len(x as nat, 16);
            lemma_min_be_bytes_val(x as nat);
            if min_be_bytes(x as nat).len() == 1 {
                reveal_with_fuel(be_val, 2);
                let s = min_be_bytes(x as nat);
                assert(s.drop_last() =~= Seq::<u8>::empty());
                assert(s.last() == s[0]);
                assert(be_val(s) == s[0]);
            }
        }
        1 + byte_width(x)
    }
}

impl Encodable for u8 {
    open spec fn rlp(&self) -> Seq<u8> {
        spec_encode_uint(*self as nat)
    }

    fn encode(&self, out: &mut Vec<u8>) {
        encode_uint_raw(*self as u128, out)
    }

    fn length(&self) -> (r: usize) {
        uint_rlp_length(*self as u128)
    }
}

impl Encodable for u16 {
    open spec fn rlp(&self) -> Seq<u8> {
        spec_encode_uint(*self as nat)
    }

    fn encode(&self, out: &mut Vec<u8>) {
        encode_uint_raw(*self as u128, out)
    }

    fn length(&self) -> (r: usize) {
        uint_rlp_length(*self as u128)
    }
}

impl Encodable for u32 {
    open spec fn rlp(&self) -> Seq<u8> {
        spec_encode_uint(*self as nat)
    }

    fn encode(&self, out: &mut Vec<u8>) {
        encode_uint_raw(*self as u128, out)
    }

    fn length(&self) -> (r: usize) {
        uint_rlp_length(*self as u128)
    }
}

impl Encodable for u64 {
    open spec fn rlp(&self) -> Seq<u8> {
        spec_encode_uint(*self as nat)
    }

    fn encode(&self, out: &mut Vec<u8>) {
        encode_uint_raw(*self as u128, out)
    }

    fn length(&self) -> (r: usize) {
        uint_rlp_length(*self as u128)
    }
}

impl Encodable for u128 {
    open spec fn rlp(&self) -> Seq<u8> {
        spec_encode_uint(*self as nat)
    }

    fn encode(&self, out: &mut Vec<u8>) {
        encode_uint_raw(*self, out)
    }

    fn length(&self) -> (r: usize) {
        uint_rlp_length(*self)
    }
}

impl Encodable for usize {
    open spec fn rlp(&self) -> Seq<u8> {
        spec_encode_uint(*self as nat)
    }

    fn encode(&self, out: &mut Vec<u8>) {
        encode_uint_raw(*self as u128, out)
    }

    fn length(&self) -> (r: usize) {
        uint_rlp_length(*self as u128)
    }
}

impl Encodable for [u8] {
    open spec fn rlp(&self) -> Seq<u8> {
        spec_encode_bytes(self@)
    }

    fn encode(&self, out: &mut Vec<u8>) {
        if self.len() != 1 || self[0] >= EMPTY_STRING_CODE {
            Header::new(false, self.len()).encode(out);
        }
        push_all(out, self);
        proof {
            assert(final(out)@ =~= old(out)@ + self.rlp());
        }
    }

    fn length(&self) -> (r: usize) {
        let len = self.len();
        if len != 1 || self[0] >= EMPTY_STRING_CODE {
            let hl = length_of_length(len);
            hl + len
        } else {
            len
        }
    }
}

impl<const N: usize> Encodable for [u8; N] {
    open spec fn rlp(&self) -> Seq<u8> {
        spec_encode_bytes(self@)
    }

    fn encode(&self, out: &mut Vec<u8>) {
        self.as_slice().encode(out)
    }

    fn length(&self) -> (r: usize) {
        self.as_slice().length()
    }
}

impl Encodable for str {
    open spec fn rlp(&self) -> Seq<u8> {
        spec_encode_bytes(self.spec_bytes())
    }

    fn encode(&self, out: &mut Vec<u8>) {
        self.as_bytes().encode(out)
    }

    fn length(&self) -> (r: usize) {
        self.as_bytes().length()
    }
}

impl Encodable for String {
    open spec fn rlp(&self) -> Seq<u8> {
        spec_encode_bytes(vstd::utf8::encode_utf8(self@))
    }

    fn encode(&self, out: &mut Vec<u8>) {
        self.as_str().encode(out)
    }

    fn length(&self) -> (r: usize) {
        self.as_str().length()
    }
}

impl Encodable for bytes::Bytes {
    open spec fn rlp(&self) -> Seq<u8> {
        spec_encode_bytes(bytes_view(*self))
    }

    fn encode(&self, out: &mut Vec<u8>) {
        bytes_as_slice(self).encode(out)
    }

    fn length(&self) -> (r: usize) {
        bytes_as_slice(self).length()
    }
}

impl Encodable for bytes::BytesMut {
    open spec fn rlp(&self) -> Seq<u8> {
        spec_encode_bytes(bytes_mut_view(*self))
    }

    fn encode(&self, out: &mut Vec<u8>) {
        bytes_mut_as_slice(self).encode(out)
    }

    fn length(&self) -> (r: usize) {
        bytes_mut_as_slice(self).length()
    }
}

/// The concatenated encodings of a sequence of values: the payload of the
/// list that holds them.
pub open spec fn rlp_seq<T: Encodable>(items: Seq<T>) -> Seq<u8>
    decreases items.len(),
{
    if items.len() == 0 {
        Seq::empty()
    } else {
        items[0].rlp() + rlp_seq(items.skip(1))
    }
}

/// The encoding of a list whose elements are `items`.
pub open spec fn rlp_list<T: Encodable>(items: Seq<T>) -> Seq<u8> {
    spec_header(true, rlp_seq(items).len()) + rlp_seq(items)
}

/// Extending a sequence by one element appends that element's encoding to
/// the payload.
pub proof fn lemma_rlp_seq_take_succ<T: Encodable>(items: Seq<T>, i: int)
    requires
        0 <= i < items.len(),
    ensures
        rlp_seq(items.take(i + 1)) == rlp_seq(items.take(i)) + items[i].rlp(),
    decreases i,
{
    if i == 0 {
        assert(items.take(1).skip(1) =~= Seq::<T>::empty());
        assert(items.take(1)[0] == items[0]);
        assert(rlp_seq(items.take(1).skip(1)) == Seq::<u8>::empty());
        assert(rlp_seq(items.take(1)) == items[0].rlp() + Seq::<u8>::empty());
        assert(rlp_seq(items.take(0)) == Seq::<u8>::empty());
        assert(rlp_seq(items.take(1)) =~= rlp_seq(items.take(0)) + items[0].rlp());
    } else {
        let s = items.skip(1);
        lemma_rlp_seq_take_succ(s, i - 1);
        assert(items.take(i + 1).skip(1) =~= s.take(i));
        assert(items.take(i).skip(1) =~= s.take(i - 1));
        assert(items.take(i + 1)[0] == items[0]);
        assert(items.take(i)[0] == items[0]);
        assert(s.take(i)[i - 1] == items[i]);
        assert(rlp_seq(items.take(i + 1)) =~= rlp_seq(items.take(i)) + items[i].rlp());
    }
}

/// Every element's encoding fits inside the whole payload.
pub proof fn lemma_rlp_seq_bounds<T: Encodable>(items: Seq<T>, i: int)
    requires
        0 <= i < items.len(),
    ensures
        rlp_seq(items.take(i)).len() + items[i].rlp().len() <= rlp_seq(items).len(),
    decreases items.len(),
{
    lemma_rlp_seq_take_succ(items, i);
    lemma_rlp_seq_take_len(items, i + 1);
}

/// The payload of a prefix is no longer than the payload of the whole.
pub proof fn lemma_rlp_seq_take_len<T: Encodable>(items: Seq<T>, i: int)
    requires
        0 <= i <= items.len(),
    ensures
        rlp_seq(items.take(i)).len() <= rlp_seq(items).len(),
    decreases items.len() - i,
{
    if i == items.len() {
        assert(items.take(i) =~= items);
    } else {
        lemma_rlp_seq_take_succ(items, i);
        lemma_rlp_seq_take_len(items, i + 1);
    }
}

/// The header for a list with the given elements: a list header whose
/// payload length is the sum of the element encodings.
fn list_header<T: Encodable>(values: &[T]) -> (h: Header)
    requires
        rlp_seq(values@).len() <= usize::MAX,
    ensures
        h.list == true,
        h.payload_length as nat == rlp_seq(values@).len(),
{
    let mut len: usize = 0;
    let mut i: usize = 0;
    proof {
        assert(values@.take(0) =~= Seq::<T>::empty());
    }
    while i < values.len()
        invariant
            0 <= i <= values@.len(),
            rlp_seq(values@).len() <= usize::MAX,
            len as nat == rlp_seq(values@.take(i as int)).len(),
        decreases values@.len() - i,
    {
        proof {
            lemma_rlp_seq_bounds(values@, i as int);
            lemma_rlp_seq_take_succ(values@, i as int);
        }
        let l = values[i].length();
        len = len + l;
        i = i + 1;
    }
    proof {
        assert(values@.take(values@.len() as int) =~= values@);
    }
    Header::new(true, len)
}

/// Appends the encoding of a list whose elements are `values`: a list
/// header for the combined payload, then each element in order.
pub fn encode_list<T: Encodable>(values: &[T], out: &mut Vec<u8>)
    requires
        rlp_list(values@).len() <= usize::MAX,
    ensures
        final(out)@ == old(out)@ + rlp_list(values@),
{
    let h = list_header(values);
    h.encode(out);
    let ghost with_header = old(out)@ + spec_header(true, rlp_seq(values@).len());
    let mut i: usize = 0;
    proof {
        assert(values@.take(0) =~= Seq::<T>::empty());
        assert(out@ =~= with_header + rlp_seq(values@.take(0)));
    }
    while i < values.len()
        invariant
            0 <= i <= values@.len(),
            rlp_seq(values@).len() <= usize::MAX,
            with_header == old(out)@ + spec_header(true, rlp_seq(values@).len()),
            out@ == with_header + rlp_seq(values@.take(i as int)),
        decreases values@.len() - i,
    {
        proof {
            lemma_rlp_seq_bounds(values@, i as int);
            lemma_rlp_seq_take_succ(values@, i as int);
        }
        values[i].encode(out);
        proof {
            assert(out@ =~= with_header + rlp_seq(values@.take(i + 1)));
        }
        i = i + 1;
    }
    proof {
        assert(values@.take(values@.len() as int) =~= values@);
        assert(final(out)@ =~= old(out)@ + rlp_list(values@));
    }
}

/// The number of bytes `encode_list` appends for these elements.
pub fn list_length<T: Encodable>(list: &[T]) -> (r: usize)
    requires
        rlp_list(list@).len() <= usize::MAX,
    ensures
        r as nat == rlp_list(list@).len(),
{
    let h = list_header(list);
    let hl = h.length();
    h.payload_length() + hl
}

impl<T: Encodable> Encodable for Vec<T> {
    open spec fn rlp(&self) -> Seq<u8> {
        rlp_list(self@)
    }

    fn encode(&self, out: &mut Vec<u8>) {
        encode_list(self.as_slice(), out)
    }

    fn length(&self) -> (r: usize) {
        list_length(self.as_slice())
    }
}

impl<T: Encodable + ?Sized> Encodable for &T {
    open spec fn rlp(&self) -> Seq<u8> {
        (**self).rlp()
    }

    fn encode(&self, out: &mut Vec<u8>) {
        (**self).encode(out)
    }

    fn length(&self) -> (r: usize) {
        (**self).length()
    }
}

impl<T: Encodable + ?Sized> Encodable for Box<T> {
    open spec fn rlp(&self) -> Seq<u8> {
        (**self).rlp()
    }

    fn encode(&self, out: &mut Vec<u8>) {
        (**self).encode(out)
    }

    fn length(&self) -> (r: usize) {
        (**self).length()
    }
}

impl<T: Encodable + ?Sized> Encodable for std::rc::Rc<T> {
    open spec fn rlp(&self) -> Seq<u8> {
        (**self).rlp()
    }

    fn encode(&self, out: &mut Vec<u8>) {
        (**self).encode(out)
    }

    fn length(&self) -> (r: usize) {
        (**self).length()
    }
}

impl<T: Encodable + ?Sized> Encodable for std::sync::Arc<T> {
    open spec fn rlp(&self) -> Seq<u8> {
        (**self).rlp()
    }

    fn encode(&self, out: &mut Vec<u8>) {
        (**self).encode(out)
    }

    fn length(&self) -> (r: usize) {
        (**self).length()
    }
}

impl MaxEncodedLenAssoc for u8 {
    const LEN: usize = 2;
}

impl MaxEncodedLenAssoc for u16 {
    const LEN: usize = 3;
}

impl MaxEncodedLenAssoc for u32 {
    const LEN: usize = 5;
}

impl MaxEncodedLenAssoc for u64 {
    const LEN: usize = 9;
}

impl MaxEncodedLenAssoc for u128 {
    const LEN: usize = 17;
}

impl MaxEncodedLenAssoc for usize {
    const LEN: usize = 9;
}

/// The encoding of `value` in a fresh buffer, sized up front from `length`.
pub fn encode<T: Encodable>(value: T) -> (r: Vec<u8>)
    requires
        value.rlp().len() <= usize::MAX,
    ensures
        r@ == value.rlp(),
{
    let mut out: Vec<u8> = Vec::with_capacity(value.length());
    value.encode(&mut out);
    proof {
        assert(out@ =~= value.rlp());
    }
    out
}

} // verus!
