//! The fixed-capacity string type itself.

use vstd::prelude::*;
use vstd::string::StringSliceAdditionalSpecFns;
use vstd::utf8::decode_last_scalar;
use vstd::utf8::decode_utf8;
use vstd::utf8::encode_scalar;
use vstd::utf8::is_char_boundary;
use vstd::utf8::length_of_last_scalar;
use vstd::utf8::valid_utf8;
use crate::convert::byte_is_cont;
use crate::convert::decode_scalar_at;
use crate::convert::encode_char;
use crate::convert::last_char_start;
use crate::convert::lemma_decode_concat;
use crate::convert::lemma_encode_single;
use crate::convert::lemma_last_scalar;
use crate::convert::lemma_trunc_len_props;
use crate::convert::trunc_len;
use crate::convert::utf8_prefix_fitting;
use crate::convert::validate_utf8;
use crate::error::StringError;

verus! {

broadcast use vstd::utf8::group_utf8_lib;

/// Concatenates three byte slices into a fresh vector.
fn splice_bytes(a: &[u8], b: &[u8], c: &[u8]) -> (v: Vec<u8>)
    ensures
        v@ == a@ + b@ + c@,
{
    let mut v = vstd::slice::slice_to_vec(a);
    extend_bytes(&mut v, b);
    extend_bytes(&mut v, c);
    v
}

/// Copies the bytes of a slice onto the end of a vector.
fn extend_bytes(v: &mut Vec<u8>, s: &[u8])
    ensures
        final(v)@ == old(v)@ + s@,
{
    let mut t = vstd::slice::slice_to_vec(s);
    v.append(&mut t);
}

/// Relies on `core::str::from_utf8`: on bytes that are valid UTF-8 it returns
/// `Ok` with a string slice borrowing exactly those bytes.
#[verifier::external_body]
fn bytes_as_str(v: &[u8]) -> (r: &str)
    requires
        vstd::utf8::valid_utf8(v@),
    ensures
        r.spec_bytes() == v@,
{
    match core::str::from_utf8(v) {
        Ok(s) => s,
        Err(_) => "",
    }
}

/// A UTF-8 string holding at most `N` bytes.
///
/// The abstract value of a `StaticString<N>` is its byte content, `self@`,
/// a sequence of at most `N` bytes that is always a valid UTF-8 encoding:
/// every constructor establishes [`StaticString::wf`] and every operation
/// preserves it, so it holds in every reachable state.
pub struct StaticString<const N: usize> {
    vec: Vec<u8>,
}

impl<const N: usize> View for StaticString<N> {
    type V = Seq<u8>;

    closed spec fn view(&self) -> Seq<u8> {
        self.vec@
    }
}

impl<const N: usize> StaticString<N> {
    /// The invariant of the type: the content is valid UTF-8 and fits the
    /// capacity.
    pub open spec fn wf(&self) -> bool {
        vstd::utf8::valid_utf8(self@) && self@.len() <= N
    }

    /// The content read as a sequence of characters.
    pub open spec fn chars(&self) -> Seq<char> {
        vstd::utf8::decode_utf8(self@)
    }

    /// Creates an empty string.
    pub fn new() -> (r: Self)
        ensures
            r.wf(),
            r@ == Seq::<u8>::empty(),
    {
        let v: Vec<u8> = Vec::new();
        assert(v@ =~= Seq::<u8>::empty());
        StaticString { vec: v }
    }

    /// The current length in bytes.
    pub fn len(&self) -> (r: usize)
        ensures
            r == self@.len(),
    {
        self.vec.len()
    }

    /// The fixed capacity `N` in bytes.
    pub fn capacity(&self) -> (r: usize)
        ensures
            r == N,
    {
        N
    }

    /// True when the string holds no bytes.
    pub fn is_empty(&self) -> (r: bool)
        ensures
            r == (self@.len() == 0),
    {
        self.vec.len() == 0
    }

    /// Empties the string.  The result does not depend on the previous
    /// content, so clearing twice is the same as clearing once.
    pub fn clear(&mut self)
        ensures
            final(self).wf(),
            final(self)@ == Seq::<u8>::empty(),
    {
        self.vec.clear();
        assert(self.vec@ =~= Seq::<u8>::empty());
    }

    /// Borrows the content as a string slice.
    pub fn as_str(&self) -> (r: &str)
        requires
            self.wf(),
        ensures
            r.spec_bytes() == self@,
            r@ == self.chars(),
    {
        let r = bytes_as_str(self.vec.as_slice());
        proof {
            vstd::utf8::decode_utf8_encode_utf8(self@);
            vstd::utf8::encode_utf8_decode_utf8(r@);
        }
        r
    }

    /// Borrows the content as raw bytes.
    pub fn as_bytes(&self) -> (r: &[u8])
        ensures
            r@ == self@,
    {
        self.vec.as_slice()
    }

    /// Builds a string from a string slice, failing when it does not fit.
    pub fn try_from_str(s: &str) -> (r: Result<Self, StringError>)
        ensures
            s.spec_bytes().len() <= N <==> r is Ok,
            r matches Ok(t) ==> t.wf() && t@ == s.spec_bytes() && t.chars() == s@,
            r matches Err(e) ==> e == StringError::CapacityOverflow,
    {
        let b = s.as_bytes();
        if b.len() <= N {
            let v = vstd::slice::slice_to_vec(b);
            proof {
                vstd::utf8::encode_utf8_valid_utf8(s@);
                vstd::utf8::encode_utf8_decode_utf8(s@);
            }
            Ok(StaticString { vec: v })
        } else {
            Err(StringError::CapacityOverflow)
        }
    }

    /// Builds a string from a string slice, keeping the longest prefix that
    /// ends on a character boundary and fits the capacity.
    pub fn from_str(s: &str) -> (r: Self)
        ensures
            r.wf(),
            r@ == s.spec_bytes().subrange(0, trunc_len(s.spec_bytes(), N as int)),
    {
        let b = s.as_bytes();
        proof {
            vstd::utf8::encode_utf8_valid_utf8(s@);
        }
        let k = utf8_prefix_fitting(b, N);
        proof {
            lemma_trunc_len_props(b@, N as int);
            vstd::utf8::valid_utf8_split(b@, k as int);
        }
        let v = vstd::slice::slice_to_vec(vstd::slice::slice_subrange(b, 0, k));
        StaticString { vec: v }
    }

    /// Builds a string from candidate UTF-8 bytes, failing when they are not
    /// valid UTF-8 or do not fit.
    pub fn try_from_utf8(b: &[u8]) -> (r: Result<Self, StringError>)
        ensures
            r is Ok <==> valid_utf8(b@) && b@.len() <= N,
            r matches Ok(t) ==> t.wf() && t@ == b@,
            !valid_utf8(b@) ==> (r matches Err(e) && e matches StringError::Utf8Invalid {
                valid_up_to,
            } && valid_utf8(b@.subrange(0, valid_up_to as int)) && valid_up_to < b@.len()),
            valid_utf8(b@) && b@.len() > N ==> (r matches Err(e) && e
                == StringError::CapacityOverflow),
    {
        match validate_utf8(b) {
            Err(valid_up_to) => Err(StringError::Utf8Invalid { valid_up_to }),
            Ok(()) => {
                if b.len() <= N {
                    Ok(StaticString { vec: vstd::slice::slice_to_vec(b) })
                } else {
                    Err(StringError::CapacityOverflow)
                }
            },
        }
    }

    /// Builds a string from candidate UTF-8 bytes, truncating them at the
    /// last character boundary that fits the capacity.
    ///
    /// Input that is not entirely valid UTF-8 is rejected outright, even
    /// where a valid prefix exists: only capacity is handled by truncation.
    pub fn from_utf8(b: &[u8]) -> (r: Result<Self, StringError>)
        ensures
            r is Ok <==> valid_utf8(b@),
            r matches Ok(t) ==> t.wf() && t@ == b@.subrange(0, trunc_len(b@, N as int)),
            !valid_utf8(b@) ==> (r matches Err(e) && e matches StringError::Utf8Invalid {
                valid_up_to,
            } && valid_utf8(b@.subrange(0, valid_up_to as int)) && valid_up_to < b@.len()),
    {
        match validate_utf8(b) {
            Err(valid_up_to) => Err(StringError::Utf8Invalid { valid_up_to }),
            Ok(()) => {
                let k = utf8_prefix_fitting(b, N);
                proof {
                    lemma_trunc_len_props(b@, N as int);
                    vstd::utf8::valid_utf8_split(b@, k as int);
                }
                Ok(StaticString { vec: vstd::slice::slice_to_vec(vstd::slice::slice_subrange(b, 0, k)) })
            },
        }
    }

    /// Builds a string from bytes the caller guarantees to be valid UTF-8 and
    /// within capacity.
    pub fn from_utf8_unchecked(b: &[u8]) -> (r: Self)
        requires
            valid_utf8(b@),
            b@.len() <= N,
        ensures
            r.wf(),
            r@ == b@,
    {
        StaticString { vec: vstd::slice::slice_to_vec(b) }
    }

    /// Builds a string from a slice of characters, failing when their full
    /// encoding does not fit.
    pub fn try_from_chars(chars: &[char]) -> (r: Result<Self, StringError>)
        ensures
            r is Ok <==> vstd::utf8::encode_utf8(chars@).len() <= N,
            r matches Ok(t) ==> t.wf() && t@ == vstd::utf8::encode_utf8(chars@),
            r matches Err(e) ==> e == StringError::CapacityOverflow,
    {
        let mut t = Self::new();
        let n = chars.len();
        let mut i: usize = 0;
        proof {
            assert(chars@.take(0) =~= Seq::<char>::empty());
            assert(vstd::utf8::encode_utf8(Seq::<char>::empty()) =~= Seq::<u8>::empty());
        }
        while i < n
            invariant
                n == chars@.len(),
                0 <= i <= n,
                t.wf(),
                t@ == vstd::utf8::encode_utf8(chars@.take(i as int)),
            decreases n - i,
        {
            let c = chars[i];
            proof {
                assert(chars@.take(i + 1) =~= chars@.take(i as int) + seq![c]);
                crate::convert::lemma_encode_concat(chars@.take(i as int), seq![c]);
                lemma_encode_single(c);
                crate::convert::lemma_encode_concat(chars@.take(i + 1), chars@.skip(i + 1));
                assert(chars@.take(i + 1) + chars@.skip(i + 1) =~= chars@);
            }
            match t.try_push(c) {
                Ok(()) => {
                },
                Err(_) => {
                    return Err(StringError::CapacityOverflow);
                },
            }
            i = i + 1;
        }
        proof {
            assert(chars@.take(n as int) =~= chars@);
        }
        Ok(t)
    }

    /// Builds a string from a slice of characters, stopping before the first
    /// character whose full encoding would overflow the capacity.
    pub fn from_chars(chars: &[char]) -> (r: Self)
        ensures
            r.wf(),
            r@ == vstd::utf8::encode_utf8(
                chars@.take(crate::convert::take_fit(chars@, N as int)),
            ),
    {
        let mut t = Self::new();
        let n = chars.len();
        let mut i: usize = 0;
        proof {
            assert(chars@.take(0) =~= Seq::<char>::empty());
            assert(vstd::utf8::encode_utf8(Seq::<char>::empty()) =~= Seq::<u8>::empty());
            assert(chars@.skip(0) =~= chars@);
        }
        while i < n
            invariant
                n == chars@.len(),
                0 <= i <= n,
                t.wf(),
                t@ == vstd::utf8::encode_utf8(chars@.take(i as int)),
                crate::convert::take_fit(chars@, N as int) == i + crate::convert::take_fit(
                    chars@.skip(i as int),
                    N - t@.len(),
                ),
            decreases n - i,
        {
            let c = chars[i];
            proof {
                assert(chars@.skip(i as int)[0] == c);
                assert(chars@.skip(i as int).drop_first() =~= chars@.skip(i + 1));
                assert(chars@.take(i + 1) =~= chars@.take(i as int) + seq![c]);
                crate::convert::lemma_encode_concat(chars@.take(i as int), seq![c]);
                lemma_encode_single(c);
            }
            match t.try_push(c) {
                Ok(()) => {
                },
                Err(_) => {
                    proof {
                        assert(crate::convert::take_fit(chars@.skip(i as int), N - t@.len())
                            == 0);
                        assert(crate::convert::take_fit(chars@, N as int) == i);
                    }
                    return t;
                },
            }
            i = i + 1;
        }
        proof {
            assert(chars@.skip(n as int) =~= Seq::<char>::empty());
            assert(crate::convert::take_fit(Seq::<char>::empty(), N - t@.len()) == 0);
            assert(chars@.take(n as int) =~= chars@);
            assert(chars@.take(crate::convert::take_fit(chars@, N as int)) =~= chars@);
        }
        t
    }

    /// Builds a string by concatenating string slices, failing when the whole
    /// concatenation does not fit.
    pub fn try_from_iterator(items: &[&str]) -> (r: Result<Self, StringError>)
        ensures
            r is Ok <==> crate::convert::concat_bytes(Self::items_bytes(items@)).len() <= N,
            r matches Ok(t) ==> t.wf() && t@ == crate::convert::concat_bytes(
                Self::items_bytes(items@),
            ),
            r matches Err(e) ==> e == StringError::CapacityOverflow,
    {
        let ghost ib = Self::items_bytes(items@);
        let mut t = Self::new();
        let n = items.len();
        let mut i: usize = 0;
        proof {
            assert(ib.take(0) =~= Seq::<Seq<u8>>::empty());
            assert(crate::convert::concat_bytes(ib.take(0)) =~= Seq::<u8>::empty());
        }
        while i < n
            invariant
                n == items@.len(),
                ib == Self::items_bytes(items@),
                ib.len() == n,
                0 <= i <= n,
                t.wf(),
                t@ == crate::convert::concat_bytes(ib.take(i as int)),
            decreases n - i,
        {
            let s = items[i];
            proof {
                assert(ib[i as int] == s.spec_bytes());
                assert(ib.take(i + 1) =~= ib.take(i as int).push(s.spec_bytes()));
                crate::convert::lemma_concat_bytes_snoc(ib.take(i as int), s.spec_bytes());
                crate::convert::lemma_concat_bytes_split(ib, i as int);
                assert(ib.skip(i as int)[0] == ib[i as int]);
                assert(ib.skip(i as int).drop_first() =~= ib.skip(i + 1));
                assert(crate::convert::concat_bytes(ib.skip(i as int)) == ib[i as int]
                    + crate::convert::concat_bytes(ib.skip(i + 1)));
            }
            match t.try_push_str(s) {
                Ok(()) => {
                },
                Err(_) => {
                    return Err(StringError::CapacityOverflow);
                },
            }
            i = i + 1;
        }
        proof {
            assert(ib.take(n as int) =~= ib);
        }
        Ok(t)
    }

    /// Builds a string by appending each string slice in turn, truncating
    /// each at the last character boundary that still fits.
    pub fn from_iterator(items: &[&str]) -> (r: Self)
        ensures
            r.wf(),
            r@ == crate::convert::concat_trunc(Self::items_bytes(items@), N as int),
    {
        let ghost ib = Self::items_bytes(items@);
        let mut t = Self::new();
        let n = items.len();
        let mut i: usize = 0;
        proof {
            assert(ib.take(0) =~= Seq::<Seq<u8>>::empty());
            assert(crate::convert::concat_trunc(ib.take(0), N as int) =~= Seq::<u8>::empty());
        }
        while i < n
            invariant
                n == items@.len(),
                ib == Self::items_bytes(items@),
                ib.len() == n,
                0 <= i <= n,
                t.wf(),
                t@ == crate::convert::concat_trunc(ib.take(i as int), N as int),
            decreases n - i,
        {
            let s = items[i];
            proof {
                assert(ib[i as int] == s.spec_bytes());
                assert(ib.take(i + 1).drop_last() =~= ib.take(i as int));
                assert(ib.take(i + 1).last() == s.spec_bytes());
            }
            t.push_str(s);
            i = i + 1;
        }
        proof {
            assert(ib.take(n as int) =~= ib);
        }
        t
    }

    /// Builds a string from UTF-16 code units, failing on an unpaired or
    /// invalid surrogate or when the decoded text does not fit.
    pub fn try_from_utf16(units: &[u16]) -> (r: Result<Self, StringError>)
        ensures
            r is Ok <==> crate::utf16::utf16_valid(units@) && vstd::utf8::encode_utf8(
                crate::utf16::utf16_decode(units@),
            ).len() <= N,
            r matches Ok(t) ==> t.wf() && t@ == vstd::utf8::encode_utf8(
                crate::utf16::utf16_decode(units@),
            ),
            !crate::utf16::utf16_valid(units@) ==> (r matches Err(e) && e
                == StringError::Utf16Invalid),
            crate::utf16::utf16_valid(units@) && vstd::utf8::encode_utf8(
                crate::utf16::utf16_decode(units@),
            ).len() > N ==> (r matches Err(e) && e == StringError::CapacityOverflow),
    {
        match crate::utf16::decode_utf16(units) {
            Err(e) => Err(e),
            Ok(v) => Self::try_from_chars(v.as_slice()),
        }
    }

    /// Builds a string from UTF-16 code units, failing on an unpaired or
    /// invalid surrogate and stopping before the first decoded character
    /// that would overflow the capacity.
    pub fn from_utf16(units: &[u16]) -> (r: Result<Self, StringError>)
        ensures
            r is Ok <==> crate::utf16::utf16_valid(units@),
            r matches Ok(t) ==> t.wf() && t@ == vstd::utf8::encode_utf8(
                crate::utf16::utf16_decode(units@).take(
                    crate::convert::take_fit(crate::utf16::utf16_decode(units@), N as int),
                ),
            ),
            r matches Err(e) ==> e == StringError::Utf16Invalid,
    {
        match crate::utf16::decode_utf16(units) {
            Err(e) => Err(e),
            Ok(v) => Ok(Self::from_chars(v.as_slice())),
        }
    }

    /// Builds a string from UTF-16 code units, substituting the replacement
    /// character for invalid units and stopping before the first decoded
    /// character that would overflow the capacity.
    pub fn from_utf16_lossy(units: &[u16]) -> (r: Self)
        ensures
            r.wf(),
            r@ == vstd::utf8::encode_utf8(
                crate::utf16::utf16_decode_lossy(units@).take(
                    crate::convert::take_fit(crate::utf16::utf16_decode_lossy(units@), N as int),
                ),
            ),
    {
        let v = crate::utf16::decode_utf16_lossy(units);
        Self::from_chars(v.as_slice())
    }

    /// The byte strings of a sequence of string slices.
    pub open spec fn items_bytes(items: Seq<&str>) -> Seq<Seq<u8>> {
        Seq::new(items.len(), |i: int| items[i].spec_bytes())
    }

    /// Appends a string slice, failing when the whole slice does not fit.
    pub fn try_push_str(&mut self, s: &str) -> (r: Result<(), StringError>)
        requires
            old(self).wf(),
        ensures
            final(self).wf(),
            old(self)@.len() + s.spec_bytes().len() <= N <==> r is Ok,
            r is Ok ==> final(self)@ == old(self)@ + s.spec_bytes(),
            r matches Err(e) ==> e == StringError::CapacityOverflow && final(self)@ == old(self)@,
    {
        let b = s.as_bytes();
        if b.len() <= N - self.vec.len() {
            proof {
                vstd::utf8::encode_utf8_valid_utf8(s@);
            }
            extend_bytes(&mut self.vec, b);
            Ok(())
        } else {
            Err(StringError::CapacityOverflow)
        }
    }

    /// Appends the longest boundary-aligned prefix of a string slice that
    /// fits the remaining capacity.
    pub fn push_str(&mut self, s: &str)
        requires
            old(self).wf(),
        ensures
            final(self).wf(),
            final(self)@ == old(self)@ + s.spec_bytes().subrange(
                0,
                trunc_len(s.spec_bytes(), N - old(self)@.len()),
            ),
    {
        let b = s.as_bytes();
        proof {
            vstd::utf8::encode_utf8_valid_utf8(s@);
        }
        let k = utf8_prefix_fitting(b, N - self.vec.len());
        proof {
            lemma_trunc_len_props(b@, N - self@.len());
            vstd::utf8::valid_utf8_split(b@, k as int);
        }
        extend_bytes(&mut self.vec, vstd::slice::slice_subrange(b, 0, k));
    }

    /// Appends one character, failing when its encoding does not fit.
    pub fn try_push(&mut self, c: char) -> (r: Result<(), StringError>)
        requires
            old(self).wf(),
        ensures
            final(self).wf(),
            old(self)@.len() + encode_scalar(c as u32).len() <= N <==> r is Ok,
            r is Ok ==> final(self)@ == old(self)@ + encode_scalar(c as u32),
            r matches Err(e) ==> e == StringError::CapacityOverflow && final(self)@ == old(self)@,
    {
        let mut e = encode_char(c);
        proof {
            lemma_encode_single(c);
        }
        if e.len() <= N - self.vec.len() {
            self.vec.append(&mut e);
            Ok(())
        } else {
            Err(StringError::CapacityOverflow)
        }
    }

    /// Appends one character whose encoding the caller guarantees to fit.
    pub fn push_unchecked(&mut self, c: char)
        requires
            old(self).wf(),
            old(self)@.len() + encode_scalar(c as u32).len() <= N,
        ensures
            final(self).wf(),
            final(self)@ == old(self)@ + encode_scalar(c as u32),
    {
        let mut e = encode_char(c);
        proof {
            lemma_encode_single(c);
        }
        self.vec.append(&mut e);
    }

    /// Shortens the string to `new_len` bytes; a `new_len` of at least the
    /// current length leaves it unchanged.
    pub fn truncate(&mut self, new_len: usize) -> (r: Result<(), StringError>)
        requires
            old(self).wf(),
        ensures
            final(self).wf(),
            new_len >= old(self)@.len() ==> r is Ok && final(self)@ == old(self)@,
            new_len < old(self)@.len() ==> {
                &&& (r is Ok <==> is_char_boundary(old(self)@, new_len as int))
                &&& (r is Ok ==> final(self)@ == old(self)@.subrange(0, new_len as int))
                &&& (r matches Err(e) ==> e == StringError::NotCharBoundary && final(self)@
                    == old(self)@)
            },
    {
        if new_len >= self.vec.len() {
            return Ok(());
        }
        proof {
            vstd::utf8::is_char_boundary_iff_not_is_continuation_byte(self@, new_len as int);
        }
        if byte_is_cont(self.vec[new_len]) {
            return Err(StringError::NotCharBoundary);
        }
        proof {
            vstd::utf8::valid_utf8_split(self@, new_len as int);
        }
        self.vec.truncate(new_len);
        Ok(())
    }

    /// Removes and returns the last character, or `None` on an empty string.
    pub fn pop(&mut self) -> (r: Option<char>)
        requires
            old(self).wf(),
        ensures
            final(self).wf(),
            old(self)@.len() == 0 ==> r is None && final(self)@ == old(self)@,
            old(self)@.len() > 0 ==> (r matches Some(c) && {
                &&& c as u32 == decode_last_scalar(old(self)@)
                &&& final(self)@ == old(self)@.subrange(
                    0,
                    old(self)@.len() - length_of_last_scalar(old(self)@),
                )
                &&& old(self)@ == final(self)@ + encode_scalar(c as u32)
                &&& old(self).chars() == final(self).chars() + seq![c]
            }),
    {
        if self.vec.len() == 0 {
            return None;
        }
        let j = last_char_start(self.vec.as_slice());
        let (c, _w) = decode_scalar_at(self.vec.as_slice(), j);
        proof {
            lemma_last_scalar(self@, j as int);
            vstd::utf8::valid_utf8_split(self@, j as int);
            let tail = self@.subrange(j as int, self@.len() as int);
            assert(vstd::utf8::take_first_scalar(tail) =~= tail);
            assert(self@.subrange(0, j as int) + tail =~= self@);
            vstd::utf8::char_u32_cast(c, decode_last_scalar(self@));
            assert(seq![decode_last_scalar(self@) as char] =~= seq![c]);
            assert(decode_utf8(self@.subrange(0, j as int)) + seq![c] =~= decode_utf8(self@));
        }
        self.vec.truncate(j);
        Some(c)
    }

    /// Splits the string at `at`, returning the tail as a new instance and
    /// keeping the head in place.
    pub fn split_off(&mut self, at: usize) -> (r: Result<Self, StringError>)
        requires
            old(self).wf(),
        ensures
            final(self).wf(),
            at > old(self)@.len() ==> (r matches Err(e) && e == StringError::OutOfBounds
                && final(self)@ == old(self)@),
            at <= old(self)@.len() && !is_char_boundary(old(self)@, at as int) ==> (r matches Err(e)
                && e == StringError::NotCharBoundary && final(self)@ == old(self)@),
            at <= old(self)@.len() && is_char_boundary(old(self)@, at as int) ==> (r matches Ok(t)
                && t.wf() && t@ == old(self)@.subrange(at as int, old(self)@.len() as int)
                && final(self)@ == old(self)@.subrange(0, at as int)),
    {
        let n = self.vec.len();
        if at > n {
            return Err(StringError::OutOfBounds);
        }
        proof {
            if at < self@.len() {
                vstd::utf8::is_char_boundary_iff_not_is_continuation_byte(self@, at as int);
            }
        }
        if at < n && byte_is_cont(self.vec[at]) {
            return Err(StringError::NotCharBoundary);
        }
        proof {
            vstd::utf8::valid_utf8_split(self@, at as int);
        }
        let tail = vstd::slice::slice_to_vec(vstd::slice::slice_subrange(self.vec.as_slice(), at, n));
        self.vec.truncate(at);
        Ok(StaticString { vec: tail })
    }

    /// Removes and returns the character starting at byte index `idx`,
    /// shifting the tail left.
    pub fn remove(&mut self, idx: usize) -> (r: Result<char, StringError>)
        requires
            old(self).wf(),
        ensures
            final(self).wf(),
            idx >= old(self)@.len() ==> (r matches Err(e) && e == StringError::OutOfBounds
                && final(self)@ == old(self)@),
            idx < old(self)@.len() && !is_char_boundary(old(self)@, idx as int) ==> (r matches Err(
                e,
            ) && e == StringError::NotCharBoundary && final(self)@ == old(self)@),
            idx < old(self)@.len() && is_char_boundary(old(self)@, idx as int) ==> (r matches Ok(c)
                && {
                let tail = old(self)@.subrange(idx as int, old(self)@.len() as int);
                &&& c as u32 == vstd::utf8::decode_first_scalar(tail)
                &&& encode_scalar(c as u32) == vstd::utf8::take_first_scalar(tail)
                &&& final(self)@ == old(self)@.subrange(0, idx as int) + old(self)@.subrange(
                    idx + vstd::utf8::length_of_first_scalar(tail),
                    old(self)@.len() as int,
                )
            }),
    {
        let n = self.vec.len();
        if idx >= n {
            return Err(StringError::OutOfBounds);
        }
        proof {
            vstd::utf8::is_char_boundary_iff_not_is_continuation_byte(self@, idx as int);
        }
        if byte_is_cont(self.vec[idx]) {
            return Err(StringError::NotCharBoundary);
        }
        let (c, w) = decode_scalar_at(self.vec.as_slice(), idx);
        proof {
            vstd::utf8::valid_utf8_split(self@, idx as int);
            let tail = self@.subrange(idx as int, self@.len() as int);
            assert(valid_utf8(tail));
            assert(vstd::utf8::pop_first_scalar(tail) =~= self@.subrange(
                idx + w,
                self@.len() as int,
            ));
            assert(valid_utf8(vstd::utf8::pop_first_scalar(tail)));
            vstd::utf8::valid_utf8_concat(
                self@.subrange(0, idx as int),
                self@.subrange(idx + w, self@.len() as int),
            );
        }
        let mut v = vstd::slice::slice_to_vec(
            vstd::slice::slice_subrange(self.vec.as_slice(), 0, idx),
        );
        extend_bytes(&mut v, vstd::slice::slice_subrange(self.vec.as_slice(), idx + w, n));
        self.vec = v;
        Ok(c)
    }

    /// Inserts one character at byte index `idx`, failing on a bad index, a
    /// split encoding, or an overfull buffer.
    pub fn try_insert(&mut self, idx: usize, c: char) -> (r: Result<(), StringError>)
        requires
            old(self).wf(),
        ensures
            final(self).wf(),
            idx > old(self)@.len() ==> (r matches Err(e) && e == StringError::OutOfBounds
                && final(self)@ == old(self)@),
            idx <= old(self)@.len() && !is_char_boundary(old(self)@, idx as int) ==> (r matches Err(
                e,
            ) && e == StringError::NotCharBoundary && final(self)@ == old(self)@),
            idx <= old(self)@.len() && is_char_boundary(old(self)@, idx as int) ==> {
                &&& (r is Ok <==> old(self)@.len() + encode_scalar(c as u32).len() <= N)
                &&& (r is Ok ==> final(self)@ == old(self)@.subrange(0, idx as int)
                    + encode_scalar(c as u32) + old(self)@.subrange(
                    idx as int,
                    old(self)@.len() as int,
                ))
                &&& (r matches Err(e) ==> e == StringError::CapacityOverflow && final(self)@
                    == old(self)@)
            },
    {
        let n = self.vec.len();
        if idx > n {
            return Err(StringError::OutOfBounds);
        }
        proof {
            if idx < self@.len() {
                vstd::utf8::is_char_boundary_iff_not_is_continuation_byte(self@, idx as int);
            }
        }
        if idx < n && byte_is_cont(self.vec[idx]) {
            return Err(StringError::NotCharBoundary);
        }
        let e = encode_char(c);
        proof {
            lemma_encode_single(c);
        }
        if e.len() > N - n {
            return Err(StringError::CapacityOverflow);
        }
        proof {
            vstd::utf8::valid_utf8_split(self@, idx as int);
            crate::convert::lemma_valid_concat3(
                self@.subrange(0, idx as int),
                encode_scalar(c as u32),
                self@.subrange(idx as int, self@.len() as int),
            );
        }
        let v = splice_bytes(
            vstd::slice::slice_subrange(self.vec.as_slice(), 0, idx),
            e.as_slice(),
            vstd::slice::slice_subrange(self.vec.as_slice(), idx, n),
        );
        self.vec = v;
        Ok(())
    }

    /// Inserts one character at an index the caller guarantees to be a
    /// boundary, with room for its encoding.
    pub fn insert_unchecked(&mut self, idx: usize, c: char)
        requires
            old(self).wf(),
            idx <= old(self)@.len(),
            is_char_boundary(old(self)@, idx as int),
            old(self)@.len() + encode_scalar(c as u32).len() <= N,
        ensures
            final(self).wf(),
            final(self)@ == old(self)@.subrange(0, idx as int) + encode_scalar(c as u32)
                + old(self)@.subrange(idx as int, old(self)@.len() as int),
    {
        let n = self.vec.len();
        let e = encode_char(c);
        proof {
            lemma_encode_single(c);
            vstd::utf8::valid_utf8_split(self@, idx as int);
            crate::convert::lemma_valid_concat3(
                self@.subrange(0, idx as int),
                encode_scalar(c as u32),
                self@.subrange(idx as int, self@.len() as int),
            );
        }
        let v = splice_bytes(
            vstd::slice::slice_subrange(self.vec.as_slice(), 0, idx),
            e.as_slice(),
            vstd::slice::slice_subrange(self.vec.as_slice(), idx, n),
        );
        self.vec = v;
    }

    /// Inserts a string slice at byte index `idx`, failing on a bad index, a
    /// split encoding, or an overfull buffer.
    pub fn try_insert_str(&mut self, idx: usize, s: &str) -> (r: Result<(), StringError>)
        requires
            old(self).wf(),
        ensures
            final(self).wf(),
            idx > old(self)@.len() ==> (r matches Err(e) && e == StringError::OutOfBounds
                && final(self)@ == old(self)@),
            idx <= old(self)@.len() && !is_char_boundary(old(self)@, idx as int) ==> (r matches Err(
                e,
            ) && e == StringError::NotCharBoundary && final(self)@ == old(self)@),
            idx <= old(self)@.len() && is_char_boundary(old(self)@, idx as int) ==> {
                &&& (r is Ok <==> old(self)@.len() + s.spec_bytes().len() <= N)
                &&& (r is Ok ==> final(self)@ == old(self)@.subrange(0, idx as int)
                    + s.spec_bytes() + old(self)@.subrange(idx as int, old(self)@.len() as int))
                &&& (r matches Err(e) ==> e == StringError::CapacityOverflow && final(self)@
                    == old(self)@)
            },
    {
        let n = self.vec.len();
        if idx > n {
            return Err(StringError::OutOfBounds);
        }
        proof {
            if idx < self@.len() {
                vstd::utf8::is_char_boundary_iff_not_is_continuation_byte(self@, idx as int);
            }
        }
        if idx < n && byte_is_cont(self.vec[idx]) {
            return Err(StringError::NotCharBoundary);
        }
        let b = s.as_bytes();
        if b.len() > N - n {
            return Err(StringError::CapacityOverflow);
        }
        proof {
            vstd::utf8::encode_utf8_valid_utf8(s@);
            vstd::utf8::valid_utf8_split(self@, idx as int);
            crate::convert::lemma_valid_concat3(
                self@.subrange(0, idx as int),
                s.spec_bytes(),
                self@.subrange(idx as int, self@.len() as int),
            );
        }
        let v = splice_bytes(
            vstd::slice::slice_subrange(self.vec.as_slice(), 0, idx),
            b,
            vstd::slice::slice_subrange(self.vec.as_slice(), idx, n),
        );
        self.vec = v;
        Ok(())
    }

    /// Inserts a string slice at byte index `idx`, truncating it at the last
    /// character boundary that fits the remaining capacity.
    pub fn insert_str(&mut self, idx: usize, s: &str) -> (r: Result<(), StringError>)
        requires
            old(self).wf(),
        ensures
            final(self).wf(),
            idx > old(self)@.len() ==> (r matches Err(e) && e == StringError::OutOfBounds
                && final(self)@ == old(self)@),
            idx <= old(self)@.len() && !is_char_boundary(old(self)@, idx as int) ==> (r matches Err(
                e,
            ) && e == StringError::NotCharBoundary && final(self)@ == old(self)@),
            idx <= old(self)@.len() && is_char_boundary(old(self)@, idx as int) ==> r is Ok
                && final(self)@ == old(self)@.subrange(0, idx as int) + s.spec_bytes().subrange(
                0,
                trunc_len(s.spec_bytes(), N - old(self)@.len()),
            ) + old(self)@.subrange(idx as int, old(self)@.len() as int),
    {
        let n = self.vec.len();
        if idx > n {
            return Err(StringError::OutOfBounds);
        }
        proof {
            if idx < self@.len() {
                vstd::utf8::is_char_boundary_iff_not_is_continuation_byte(self@, idx as int);
            }
        }
        if idx < n && byte_is_cont(self.vec[idx]) {
            return Err(StringError::NotCharBoundary);
        }
        let b = s.as_bytes();
        proof {
            vstd::utf8::encode_utf8_valid_utf8(s@);
        }
        let k = utf8_prefix_fitting(b, N - n);
        proof {
            lemma_trunc_len_props(b@, N - self@.len());
            vstd::utf8::valid_utf8_split(b@, k as int);
            vstd::utf8::valid_utf8_split(self@, idx as int);
            crate::convert::lemma_valid_concat3(
                self@.subrange(0, idx as int),
                b@.subrange(0, k as int),
                self@.subrange(idx as int, self@.len() as int),
            );
        }
        let v = splice_bytes(
            vstd::slice::slice_subrange(self.vec.as_slice(), 0, idx),
            vstd::slice::slice_subrange(b, 0, k),
            vstd::slice::slice_subrange(self.vec.as_slice(), idx, n),
        );
        self.vec = v;
        Ok(())
    }

    /// Inserts a string slice at an index the caller guarantees to be a
    /// boundary, with room for the whole slice.
    pub fn insert_str_unchecked(&mut self, idx: usize, s: &str)
        requires
            old(self).wf(),
            idx <= old(self)@.len(),
            is_char_boundary(old(self)@, idx as int),
            old(self)@.len() + s.spec_bytes().len() <= N,
        ensures
            final(self).wf(),
            final(self)@ == old(self)@.subrange(0, idx as int) + s.spec_bytes()
                + old(self)@.subrange(idx as int, old(self)@.len() as int),
    {
        let n = self.vec.len();
        let b = s.as_bytes();
        proof {
            vstd::utf8::encode_utf8_valid_utf8(s@);
            vstd::utf8::valid_utf8_split(self@, idx as int);
            crate::convert::lemma_valid_concat3(
                self@.subrange(0, idx as int),
                s.spec_bytes(),
                self@.subrange(idx as int, self@.len() as int),
            );
        }
        let v = splice_bytes(
            vstd::slice::slice_subrange(self.vec.as_slice(), 0, idx),
            b,
            vstd::slice::slice_subrange(self.vec.as_slice(), idx, n),
        );
        self.vec = v;
    }

    /// Removes leading and trailing white space in place.
    pub fn trim(&mut self)
        requires
            old(self).wf(),
        ensures
            final(self).wf(),
            final(self).chars() == crate::convert::trim_chars(old(self).chars()),
            final(self)@ == vstd::utf8::encode_utf8(
                crate::convert::trim_chars(decode_utf8(old(self)@)),
            ),
    {
        let ghost orig = self.chars();
        let mut done = false;
        while !done
            invariant
                self.wf(),
                crate::convert::trim_end_chars(orig) == crate::convert::trim_end_chars(
                    self.chars(),
                ),
                done ==> self@.len() == 0 || !crate::convert::is_ws(self.chars().last()),
            decreases self@.len(), (if done {
                0int
            } else {
                1int
            }),
        {
            if self.vec.len() == 0 {
                done = true;
            } else {
                let j = last_char_start(self.vec.as_slice());
                let (c, _w) = decode_scalar_at(self.vec.as_slice(), j);
                proof {
                    lemma_last_scalar(self@, j as int);
                    vstd::utf8::char_u32_cast(c, decode_last_scalar(self@));
                    assert(seq![decode_last_scalar(self@) as char] =~= seq![c]);
                    assert(self.chars() == decode_utf8(self@.subrange(0, j as int)) + seq![c]);
                    assert(self.chars().last() == c);
                    vstd::utf8::valid_utf8_split(self@, j as int);
                }
                if crate::convert::char_is_ws(c) {
                    proof {
                        crate::convert::lemma_trim_end_step(self.chars());
                        assert(self.chars().drop_last() =~= decode_utf8(
                            self@.subrange(0, j as int),
                        ));
                    }
                    self.vec.truncate(j);
                } else {
                    done = true;
                }
            }
        }
        proof {
            crate::convert::lemma_trim_end_step(self.chars());
            assert(crate::convert::trim_end_chars(orig) == self.chars());
        }
        let ghost mid = self.chars();
        let n = self.vec.len();
        let mut off: usize = 0;
        let mut done2 = false;
        proof {
            assert(self@.subrange(0, self@.len() as int) =~= self@);
        }
        while !done2
            invariant
                self.wf(),
                n == self@.len(),
                mid == self.chars(),
                0 <= off <= self@.len(),
                is_char_boundary(self@, off as int),
                crate::convert::trim_start_chars(mid) == crate::convert::trim_start_chars(
                    decode_utf8(self@.subrange(off as int, self@.len() as int)),
                ),
                done2 ==> off == self@.len() || !crate::convert::is_ws(
                    decode_utf8(self@.subrange(off as int, self@.len() as int))[0],
                ),
            decreases self@.len() - off, (if done2 {
                0int
            } else {
                1int
            }),
        {
            if off >= n {
                done2 = true;
            } else {
                let (c, w) = decode_scalar_at(self.vec.as_slice(), off);
                let ghost tail = self@.subrange(off as int, self@.len() as int);
                proof {
                    vstd::utf8::valid_utf8_split(self@, off as int);
                    assert(valid_utf8(tail));
                    vstd::utf8::char_u32_cast(c, vstd::utf8::decode_first_scalar(tail));
                    assert(decode_utf8(tail) == seq![vstd::utf8::decode_first_scalar(tail) as char]
                        + decode_utf8(vstd::utf8::pop_first_scalar(tail)));
                    assert(decode_utf8(tail)[0] == c);
                }
                if crate::convert::char_is_ws(c) {
                    proof {
                        crate::convert::lemma_trim_start_step(decode_utf8(tail));
                        assert(vstd::utf8::pop_first_scalar(tail) =~= self@.subrange(
                            off + w,
                            self@.len() as int,
                        ));
                        assert(decode_utf8(tail).drop_first() =~= decode_utf8(
                            self@.subrange(off + w, self@.len() as int),
                        ));
                        let pop = vstd::utf8::pop_first_scalar(tail);
                        assert(valid_utf8(pop));
                        if pop.len() == 0 {
                            vstd::utf8::is_char_boundary_start_end_of_seq(self@);
                            assert(off + w == self@.len());
                        } else {
                            assert(vstd::utf8::valid_first_scalar(pop));
                            assert(!vstd::utf8::is_continuation_byte(self@[off + w]));
                            vstd::utf8::is_char_boundary_iff_not_is_continuation_byte(
                                self@,
                                off + w,
                            );
                        }
                    }
                    off = off + w;
                } else {
                    done2 = true;
                }
            }
        }
        proof {
            crate::convert::lemma_trim_start_step(
                decode_utf8(self@.subrange(off as int, self@.len() as int)),
            );
            vstd::utf8::valid_utf8_split(self@, off as int);
        }
        let v = vstd::slice::slice_to_vec(
            vstd::slice::slice_subrange(self.vec.as_slice(), off, n),
        );
        self.vec = v;
        proof {
            assert(self.chars() == crate::convert::trim_chars(orig));
            vstd::utf8::decode_utf8_encode_utf8(self@);
        }
    }

    /// Keeps only the characters satisfying the predicate, preserving their
    /// order and compacting in place.  The `keep` sequence witnesses the
    /// predicate's verdict on each original character.
    pub fn retain<F: Fn(char) -> bool>(&mut self, f: F)
        requires
            old(self).wf(),
            forall|c: char| #[trigger] call_requires(f, (c,)),
        ensures
            final(self).wf(),
            exists|keep: Seq<bool>|
                {
                    &&& keep.len() == old(self).chars().len()
                    &&& #[trigger] crate::convert::mask_filter(old(self).chars(), keep)
                        == final(self).chars()
                    &&& forall|i: int|
                        0 <= i < keep.len() ==> call_ensures(f, (old(self).chars()[i],), keep[i])
                },
    {
        let ghost cs = self.chars();
        let mut out: Vec<u8> = Vec::new();
        let ghost mut keep: Seq<bool> = Seq::empty();
        let ghost mut j: int = 0;
        let mut off: usize = 0;
        let n = self.vec.len();
        proof {
            assert(self@.subrange(0, self@.len() as int) =~= self@);
            assert(cs.skip(0) =~= cs);
            assert(cs.take(0) =~= Seq::<char>::empty());
            assert(decode_utf8(out@) =~= Seq::<char>::empty());
        }
        while off < n
            invariant
                self.wf(),
                n == self@.len(),
                cs == self.chars(),
                0 <= off <= self@.len(),
                is_char_boundary(self@, off as int),
                0 <= j <= cs.len(),
                keep.len() == j,
                decode_utf8(self@.subrange(off as int, self@.len() as int)) == cs.skip(j),
                valid_utf8(out@),
                out@.len() <= off,
                decode_utf8(out@) == crate::convert::mask_filter(cs.take(j), keep),
                forall|i: int| 0 <= i < j ==> call_ensures(f, (cs[i],), keep[i]),
                forall|c: char| #[trigger] call_requires(f, (c,)),
            decreases self@.len() - off,
        {
            let (c, w) = decode_scalar_at(self.vec.as_slice(), off);
            let ghost tail = self@.subrange(off as int, self@.len() as int);
            proof {
                vstd::utf8::valid_utf8_split(self@, off as int);
                assert(valid_utf8(tail));
                vstd::utf8::char_u32_cast(c, vstd::utf8::decode_first_scalar(tail));
                assert(decode_utf8(tail) == seq![vstd::utf8::decode_first_scalar(tail) as char]
                    + decode_utf8(vstd::utf8::pop_first_scalar(tail)));
                assert(cs.skip(j)[0] == cs[j]);
                assert(c == cs[j]);
                assert(vstd::utf8::pop_first_scalar(tail) =~= self@.subrange(
                    off + w,
                    self@.len() as int,
                ));
                assert(decode_utf8(tail).drop_first() =~= decode_utf8(
                    self@.subrange(off + w, self@.len() as int),
                ));
                assert(cs.skip(j).drop_first() =~= cs.skip(j + 1));
                let pop = vstd::utf8::pop_first_scalar(tail);
                assert(valid_utf8(pop));
                if pop.len() == 0 {
                    vstd::utf8::is_char_boundary_start_end_of_seq(self@);
                } else {
                    assert(vstd::utf8::valid_first_scalar(pop));
                    assert(!vstd::utf8::is_continuation_byte(self@[off + w]));
                    vstd::utf8::is_char_boundary_iff_not_is_continuation_byte(self@, off + w);
                }
            }
            let t = f(c);
            proof {
                assert(cs.take(j + 1) =~= cs.take(j).push(cs[j]));
                crate::convert::lemma_mask_filter_snoc(cs.take(j), keep, c, t);
            }
            if t {
                let ghost out_before = out@;
                extend_bytes(
                    &mut out,
                    vstd::slice::slice_subrange(self.vec.as_slice(), off, off + w),
                );
                proof {
                    assert(self@.subrange(off as int, off + w) =~= vstd::utf8::take_first_scalar(
                        tail,
                    ));
                    assert(out@ == out_before + encode_scalar(c as u32));
                    lemma_encode_single(c);
                    lemma_decode_concat(out_before, encode_scalar(c as u32));
                    assert(decode_utf8(out@) =~= decode_utf8(out_before) + seq![c]);
                    assert(crate::convert::mask_filter(cs.take(j), keep) + seq![c]
                        =~= crate::convert::mask_filter(cs.take(j + 1), keep.push(t)));
                }
            } else {
                proof {
                    assert(crate::convert::mask_filter(cs.take(j), keep) + Seq::<char>::empty()
                        =~= crate::convert::mask_filter(cs.take(j), keep));
                }
            }
            proof {
                keep = keep.push(t);
                j = j + 1;
            }
            off = off + w;
        }
        proof {
            assert(cs.skip(j).len() == cs.len() - j);
            assert(decode_utf8(self@.subrange(off as int, self@.len() as int)) =~= Seq::<
                char,
            >::empty());
            assert(j == cs.len());
            assert(cs.take(j) =~= cs);
        }
        self.vec = out;
        proof {
            assert(crate::convert::mask_filter(cs, keep) == self.chars());
        }
    }

    /// Replaces the byte range `start..end` with a string slice, shifting the
    /// tail as needed.
    pub fn replace_range(&mut self, start: usize, end: usize, s: &str) -> (r: Result<
        (),
        StringError,
    >)
        requires
            old(self).wf(),
        ensures
            final(self).wf(),
            start > end || end > old(self)@.len() ==> (r matches Err(e) && e
                == StringError::OutOfBounds && final(self)@ == old(self)@),
            start <= end <= old(self)@.len() && (!is_char_boundary(old(self)@, start as int)
                || !is_char_boundary(old(self)@, end as int)) ==> (r matches Err(e) && e
                == StringError::NotCharBoundary && final(self)@ == old(self)@),
            start <= end <= old(self)@.len() && is_char_boundary(old(self)@, start as int)
                && is_char_boundary(old(self)@, end as int) ==> {
                &&& (r is Ok <==> old(self)@.len() - (end - start) + s.spec_bytes().len() <= N)
                &&& (r is Ok ==> final(self)@ == old(self)@.subrange(0, start as int)
                    + s.spec_bytes() + old(self)@.subrange(end as int, old(self)@.len() as int))
                &&& (r matches Err(e) ==> e == StringError::CapacityOverflow && final(self)@
                    == old(self)@)
            },
    {
        let n = self.vec.len();
        if start > end || end > n {
            return Err(StringError::OutOfBounds);
        }
        proof {
            if start < self@.len() {
                vstd::utf8::is_char_boundary_iff_not_is_continuation_byte(self@, start as int);
            }
            if end < self@.len() {
                vstd::utf8::is_char_boundary_iff_not_is_continuation_byte(self@, end as int);
            }
        }
        if start < n && byte_is_cont(self.vec[start]) {
            return Err(StringError::NotCharBoundary);
        }
        if end < n && byte_is_cont(self.vec[end]) {
            return Err(StringError::NotCharBoundary);
        }
        let b = s.as_bytes();
        if b.len() > N - (n - (end - start)) {
            return Err(StringError::CapacityOverflow);
        }
        proof {
            vstd::utf8::encode_utf8_valid_utf8(s@);
            vstd::utf8::valid_utf8_split(self@, start as int);
            vstd::utf8::valid_utf8_split(self@, end as int);
            crate::convert::lemma_valid_concat3(
                self@.subrange(0, start as int),
                s.spec_bytes(),
                self@.subrange(end as int, self@.len() as int),
            );
        }
        let v = splice_bytes(
            vstd::slice::slice_subrange(self.vec.as_slice(), 0, start),
            b,
            vstd::slice::slice_subrange(self.vec.as_slice(), end, n),
        );
        self.vec = v;
        Ok(())
    }
}

} // verus!
