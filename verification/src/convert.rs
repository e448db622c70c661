//! Encoding converters: UTF-8 validation, character encoding and decoding,
//! and boundary-aligned truncation.

use vstd::prelude::*;
use vstd::utf8::*;

verus! {

broadcast use vstd::utf8::group_utf8_lib;

/// The longest prefix of `bytes` that ends on a character boundary and is at
/// most `cap` bytes long, measured in bytes.
pub open spec fn trunc_len(bytes: Seq<u8>, cap: int) -> int
    decreases cap,
{
    if cap <= 0 {
        0
    } else if cap >= bytes.len() {
        bytes.len() as int
    } else if is_char_boundary(bytes, cap) {
        cap
    } else {
        trunc_len(bytes, cap - 1)
    }
}

/// Truncation never splits a multi-byte encoding: `trunc_len` is the largest
/// boundary-aligned length that is at most `min(cap, bytes.len())`.
pub proof fn lemma_trunc_len_props(bytes: Seq<u8>, cap: int)
    requires
        valid_utf8(bytes),
        0 <= cap,
    ensures
        0 <= trunc_len(bytes, cap) <= cap,
        trunc_len(bytes, cap) <= bytes.len(),
        cap >= bytes.len() ==> trunc_len(bytes, cap) == bytes.len(),
        is_char_boundary(bytes, trunc_len(bytes, cap)),
        forall|j: int|
            trunc_len(bytes, cap) < j <= cap && j <= bytes.len() ==> !is_char_boundary(bytes, j),
    decreases cap,
{
    if cap >= bytes.len() {
    } else if is_char_boundary(bytes, cap) {
    } else if cap == 0 {
    } else {
        lemma_trunc_len_props(bytes, cap - 1);
    }
}

/// When the whole input fits, truncation keeps all of it: a truncating
/// operation agrees with the unbounded one on inputs within capacity.
pub proof fn lemma_trunc_len_fits(bytes: Seq<u8>, cap: int)
    requires
        valid_utf8(bytes),
        bytes.len() <= cap,
    ensures
        trunc_len(bytes, cap) == bytes.len(),
        bytes.subrange(0, trunc_len(bytes, cap)) == bytes,
{
    assert(bytes.subrange(0, bytes.len() as int) =~= bytes);
}

/// True when the byte has the form `10xxxxxx` of a UTF-8 continuation byte.
pub fn byte_is_cont(b: u8) -> (r: bool)
    ensures
        r == is_continuation_byte(b),
{
    0x80 <= b && b <= 0xbf
}

/// Largest boundary-aligned length of `bytes` that is at most `cap`,
/// computed by stepping back from `cap` over continuation bytes.
pub fn utf8_prefix_fitting(bytes: &[u8], cap: usize) -> (r: usize)
    requires
        valid_utf8(bytes@),
    ensures
        r == trunc_len(bytes@, cap as int),
{
    if cap >= bytes.len() {
        return bytes.len();
    }
    let mut i: usize = cap;
    while i > 0 && byte_is_cont(bytes[i])
        invariant
            valid_utf8(bytes@),
            0 <= i <= cap < bytes@.len(),
            trunc_len(bytes@, cap as int) == trunc_len(bytes@, i as int),
        decreases i,
    {
        proof {
            is_char_boundary_iff_not_is_continuation_byte(bytes@, i as int);
        }
        i = i - 1;
    }
    proof {
        if i > 0 {
            is_char_boundary_iff_not_is_continuation_byte(bytes@, i as int);
            assert(trunc_len(bytes@, i as int) == i);
        }
    }
    i
}

/// Scans a byte slice and reports whether it is entirely valid UTF-8;
/// `Err(i)` carries the length of the longest valid prefix.
pub fn validate_utf8(bytes: &[u8]) -> (r: Result<(), usize>)
    ensures
        r is Ok <==> valid_utf8(bytes@),
        r matches Err(i) ==> {
            &&& i < bytes@.len()
            &&& valid_utf8(bytes@.subrange(0, i as int))
            &&& !valid_first_scalar(bytes@.subrange(i as int, bytes@.len() as int))
        },
{
    let n = bytes.len();
    let mut i: usize = 0;
    while i < n
        invariant
            n == bytes@.len(),
            0 <= i <= n,
            partial_valid_utf8(bytes@, i as int),
        decreases n - i,
    {
        let ghost rest = bytes@.subrange(i as int, n as int);
        proof {
            assert(rest[0] == bytes@[i as int]);
        }
        let b0 = bytes[i];
        if b0 <= 0x7f {
            proof {
                assert(valid_first_scalar(rest));
                partial_valid_utf8_extend(bytes@, i as int);
            }
            i = i + 1;
        } else if b0 < 0xc0 {
            proof {
                lemma_invalid_here(bytes@, i as int);
            }
            return Err(i);
        } else if b0 <= 0xdf {
            if n - i < 2 || !byte_is_cont(bytes[i + 1]) {
                proof {
                    lemma_invalid_here(bytes@, i as int);
                }
                return Err(i);
            }
            let b1 = bytes[i + 1];
            proof {
                assert(rest.len() >= 2 && rest[1] == b1);
            }
            let cp: u32 = (((b0 & 0x1f) as u32) << 6) | ((b1 & 0x3f) as u32);
            proof {
                assert(cp == codepoint_width_2(b0, b1));
            }
            if cp < 0x80 {
                proof {
                    lemma_invalid_here(bytes@, i as int);
                }
                return Err(i);
            }
            proof {
                assert(cp <= 0x7ff) by (bit_vector)
                    requires
                        cp == (((b0 & 0x1f) as u32) << 6) | ((b1 & 0x3f) as u32),
                ;
                assert(valid_first_scalar(rest));
                partial_valid_utf8_extend(bytes@, i as int);
            }
            i = i + 2;
        } else if b0 <= 0xef {
            if n - i < 3 || !byte_is_cont(bytes[i + 1]) || !byte_is_cont(bytes[i + 2]) {
                proof {
                    lemma_invalid_here(bytes@, i as int);
                }
                return Err(i);
            }
            let b1 = bytes[i + 1];
            let b2 = bytes[i + 2];
            proof {
                assert(rest.len() >= 3 && rest[1] == b1 && rest[2] == b2);
            }
            let cp: u32 = (((b0 & 0x0f) as u32) << 12) | (((b1 & 0x3f) as u32) << 6) | ((b2
                & 0x3f) as u32);
            proof {
                assert(cp == codepoint_width_3(b0, b1, b2));
            }
            if cp < 0x800 || (0xd800 <= cp && cp <= 0xdfff) {
                proof {
                    lemma_invalid_here(bytes@, i as int);
                }
                return Err(i);
            }
            proof {
                assert(valid_first_scalar(rest));
                partial_valid_utf8_extend(bytes@, i as int);
            }
            i = i + 3;
        } else if b0 <= 0xf7 {
            if n - i < 4 || !byte_is_cont(bytes[i + 1]) || !byte_is_cont(bytes[i + 2])
                || !byte_is_cont(bytes[i + 3]) {
                proof {
                    lemma_invalid_here(bytes@, i as int);
                }
                return Err(i);
            }
            let b1 = bytes[i + 1];
            let b2 = bytes[i + 2];
            let b3 = bytes[i + 3];
            proof {
                assert(rest.len() >= 4 && rest[1] == b1 && rest[2] == b2 && rest[3] == b3);
            }
            let cp: u32 = (((b0 & 0x07) as u32) << 18) | (((b1 & 0x3f) as u32) << 12) | (((b2
                & 0x3f) as u32) << 6) | ((b3 & 0x3f) as u32);
            proof {
                assert(cp == codepoint_width_4(b0, b1, b2, b3));
            }
            if cp < 0x10000 || cp > 0x10ffff {
                proof {
                    lemma_invalid_here(bytes@, i as int);
                }
                return Err(i);
            }
            proof {
                assert(valid_first_scalar(rest));
                partial_valid_utf8_extend(bytes@, i as int);
            }
            i = i + 4;
        } else {
            proof {
                lemma_invalid_here(bytes@, i as int);
            }
            return Err(i);
        }
    }
    proof {
        assert(bytes@.subrange(0, n as int) =~= bytes@);
    }
    Ok(())
}

/// The characters the Unicode standard marks as white space.
pub open spec fn is_ws(c: char) -> bool {
    ||| c == ' '
    ||| ('\u{9}' <= c && c <= '\u{D}')
    ||| c == '\u{85}'
    ||| c == '\u{A0}'
    ||| c == '\u{1680}'
    ||| ('\u{2000}' <= c && c <= '\u{200A}')
    ||| c == '\u{2028}'
    ||| c == '\u{2029}'
    ||| c == '\u{202F}'
    ||| c == '\u{205F}'
    ||| c == '\u{3000}'
}

/// True when the character is white space.
pub fn char_is_ws(c: char) -> (r: bool)
    ensures
        r == is_ws(c),
{
    c == ' ' || ('\u{9}' <= c && c <= '\u{D}') || c == '\u{85}' || c == '\u{A0}' || c == '\u{1680}'
        || ('\u{2000}' <= c && c <= '\u{200A}') || c == '\u{2028}' || c == '\u{2029}' || c
        == '\u{202F}' || c == '\u{205F}' || c == '\u{3000}'
}

/// How many leading white-space characters the sequence has.
pub open spec fn ws_start_len(cs: Seq<char>) -> int
    decreases cs.len(),
{
    if cs.len() > 0 && is_ws(cs[0]) {
        1 + ws_start_len(cs.drop_first())
    } else {
        0
    }
}

/// How many trailing white-space characters the sequence has.
pub open spec fn ws_end_len(cs: Seq<char>) -> int
    decreases cs.len(),
{
    if cs.len() > 0 && is_ws(cs.last()) {
        1 + ws_end_len(cs.drop_last())
    } else {
        0
    }
}

/// The sequence without its leading white space.
pub open spec fn trim_start_chars(cs: Seq<char>) -> Seq<char> {
    cs.subrange(ws_start_len(cs), cs.len() as int)
}

/// The sequence without its trailing white space.
pub open spec fn trim_end_chars(cs: Seq<char>) -> Seq<char> {
    cs.subrange(0, cs.len() - ws_end_len(cs))
}

/// The sequence without its leading and trailing white space.
pub open spec fn trim_chars(cs: Seq<char>) -> Seq<char> {
    trim_start_chars(trim_end_chars(cs))
}

/// The count of leading white-space characters is within bounds.
pub proof fn lemma_ws_start_len_bounds(cs: Seq<char>)
    ensures
        0 <= ws_start_len(cs) <= cs.len(),
    decreases cs.len(),
{
    if cs.len() > 0 && is_ws(cs[0]) {
        lemma_ws_start_len_bounds(cs.drop_first());
    }
}

/// The count of trailing white-space characters is within bounds.
pub proof fn lemma_ws_end_len_bounds(cs: Seq<char>)
    ensures
        0 <= ws_end_len(cs) <= cs.len(),
    decreases cs.len(),
{
    if cs.len() > 0 && is_ws(cs.last()) {
        lemma_ws_end_len_bounds(cs.drop_last());
    }
}

/// Dropping a white-space last character does not change the trimmed tail;
/// a sequence whose last character is not white space is already trimmed at
/// the end.
pub proof fn lemma_trim_end_step(cs: Seq<char>)
    ensures
        cs.len() > 0 && is_ws(cs.last()) ==> trim_end_chars(cs) == trim_end_chars(cs.drop_last()),
        cs.len() == 0 || !is_ws(cs.last()) ==> trim_end_chars(cs) == cs,
{
    if cs.len() > 0 && is_ws(cs.last()) {
        lemma_ws_end_len_bounds(cs.drop_last());
        assert(trim_end_chars(cs) =~= trim_end_chars(cs.drop_last()));
    } else {
        assert(trim_end_chars(cs) =~= cs);
    }
}

/// Dropping a white-space first character does not change the trimmed head;
/// a sequence whose first character is not white space is already trimmed at
/// the start.
pub proof fn lemma_trim_start_step(cs: Seq<char>)
    ensures
        cs.len() > 0 && is_ws(cs[0]) ==> trim_start_chars(cs) == trim_start_chars(cs.drop_first()),
        cs.len() == 0 || !is_ws(cs[0]) ==> trim_start_chars(cs) == cs,
{
    if cs.len() > 0 && is_ws(cs[0]) {
        lemma_ws_start_len_bounds(cs.drop_first());
        assert(trim_start_chars(cs) =~= trim_start_chars(cs.drop_first()));
    } else {
        assert(trim_start_chars(cs) =~= cs);
    }
}

/// A trimmed sequence does not start with white space.
proof fn lemma_trim_start_first(cs: Seq<char>)
    ensures
        trim_start_chars(cs).len() > 0 ==> !is_ws(trim_start_chars(cs)[0]),
    decreases cs.len(),
{
    lemma_ws_start_len_bounds(cs);
    if cs.len() > 0 && is_ws(cs[0]) {
        lemma_trim_start_first(cs.drop_first());
        lemma_trim_start_step(cs);
    }
}

/// A sequence trimmed at the end does not end with white space.
proof fn lemma_trim_end_last(cs: Seq<char>)
    ensures
        trim_end_chars(cs).len() > 0 ==> !is_ws(trim_end_chars(cs).last()),
    decreases cs.len(),
{
    lemma_ws_end_len_bounds(cs);
    if cs.len() > 0 && is_ws(cs.last()) {
        lemma_trim_end_last(cs.drop_last());
        lemma_trim_end_step(cs);
    }
}

/// Trimming is idempotent: trimming an already trimmed sequence changes
/// nothing.
pub proof fn lemma_trim_idempotent(cs: Seq<char>)
    ensures
        trim_chars(trim_chars(cs)) == trim_chars(cs),
{
    let e = trim_end_chars(cs);
    let d = trim_chars(cs);
    lemma_ws_end_len_bounds(cs);
    lemma_ws_start_len_bounds(e);
    lemma_trim_end_last(cs);
    lemma_trim_start_first(e);
    if d.len() > 0 {
        assert(d.last() == e.last());
        assert(!is_ws(d.last()));
        assert(!is_ws(d[0]));
    }
    lemma_trim_end_step(d);
    lemma_trim_start_step(d);
    assert(trim_chars(d) =~= d);
}

/// How many leading characters fit within `cap` bytes once encoded; a
/// character that does not fit stops the count.
pub open spec fn take_fit(cs: Seq<char>, cap: int) -> int
    decreases cs.len(),
{
    if cs.len() == 0 {
        0
    } else if encode_scalar(cs[0] as u32).len() <= cap {
        1 + take_fit(cs.drop_first(), cap - encode_scalar(cs[0] as u32).len())
    } else {
        0
    }
}

/// The count of fitting characters is within bounds.
pub proof fn lemma_take_fit_bounds(cs: Seq<char>, cap: int)
    ensures
        0 <= take_fit(cs, cap) <= cs.len(),
    decreases cs.len(),
{
    if cs.len() > 0 && encode_scalar(cs[0] as u32).len() <= cap {
        lemma_take_fit_bounds(cs.drop_first(), cap - encode_scalar(cs[0] as u32).len());
    }
}

/// When the whole sequence encodes within `cap` bytes, every character fits:
/// a truncating construction agrees with the unbounded one on inputs within
/// capacity.
pub proof fn lemma_take_fit_fits(cs: Seq<char>, cap: int)
    requires
        encode_utf8(cs).len() <= cap,
    ensures
        take_fit(cs, cap) == cs.len(),
        cs.take(take_fit(cs, cap)) == cs,
    decreases cs.len(),
{
    if cs.len() > 0 {
        lemma_take_fit_fits(cs.drop_first(), cap - encode_scalar(cs[0] as u32).len());
    }
    assert(cs.take(cs.len() as int) =~= cs);
}

/// The concatenation of a sequence of byte strings.
pub open spec fn concat_bytes(items: Seq<Seq<u8>>) -> Seq<u8>
    decreases items.len(),
{
    if items.len() == 0 {
        Seq::empty()
    } else {
        items[0] + concat_bytes(items.drop_first())
    }
}

/// Concatenating one more byte string appends it at the end.
pub proof fn lemma_concat_bytes_snoc(items: Seq<Seq<u8>>, x: Seq<u8>)
    ensures
        concat_bytes(items.push(x)) == concat_bytes(items) + x,
    decreases items.len(),
{
    if items.len() == 0 {
        assert(items.push(x).drop_first() =~= Seq::<Seq<u8>>::empty());
        assert(concat_bytes(Seq::<Seq<u8>>::empty()) == Seq::<u8>::empty());
        assert(items.push(x)[0] == x);
        assert(concat_bytes(items.push(x)) =~= concat_bytes(items) + x);
    } else {
        assert(items.push(x).drop_first() =~= items.drop_first().push(x));
        lemma_concat_bytes_snoc(items.drop_first(), x);
        assert(items.push(x)[0] == items[0]);
        assert(items[0] + (concat_bytes(items.drop_first()) + x) =~= (items[0] + concat_bytes(
            items.drop_first(),
        )) + x);
        assert(concat_bytes(items.push(x)) =~= concat_bytes(items) + x);
    }
}

/// Concatenation splits at any index.
pub proof fn lemma_concat_bytes_split(items: Seq<Seq<u8>>, i: int)
    requires
        0 <= i <= items.len(),
    ensures
        concat_bytes(items) == concat_bytes(items.take(i)) + concat_bytes(items.skip(i)),
    decreases i,
{
    if i == 0 {
        assert(items.take(0) =~= Seq::<Seq<u8>>::empty());
        assert(items.skip(0) =~= items);
        assert(concat_bytes(items.take(0)) == Seq::<u8>::empty());
        assert(concat_bytes(items) =~= concat_bytes(items.take(0)) + concat_bytes(items.skip(0)));
    } else {
        lemma_concat_bytes_split(items.drop_first(), i - 1);
        assert(items.take(i).drop_first() =~= items.drop_first().take(i - 1));
        assert(items.skip(i) =~= items.drop_first().skip(i - 1));
        assert(items.take(i)[0] == items[0]);
        assert(concat_bytes(items.take(i)) == items[0] + concat_bytes(
            items.drop_first().take(i - 1),
        ));
        assert(items[0] + (concat_bytes(items.drop_first().take(i - 1)) + concat_bytes(
            items.drop_first().skip(i - 1),
        )) =~= (items[0] + concat_bytes(items.drop_first().take(i - 1))) + concat_bytes(
            items.drop_first().skip(i - 1),
        ));
        assert(concat_bytes(items) =~= concat_bytes(items.take(i)) + concat_bytes(items.skip(i)));
    }
}

/// The concatenation of a sequence of byte strings where each in turn is
/// truncated to the boundary-aligned prefix that still fits within `cap`
/// total bytes.
pub open spec fn concat_trunc(items: Seq<Seq<u8>>, cap: int) -> Seq<u8>
    decreases items.len(),
{
    if items.len() == 0 {
        Seq::empty()
    } else {
        let prev = concat_trunc(items.drop_last(), cap);
        prev + items.last().subrange(0, trunc_len(items.last(), cap - prev.len()))
    }
}

/// The characters of `cs` kept where the matching entry of `keep` is true,
/// in their original order.
pub open spec fn mask_filter(cs: Seq<char>, keep: Seq<bool>) -> Seq<char>
    decreases cs.len(),
{
    if cs.len() == 0 {
        Seq::empty()
    } else {
        (if keep[0] {
            seq![cs[0]]
        } else {
            Seq::empty()
        }) + mask_filter(cs.drop_first(), keep.drop_first())
    }
}

/// Filtering one more character appends it exactly when it is kept.
pub proof fn lemma_mask_filter_snoc(cs: Seq<char>, keep: Seq<bool>, c: char, t: bool)
    requires
        cs.len() == keep.len(),
    ensures
        mask_filter(cs.push(c), keep.push(t)) == mask_filter(cs, keep) + (if t {
            seq![c]
        } else {
            Seq::<char>::empty()
        }),
    decreases cs.len(),
{
    let tailbit: Seq<char> = if t {
        seq![c]
    } else {
        Seq::empty()
    };
    if cs.len() == 0 {
        assert(cs.push(c).drop_first() =~= Seq::<char>::empty());
        assert(keep.push(t).drop_first() =~= Seq::<bool>::empty());
        assert(cs.push(c)[0] == c && keep.push(t)[0] == t);
        assert(mask_filter(Seq::<char>::empty(), Seq::<bool>::empty()) == Seq::<char>::empty());
        assert(mask_filter(cs.push(c), keep.push(t)) == (if t {
            seq![c]
        } else {
            Seq::<char>::empty()
        }) + mask_filter(cs.push(c).drop_first(), keep.push(t).drop_first()));
        assert(mask_filter(cs, keep) == Seq::<char>::empty());
        assert(mask_filter(cs.push(c), keep.push(t)) =~= mask_filter(cs, keep) + tailbit);
    } else {
        assert(cs.push(c).drop_first() =~= cs.drop_first().push(c));
        assert(keep.push(t).drop_first() =~= keep.drop_first().push(t));
        lemma_mask_filter_snoc(cs.drop_first(), keep.drop_first(), c, t);
        assert(cs.push(c)[0] == cs[0] && keep.push(t)[0] == keep[0]);
        let head: Seq<char> = if keep[0] {
            seq![cs[0]]
        } else {
            Seq::empty()
        };
        assert(mask_filter(cs.push(c), keep.push(t)) == head + mask_filter(
            cs.push(c).drop_first(),
            keep.push(t).drop_first(),
        ));
        assert(mask_filter(cs, keep) == head + mask_filter(cs.drop_first(), keep.drop_first()));
        assert(head + (mask_filter(cs.drop_first(), keep.drop_first()) + tailbit) =~= (head
            + mask_filter(cs.drop_first(), keep.drop_first())) + tailbit);
        assert(mask_filter(cs.push(c), keep.push(t)) =~= mask_filter(cs, keep) + tailbit);
    }
}

/// Relies on `char::from_u32`: it returns `Some` exactly for values that are
/// Unicode scalars (at most 0x10FFFF and not in the surrogate range), and the
/// returned character has the given value.
#[verifier::external_body]
pub(crate) fn char_from_u32(u: u32) -> (r: Option<char>)
    ensures
        r is Some <==> is_scalar(u),
        r matches Some(c) ==> c as u32 == u,
{
    char::from_u32(u)
}

/// Encodes one character as UTF-8 bytes.
pub fn encode_char(c: char) -> (v: Vec<u8>)
    ensures
        v@ == encode_scalar(c as u32),
        1 <= v@.len() <= 4,
{
    let u = c as u32;
    let mut v: Vec<u8> = Vec::new();
    if u <= 0x7f {
        v.push((u & 0x7f) as u8);
        proof {
            assert(v@ =~= encode_scalar(u));
        }
    } else if u <= 0x7ff {
        v.push(0xc0 | (((u >> 6) & 0x1f) as u8));
        v.push(0x80 | ((u & 0x3f) as u8));
        proof {
            assert(v@ =~= encode_scalar(u));
        }
    } else if u <= 0xffff {
        proof {
            assert(has_width_3_encoding(u));
        }
        v.push(0xe0 | (((u >> 12) & 0x0f) as u8));
        v.push(0x80 | (((u >> 6) & 0x3f) as u8));
        v.push(0x80 | ((u & 0x3f) as u8));
        proof {
            assert(v@ =~= encode_scalar(u));
        }
    } else {
        proof {
            assert(has_width_4_encoding(u));
        }
        v.push(0xf0 | (((u >> 18) & 0x7) as u8));
        v.push(0x80 | (((u >> 12) & 0x3f) as u8));
        v.push(0x80 | (((u >> 6) & 0x3f) as u8));
        v.push(0x80 | ((u & 0x3f) as u8));
        proof {
            assert(v@ =~= encode_scalar(u));
        }
    }
    v
}

/// Decodes the character whose encoding starts at byte index `i`, returning
/// it together with the width of its encoding.
pub fn decode_scalar_at(bytes: &[u8], i: usize) -> (r: (char, usize))
    requires
        valid_utf8(bytes@),
        is_char_boundary(bytes@, i as int),
        i < bytes@.len(),
    ensures
        ({
            let tail = bytes@.subrange(i as int, bytes@.len() as int);
            &&& r.0 as u32 == decode_first_scalar(tail)
            &&& encode_scalar(r.0 as u32) == take_first_scalar(tail)
            &&& r.1 == length_of_first_scalar(tail)
            &&& 1 <= r.1 <= 4
            &&& i + r.1 <= bytes@.len()
        }),
{
    let ghost tail = bytes@.subrange(i as int, bytes@.len() as int);
    proof {
        valid_utf8_split(bytes@, i as int);
        assert(valid_utf8(tail));
        assert(valid_first_scalar(tail));
        assert(tail[0] == bytes@[i as int]);
    }
    let b0 = bytes[i];
    let cp: u32;
    let width: usize;
    if b0 <= 0x7f {
        cp = (b0 & 0x7f) as u32;
        width = 1;
        proof {
            assert(cp <= 0x7f) by (bit_vector)
                requires
                    cp == (b0 & 0x7f) as u32,
                    b0 <= 0x7f,
            ;
        }
    } else if b0 <= 0xdf {
        proof {
            assert(tail.len() >= 2 && tail[1] == bytes@[i + 1]);
        }
        let b1 = bytes[i + 1];
        cp = (((b0 & 0x1f) as u32) << 6) | ((b1 & 0x3f) as u32);
        width = 2;
        proof {
            assert(cp <= 0x7ff) by (bit_vector)
                requires
                    cp == (((b0 & 0x1f) as u32) << 6) | ((b1 & 0x3f) as u32),
            ;
        }
    } else if b0 <= 0xef {
        proof {
            assert(tail.len() >= 3 && tail[1] == bytes@[i + 1] && tail[2] == bytes@[i + 2]);
        }
        let b1 = bytes[i + 1];
        let b2 = bytes[i + 2];
        cp = (((b0 & 0x0f) as u32) << 12) | (((b1 & 0x3f) as u32) << 6) | ((b2 & 0x3f) as u32);
        width = 3;
        proof {
            assert(cp <= 0xffff) by (bit_vector)
                requires
                    cp == (((b0 & 0x0f) as u32) << 12) | (((b1 & 0x3f) as u32) << 6) | ((b2
                        & 0x3f) as u32),
            ;
        }
    } else {
        proof {
            assert(is_leading_byte_width_4(tail[0]));
            assert(tail.len() >= 4 && tail[1] == bytes@[i + 1] && tail[2] == bytes@[i + 2]
                && tail[3] == bytes@[i + 3]);
        }
        let b1 = bytes[i + 1];
        let b2 = bytes[i + 2];
        let b3 = bytes[i + 3];
        cp = (((b0 & 0x07) as u32) << 18) | (((b1 & 0x3f) as u32) << 12) | (((b2 & 0x3f) as u32)
            << 6) | ((b3 & 0x3f) as u32);
        width = 4;
    }
    proof {
        assert(cp == decode_first_scalar(tail));
        assert(width == length_of_first_scalar(tail));
        assert(is_scalar(cp));
    }
    let copt = char_from_u32(cp);
    match copt {
        Some(c) => {
            proof {
                char_u32_cast(c, cp);
                decode_utf8_first_scalar(tail);
            }
            (c, width)
        },
        None => {
            proof {
                assert(false);
            }
            (' ', 1)
        },
    }
}

/// A single character's encoding is itself valid UTF-8 and decodes back to
/// that character.
pub proof fn lemma_encode_single(c: char)
    ensures
        encode_utf8(seq![c]) == encode_scalar(c as u32),
        valid_utf8(encode_scalar(c as u32)),
        decode_utf8(encode_scalar(c as u32)) == seq![c],
        1 <= encode_scalar(c as u32).len() <= 4,
{
    let s = seq![c];
    assert(s.drop_first() =~= Seq::<char>::empty());
    assert(encode_utf8(Seq::<char>::empty()) =~= Seq::<u8>::empty());
    assert(encode_utf8(s) =~= encode_scalar(s[0] as u32) + encode_utf8(s.drop_first()));
    assert(encode_utf8(s) =~= encode_scalar(c as u32));
    encode_utf8_valid_utf8(s);
    encode_utf8_decode_utf8(s);
    char_is_scalar(c);
}

/// Concatenating three valid UTF-8 sequences yields a valid sequence.
pub proof fn lemma_valid_concat3(a: Seq<u8>, b: Seq<u8>, c: Seq<u8>)
    requires
        valid_utf8(a),
        valid_utf8(b),
        valid_utf8(c),
    ensures
        valid_utf8(a + b + c),
{
    valid_utf8_concat(a, b);
    valid_utf8_concat(a + b, c);
}

/// Splitting a concatenation of two valid UTF-8 sequences at the seam is a
/// character boundary, and decoding distributes over the concatenation.
pub proof fn lemma_decode_concat(a: Seq<u8>, b: Seq<u8>)
    requires
        valid_utf8(a),
        valid_utf8(b),
    ensures
        valid_utf8(a + b),
        is_char_boundary(a + b, a.len() as int),
        decode_utf8(a + b) == decode_utf8(a) + decode_utf8(b),
{
    valid_utf8_concat(a, b);
    let ab = a + b;
    if b.len() == 0 {
        is_char_boundary_start_end_of_seq(ab);
        assert(a.len() == ab.len());
    } else {
        assert(valid_first_scalar(b));
        assert(ab[a.len() as int] == b[0]);
        assert(!is_continuation_byte(ab[a.len() as int]));
        is_char_boundary_iff_not_is_continuation_byte(ab, a.len() as int);
    }
    decode_utf8_split(ab, a.len() as int);
    assert(ab.subrange(0, a.len() as int) =~= a);
    assert(ab.subrange(a.len() as int, ab.len() as int) =~= b);
}

/// Encoding distributes over concatenation of character sequences.
pub proof fn lemma_encode_concat(a: Seq<char>, b: Seq<char>)
    ensures
        encode_utf8(a + b) == encode_utf8(a) + encode_utf8(b),
    decreases a.len(),
{
    if a.len() == 0 {
        assert(a + b =~= b);
        assert(encode_utf8(a) + encode_utf8(b) =~= encode_utf8(b));
    } else {
        assert((a + b).drop_first() =~= a.drop_first() + b);
        lemma_encode_concat(a.drop_first(), b);
        assert(encode_utf8(a + b) =~= encode_utf8(a) + encode_utf8(b));
    }
}

/// When every byte after `j` is a continuation byte and `j` is a boundary,
/// the bytes from `j` on encode exactly the last character.
pub proof fn lemma_last_scalar(bytes: Seq<u8>, j: int)
    requires
        valid_utf8(bytes),
        0 <= j < bytes.len(),
        is_char_boundary(bytes, j),
        forall|k: int| j < k < bytes.len() ==> is_continuation_byte(#[trigger] bytes[k]),
    ensures
        length_of_first_scalar(bytes.subrange(j, bytes.len() as int)) == bytes.len() - j,
        bytes.len() - j <= 4,
        decode_first_scalar(bytes.subrange(j, bytes.len() as int)) == decode_last_scalar(bytes),
        length_of_last_scalar(bytes) == bytes.len() - j,
        decode_utf8(bytes) == decode_utf8(bytes.subrange(0, j)) + seq![
            decode_last_scalar(bytes) as char,
        ],
{
    let n = bytes.len() as int;
    let tail = bytes.subrange(j, n);
    valid_utf8_split(bytes, j);
    assert(valid_utf8(tail));
    assert(valid_first_scalar(tail));
    let k = length_of_first_scalar(tail);
    assert(1 <= k <= 4);
    assert(k <= tail.len());
    if k < tail.len() {
        let rest = pop_first_scalar(tail);
        assert(valid_utf8(rest));
        assert(rest.len() > 0);
        assert(valid_first_scalar(rest));
        assert(rest[0] == tail[k] && tail[k] == bytes[j + k]);
        assert(is_continuation_byte(bytes[j + k]));
        assert(false);
    }
    assert(k == n - j);
    assert forall|m: int| 0 < m < k implies is_continuation_byte(tail[m]) by {
        assert(tail[m] == bytes[j + m]);
    }
    assert(decode_first_scalar(tail) == decode_last_scalar(bytes));
    assert(length_of_last_scalar(bytes) == n - j);
    decode_utf8_split(bytes, j);
    assert(decode_utf8(tail) =~= seq![decode_first_scalar(tail) as char] + decode_utf8(
        pop_first_scalar(tail),
    ));
    assert(pop_first_scalar(tail) =~= Seq::<u8>::empty());
    assert(decode_utf8(bytes) =~= decode_utf8(bytes.subrange(0, j)) + seq![
        decode_last_scalar(bytes) as char,
    ]);
}

/// Finds the byte index at which the last character's encoding starts.
pub fn last_char_start(bytes: &[u8]) -> (j: usize)
    requires
        valid_utf8(bytes@),
        bytes@.len() > 0,
    ensures
        j < bytes@.len(),
        is_char_boundary(bytes@, j as int),
        forall|k: int| j < k < bytes@.len() ==> is_continuation_byte(#[trigger] bytes@[k]),
{
    let mut j: usize = bytes.len() - 1;
    while j > 0 && byte_is_cont(bytes[j])
        invariant
            valid_utf8(bytes@),
            0 <= j < bytes@.len(),
            forall|k: int| j < k < bytes@.len() ==> is_continuation_byte(#[trigger] bytes@[k]),
        decreases j,
    {
        j = j - 1;
    }
    proof {
        if j == 0 {
            assert(valid_first_scalar(bytes@));
            assert(!is_continuation_byte(bytes@[0]));
        }
        is_char_boundary_iff_not_is_continuation_byte(bytes@, j as int);
    }
    j
}

/// A valid prefix followed by an invalid first scalar makes the whole
/// sequence invalid.
proof fn lemma_invalid_here(bytes: Seq<u8>, i: int)
    requires
        0 <= i < bytes.len(),
        partial_valid_utf8(bytes, i),
        !valid_first_scalar(bytes.subrange(i, bytes.len() as int)),
    ensures
        !valid_utf8(bytes),
{
    let rest = bytes.subrange(i, bytes.len() as int);
    assert(!valid_utf8(rest));
    partial_valid_partial_invalid_utf8(bytes, i);
}

} // verus!
