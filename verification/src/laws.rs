//! Properties that relate several operations, stated and proved once.

use vstd::prelude::*;
use vstd::utf8::encode_utf8;
use vstd::utf8::encode_utf8_decode_utf8;
use vstd::utf8::valid_utf8;
use crate::convert::lemma_take_fit_fits;
use crate::convert::lemma_trunc_len_fits;
use crate::convert::take_fit;
use crate::convert::trunc_len;
use crate::string::StaticString;

verus! {

/// On input that fits the remaining capacity, a truncating append keeps the
/// whole slice: its result, `content` followed by the truncated prefix of
/// `added`, is the same as an unbounded string's append.
pub proof fn lemma_append_within_capacity(content: Seq<u8>, added: Seq<u8>, cap: int)
    requires
        valid_utf8(added),
        content.len() + added.len() <= cap,
    ensures
        content + added.subrange(0, trunc_len(added, cap - content.len())) == content + added,
{
    lemma_trunc_len_fits(added, cap - content.len());
}

/// On characters whose whole encoding fits the capacity, a truncating
/// construction keeps every character, agreeing with an unbounded string.
pub proof fn lemma_from_chars_within_capacity(cs: Seq<char>, cap: int)
    requires
        encode_utf8(cs).len() <= cap,
    ensures
        encode_utf8(cs.take(take_fit(cs, cap))) == encode_utf8(cs),
{
    lemma_take_fit_fits(cs, cap);
}

/// Round trip: a string built from characters that fit reads back as exactly
/// those characters.  `stored` is the content that construction from `s`
/// guarantees, and `out` is any character sequence a read returns whose
/// encoding is that content.
pub proof fn lemma_round_trip(s: Seq<char>, stored: Seq<u8>, out: Seq<char>)
    requires
        stored == encode_utf8(s),
        encode_utf8(out) == stored,
    ensures
        out == s,
{
    encode_utf8_decode_utf8(s);
    encode_utf8_decode_utf8(out);
}

/// Clearing is idempotent: a string that one `clear` has emptied is left in
/// the same state by a second `clear`.
pub proof fn lemma_clear_idempotent<const N: usize>(once: StaticString<N>, twice: StaticString<N>)
    requires
        once@ == Seq::<u8>::empty(),
        twice@ == Seq::<u8>::empty(),
    ensures
        twice@ == once@,
{
}

} // verus!
