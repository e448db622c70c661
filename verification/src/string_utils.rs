//! Boundary and capacity validation: pure checks run by every mutating path
//! before storage is touched.

use vstd::prelude::*;
use crate::error::StringError;
use crate::string::StaticString;

verus! {

/// Checks that a byte index lies inside `0..=len`.
pub fn is_inside_boundary(index: usize, len: usize) -> (r: Result<(), StringError>)
    ensures
        r is Ok <==> index <= len,
        r matches Err(e) ==> e == StringError::OutOfBounds,
{
    if index <= len {
        Ok(())
    } else {
        Err(StringError::OutOfBounds)
    }
}

/// Checks that a byte index does not split a multi-byte encoding: indices at
/// or past the end are accepted, as is any index whose byte starts a
/// character.
pub fn is_char_boundary<const N: usize>(s: &StaticString<N>, index: usize) -> (r: Result<
    (),
    StringError,
>)
    requires
        s.wf(),
    ensures
        index <= s@.len() ==> (r is Ok <==> vstd::utf8::is_char_boundary(s@, index as int)),
        index > s@.len() ==> r is Ok,
        r matches Err(e) ==> e == StringError::NotCharBoundary,
{
    if index >= s.len() {
        proof {
            if index == s@.len() {
                vstd::utf8::is_char_boundary_start_end_of_seq(s@);
            }
        }
        Ok(())
    } else {
        proof {
            vstd::utf8::is_char_boundary_iff_not_is_continuation_byte(s@, index as int);
        }
        if crate::convert::byte_is_cont(s.as_bytes()[index]) {
            Err(StringError::NotCharBoundary)
        } else {
            Ok(())
        }
    }
}

/// Overwrites the first four bytes with a sequence that is not valid UTF-8,
/// to exercise the strict byte constructors; shorter buffers are left alone.
pub fn invalidate_utf8(buf: &mut Vec<u8>)
    ensures
        old(buf)@.len() >= 4 ==> final(buf)@ == old(buf)@.update(0, 0u8).update(1, 159u8).update(
            2,
            146u8,
        ).update(3, 150u8),
        old(buf)@.len() < 4 ==> final(buf)@ == old(buf)@,
{
    if buf.len() >= 4 {
        buf[0] = 0;
        buf[1] = 159;
        buf[2] = 146;
        buf[3] = 150;
    }
}

/// Overwrites the first seven code units with a sequence holding an unpaired
/// high surrogate, to exercise the strict UTF-16 constructors; shorter
/// buffers are left alone.
pub fn invalidate_utf16(buf: &mut Vec<u16>)
    ensures
        old(buf)@.len() >= 7 ==> final(buf)@ == old(buf)@.update(0, 0xd834u16).update(
            1,
            0xdd1eu16,
        ).update(2, 0x006du16).update(3, 0x0075u16).update(4, 0xd800u16).update(
            5,
            0x0069u16,
        ).update(6, 0x0063u16),
        old(buf)@.len() < 7 ==> final(buf)@ == old(buf)@,
{
    if buf.len() >= 7 {
        buf[0] = 0xd834;
        buf[1] = 0xdd1e;
        buf[2] = 0x006d;
        buf[3] = 0x0075;
        buf[4] = 0xd800;
        buf[5] = 0x0069;
        buf[6] = 0x0063;
    }
}

/// Checks that `needed` extra bytes fit into `remaining` free bytes.
pub fn check_capacity(remaining: usize, needed: usize) -> (r: Result<(), StringError>)
    ensures
        r is Ok <==> needed <= remaining,
        r matches Err(e) ==> e == StringError::CapacityOverflow,
{
    if needed <= remaining {
        Ok(())
    } else {
        Err(StringError::CapacityOverflow)
    }
}

} // verus!
