//! UTF-16 decoding: surrogate pairs are combined into scalar values, strictly
//! or with lossy replacement.

use vstd::prelude::*;
use crate::convert::char_from_u32;
use crate::error::StringError;

verus! {

/// True when the code unit is a high (leading) surrogate.
pub open spec fn is_high_surrogate(u: u16) -> bool {
    0xd800 <= u <= 0xdbff
}

/// True when the code unit is a low (trailing) surrogate.
pub open spec fn is_low_surrogate(u: u16) -> bool {
    0xdc00 <= u <= 0xdfff
}

/// True when the code unit encodes a scalar on its own.
pub open spec fn is_bmp_unit(u: u16) -> bool {
    !is_high_surrogate(u) && !is_low_surrogate(u)
}

/// The scalar value encoded by a surrogate pair.
pub open spec fn combine_surrogates(hi: u16, lo: u16) -> u32
    recommends
        is_high_surrogate(hi),
        is_low_surrogate(lo),
{
    (((hi as u32) - 0xd800) * 0x400 + ((lo as u32) - 0xdc00) + 0x10000) as u32
}

/// True when every code unit is either a lone scalar or part of a matched
/// surrogate pair.
pub open spec fn utf16_valid(units: Seq<u16>) -> bool
    decreases units.len(),
{
    if units.len() == 0 {
        true
    } else if is_bmp_unit(units[0]) {
        utf16_valid(units.drop_first())
    } else if is_high_surrogate(units[0]) {
        units.len() >= 2 && is_low_surrogate(units[1]) && utf16_valid(
            units.subrange(2, units.len() as int),
        )
    } else {
        false
    }
}

/// The characters encoded by the code units, assuming they are valid UTF-16.
pub open spec fn utf16_decode(units: Seq<u16>) -> Seq<char>
    recommends
        utf16_valid(units),
    decreases units.len(),
{
    if units.len() == 0 {
        Seq::empty()
    } else if is_bmp_unit(units[0]) {
        seq![(units[0] as u32) as char] + utf16_decode(units.drop_first())
    } else if is_high_surrogate(units[0]) && units.len() >= 2 && is_low_surrogate(units[1]) {
        seq![combine_surrogates(units[0], units[1]) as char] + utf16_decode(
            units.subrange(2, units.len() as int),
        )
    } else {
        Seq::empty()
    }
}

/// The characters encoded by the code units, replacing each invalid unit
/// with the replacement character.
pub open spec fn utf16_decode_lossy(units: Seq<u16>) -> Seq<char>
    decreases units.len(),
{
    if units.len() == 0 {
        Seq::empty()
    } else if is_bmp_unit(units[0]) {
        seq![(units[0] as u32) as char] + utf16_decode_lossy(units.drop_first())
    } else if is_high_surrogate(units[0]) && units.len() >= 2 && is_low_surrogate(units[1]) {
        seq![combine_surrogates(units[0], units[1]) as char] + utf16_decode_lossy(
            units.subrange(2, units.len() as int),
        )
    } else {
        seq!['\u{fffd}'] + utf16_decode_lossy(units.drop_first())
    }
}

/// Decodes code units into characters, failing at the first unpaired or
/// invalid surrogate.
pub fn decode_utf16(units: &[u16]) -> (r: Result<Vec<char>, StringError>)
    ensures
        r is Ok <==> utf16_valid(units@),
        r matches Ok(v) ==> v@ == utf16_decode(units@),
        r matches Err(e) ==> e == StringError::Utf16Invalid,
{
    let n = units.len();
    let mut out: Vec<char> = Vec::new();
    let mut i: usize = 0;
    proof {
        assert(units@.subrange(0, n as int) =~= units@);
        assert(out@ =~= Seq::<char>::empty());
    }
    while i < n
        invariant
            n == units@.len(),
            0 <= i <= n,
            utf16_valid(units@) <==> utf16_valid(units@.subrange(i as int, n as int)),
            utf16_valid(units@.subrange(i as int, n as int)) ==> utf16_decode(units@) == out@
                + utf16_decode(units@.subrange(i as int, n as int)),
        decreases n - i,
    {
        let ghost tail = units@.subrange(i as int, n as int);
        proof {
            assert(tail[0] == units@[i as int]);
        }
        let u = units[i];
        if u < 0xd800 || u > 0xdfff {
            proof {
                assert(is_bmp_unit(u));
                assert(vstd::utf8::is_scalar(u as u32));
            }
            let c = match char_from_u32(u as u32) {
                Some(c) => c,
                None => {
                    proof {
                        assert(false);
                    }
                    ' '
                },
            };
            proof {
                vstd::utf8::char_u32_cast(c, u as u32);
                assert(tail.drop_first() =~= units@.subrange(i + 1, n as int));
                assert(utf16_decode(tail) == seq![(u as u32) as char] + utf16_decode(
                    tail.drop_first(),
                ));
                assert(out@.push(c) =~= out@ + seq![c]);
                assert((out@ + seq![c]) + utf16_decode(tail.drop_first()) =~= out@ + (seq![c]
                    + utf16_decode(tail.drop_first())));
            }
            out.push(c);
            i = i + 1;
        } else if u <= 0xdbff {
            if i + 1 >= n {
                proof {
                    assert(!utf16_valid(tail));
                }
                return Err(StringError::Utf16Invalid);
            }
            proof {
                assert(tail.len() >= 2 && tail[1] == units@[i + 1]);
            }
            let u2 = units[i + 1];
            if u2 < 0xdc00 || u2 > 0xdfff {
                proof {
                    assert(!utf16_valid(tail));
                }
                return Err(StringError::Utf16Invalid);
            }
            let cp: u32 = ((u as u32) - 0xd800) * 0x400 + ((u2 as u32) - 0xdc00) + 0x10000;
            proof {
                assert(cp == combine_surrogates(u, u2));
                assert(0x10000 <= cp <= 0x10ffff);
                assert(vstd::utf8::is_scalar(cp));
            }
            let c = match char_from_u32(cp) {
                Some(c) => c,
                None => {
                    proof {
                        assert(false);
                    }
                    ' '
                },
            };
            proof {
                vstd::utf8::char_u32_cast(c, cp);
                assert(tail.subrange(2, tail.len() as int) =~= units@.subrange(i + 2, n as int));
                assert(utf16_decode(tail) == seq![combine_surrogates(u, u2) as char]
                    + utf16_decode(tail.subrange(2, tail.len() as int)));
                assert(out@.push(c) =~= out@ + seq![c]);
                assert((out@ + seq![c]) + utf16_decode(tail.subrange(2, tail.len() as int)) =~= out@
                    + (seq![c] + utf16_decode(tail.subrange(2, tail.len() as int))));
            }
            out.push(c);
            i = i + 2;
        } else {
            proof {
                assert(!utf16_valid(tail));
            }
            return Err(StringError::Utf16Invalid);
        }
    }
    proof {
        assert(units@.subrange(n as int, n as int) =~= Seq::<u16>::empty());
        assert(utf16_valid(Seq::<u16>::empty()));
        assert(utf16_decode(Seq::<u16>::empty()) =~= Seq::<char>::empty());
        assert(out@ + Seq::<char>::empty() =~= out@);
    }
    Ok(out)
}

/// Decodes code units into characters, substituting the replacement
/// character for each unpaired or invalid surrogate.
pub fn decode_utf16_lossy(units: &[u16]) -> (r: Vec<char>)
    ensures
        r@ == utf16_decode_lossy(units@),
{
    let n = units.len();
    let mut out: Vec<char> = Vec::new();
    let mut i: usize = 0;
    proof {
        assert(units@.subrange(0, n as int) =~= units@);
        assert(out@ =~= Seq::<char>::empty());
    }
    while i < n
        invariant
            n == units@.len(),
            0 <= i <= n,
            utf16_decode_lossy(units@) == out@ + utf16_decode_lossy(
                units@.subrange(i as int, n as int),
            ),
        decreases n - i,
    {
        let ghost tail = units@.subrange(i as int, n as int);
        proof {
            assert(tail[0] == units@[i as int]);
        }
        let u = units[i];
        let c: char;
        let step: usize;
        if u < 0xd800 || u > 0xdfff {
            proof {
                assert(is_bmp_unit(u));
                assert(vstd::utf8::is_scalar(u as u32));
            }
            c = match char_from_u32(u as u32) {
                Some(c0) => c0,
                None => {
                    proof {
                        assert(false);
                    }
                    ' '
                },
            };
            step = 1;
            proof {
                vstd::utf8::char_u32_cast(c, u as u32);
                assert(tail.drop_first() =~= units@.subrange(i + 1, n as int));
                assert(utf16_decode_lossy(tail) == seq![c] + utf16_decode_lossy(
                    units@.subrange(i + 1, n as int),
                ));
            }
        } else if u <= 0xdbff && i + 1 < n && 0xdc00 <= units[i + 1] && units[i + 1] <= 0xdfff {
            proof {
                assert(tail.len() >= 2 && tail[1] == units@[i + 1]);
            }
            let u2 = units[i + 1];
            let cp: u32 = ((u as u32) - 0xd800) * 0x400 + ((u2 as u32) - 0xdc00) + 0x10000;
            proof {
                assert(cp == combine_surrogates(u, u2));
                assert(vstd::utf8::is_scalar(cp));
            }
            c = match char_from_u32(cp) {
                Some(c0) => c0,
                None => {
                    proof {
                        assert(false);
                    }
                    ' '
                },
            };
            step = 2;
            proof {
                vstd::utf8::char_u32_cast(c, cp);
                assert(tail.subrange(2, tail.len() as int) =~= units@.subrange(i + 2, n as int));
                assert(utf16_decode_lossy(tail) == seq![c] + utf16_decode_lossy(
                    units@.subrange(i + 2, n as int),
                ));
            }
        } else {
            c = '\u{fffd}';
            step = 1;
            proof {
                assert(tail.drop_first() =~= units@.subrange(i + 1, n as int));
                assert(utf16_decode_lossy(tail) == seq![c] + utf16_decode_lossy(
                    units@.subrange(i + 1, n as int),
                ));
            }
        }
        proof {
            assert(out@.push(c) =~= out@ + seq![c]);
            assert((out@ + seq![c]) + utf16_decode_lossy(
                units@.subrange(i + step, n as int),
            ) =~= out@ + (seq![c] + utf16_decode_lossy(units@.subrange(i + step, n as int))));
        }
        out.push(c);
        i = i + step;
    }
    proof {
        assert(units@.subrange(n as int, n as int) =~= Seq::<u16>::empty());
        assert(utf16_decode_lossy(Seq::<u16>::empty()) =~= Seq::<char>::empty());
        assert(out@ + Seq::<char>::empty() =~= out@);
    }
    out
}

} // verus!
