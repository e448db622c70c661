use staticstring::string_utils::{
    check_capacity, invalidate_utf16, invalidate_utf8, is_char_boundary, is_inside_boundary,
};
use staticstring::{StaticString, StringError};

type MyString = StaticString<255>;

fn strings() -> [&'static str; 8] {
    [
        "🤔🤔🤔🤔🤔🤔🤔",
        "ABCDEFGHIJKLMNOPQRSASHUDAHSDIUASH         ",
        "iejueueheuheuheu        0",
        "",
        "1",
        "ab",
        "   ",
        "        899saH(8hadhaiuhsidnkandu",
    ]
}

#[test]
fn try_from_str() {
    for s in strings() {
        let expected = String::from(s);
        let ms = MyString::try_from_str(s).unwrap();
        assert_eq!(ms.as_str(), expected.as_str());
    }
}

#[test]
fn from_str() {
    for s in strings() {
        let expected = String::from(s);
        let ms = MyString::from_str(s);
        assert_eq!(ms.as_str(), expected.as_str());
    }
}

#[test]
fn try_from_chars() {
    for s in strings() {
        let expected: String = s.chars().collect();
        let v: Vec<char> = s.chars().collect();
        let ms = MyString::try_from_chars(&v).unwrap();
        assert_eq!(ms.as_str(), expected.as_str());
    }
}

#[test]
fn from_chars() {
    for s in strings() {
        let expected: String = s.chars().collect();
        let v: Vec<char> = s.chars().collect();
        let ms = MyString::from_chars(&v);
        assert_eq!(ms.as_str(), expected.as_str());
    }
}

#[test]
fn try_from_iter() {
    for s in strings() {
        let expected: String = vec![s].into_iter().collect();
        let ms = MyString::try_from_iterator(&[s]).unwrap();
        assert_eq!(ms.as_str(), expected.as_str());
    }
}

#[test]
fn from_iter() {
    for s in strings() {
        let expected: String = vec![s].into_iter().collect();
        let ms = MyString::from_iterator(&[s]);
        assert_eq!(ms.as_str(), expected.as_str());
    }
}

#[test]
fn try_from_utf8() {
    for s in strings() {
        let expected = String::from_utf8(s.as_bytes().to_vec());
        let got = MyString::try_from_utf8(s.as_bytes());
        assert_eq!(expected.is_ok(), got.is_ok());
        assert_eq!(expected.unwrap().as_str(), got.unwrap().as_str());
    }
}

#[test]
fn from_utf8() {
    for s in strings() {
        let expected = String::from_utf8(s.as_bytes().to_vec());
        let got = MyString::from_utf8(s.as_bytes());
        assert_eq!(expected.is_ok(), got.is_ok());
        assert_eq!(expected.unwrap().as_str(), got.unwrap().as_str());
    }
}

#[test]
fn try_from_utf8_invalid() {
    for s in strings() {
        let mut bytes = s.to_owned().into_bytes();
        invalidate_utf8(&mut bytes);
        let expected = String::from_utf8(bytes.clone());
        let got = MyString::try_from_utf8(&bytes);
        assert_eq!(expected.is_ok(), got.is_ok());
        if let (Ok(e), Ok(g)) = (expected, got) {
            assert_eq!(e.as_str(), g.as_str());
        }
    }
}

#[test]
fn from_utf8_invalid() {
    for s in strings() {
        let mut bytes = s.to_owned().into_bytes();
        invalidate_utf8(&mut bytes);
        let expected = String::from_utf8(bytes.clone());
        let got = MyString::from_utf8(&bytes);
        assert_eq!(expected.is_ok(), got.is_ok());
        if let (Ok(e), Ok(g)) = (expected, got) {
            assert_eq!(e.as_str(), g.as_str());
        }
    }
}

#[test]
fn try_from_utf16() {
    for s in strings() {
        let units: Vec<u16> = s.encode_utf16().collect();
        let expected = String::from_utf16(&units);
        let got = MyString::try_from_utf16(&units);
        assert_eq!(expected.is_ok(), got.is_ok());
        assert_eq!(expected.unwrap().as_str(), got.unwrap().as_str());
    }
}

#[test]
fn from_utf16() {
    for s in strings() {
        let units: Vec<u16> = s.encode_utf16().collect();
        let expected = String::from_utf16(&units);
        let got = MyString::from_utf16(&units);
        assert_eq!(expected.is_ok(), got.is_ok());
        assert_eq!(expected.unwrap().as_str(), got.unwrap().as_str());
    }
}

#[test]
fn from_utf16_lossy() {
    for s in strings() {
        let units: Vec<u16> = s.encode_utf16().collect();
        let expected = String::from_utf16(&units);
        let got = MyString::from_utf16(&units);
        assert_eq!(expected.is_ok(), got.is_ok());
        assert_eq!(expected.unwrap().as_str(), got.unwrap().as_str());
    }
}

#[test]
fn try_from_utf16_invalid() {
    for s in strings() {
        let mut units: Vec<u16> = s.encode_utf16().collect();
        invalidate_utf16(&mut units);
        let expected = String::from_utf16(&units);
        let got = MyString::try_from_utf16(&units);
        assert_eq!(expected.is_ok(), got.is_ok());
        if let (Ok(e), Ok(g)) = (expected, got) {
            assert_eq!(e.as_str(), g.as_str());
        }
    }
}

#[test]
fn from_utf16_invalid() {
    for s in strings() {
        let mut units: Vec<u16> = s.encode_utf16().collect();
        invalidate_utf16(&mut units);
        let expected = String::from_utf16(&units);
        let got = MyString::from_utf16(&units);
        assert_eq!(expected.is_ok(), got.is_ok());
        if let (Ok(e), Ok(g)) = (expected, got) {
            assert_eq!(e.as_str(), g.as_str());
        }
    }
}

#[test]
fn from_utf16_lossy_invalid() {
    for s in strings() {
        let mut units: Vec<u16> = s.encode_utf16().collect();
        invalidate_utf16(&mut units);
        let expected = String::from_utf16(&units);
        let got = MyString::from_utf16(&units);
        assert_eq!(expected.is_ok(), got.is_ok());
        if let (Ok(e), Ok(g)) = (expected, got) {
            assert_eq!(e.as_str(), g.as_str());
        }
    }
}

#[test]
fn from_utf8_unchecked() {
    for s in strings() {
        let expected = String::from(s);
        let ms = MyString::from_utf8_unchecked(s.as_bytes());
        assert_eq!(ms.as_str(), expected.as_str());
    }
}

#[test]
fn try_push_str() {
    for s in strings() {
        let mut expected = String::from(s);
        expected.push_str(s);
        let mut ms = MyString::try_from_str(s).unwrap();
        ms.try_push_str(s).unwrap();
        assert_eq!(ms.as_str(), expected.as_str());
    }
}

#[test]
fn push_str() {
    let mut s = String::from("🤔🤔🤔🤔🤔🤔🤔");
    s.push_str("🤔🤔🤔🤔🤔🤔🤔");
    assert_eq!(s, "🤔🤔🤔🤔🤔🤔🤔🤔🤔🤔🤔🤔🤔🤔");
    let mut ms = MyString::from_str("🤔🤔🤔🤔🤔🤔🤔");
    ms.push_str("🤔🤔🤔🤔🤔🤔🤔");
    assert_eq!(ms.as_str(), "🤔🤔🤔🤔🤔🤔🤔🤔🤔🤔🤔🤔🤔🤔");
}

#[test]
fn push_str_truncating() {
    for s in strings() {
        let mut expected = String::from(s);
        expected.push_str(s);
        let mut ms = MyString::try_from_str(s).unwrap();
        ms.push_str(s);
        assert_eq!(ms.as_str(), expected.as_str());
    }
}

#[test]
fn add_str() {
    for s in strings() {
        let expected = String::from(s) + s;
        let mut ms = MyString::try_from_str(s).unwrap();
        ms.push_str(s);
        assert_eq!(ms.as_str(), expected.as_str());
    }
}

#[test]
fn push() {
    for s in strings() {
        let mut expected = String::from(s);
        expected.push('🤔');
        let mut ms = MyString::try_from_str(s).unwrap();
        ms.try_push('🤔').unwrap();
        assert_eq!(ms.as_str(), expected.as_str());
    }
}

#[test]
fn push_unchecked() {
    for s in strings() {
        let mut expected = String::from(s);
        expected.push('🤔');
        let mut ms = MyString::try_from_str(s).unwrap();
        ms.push_unchecked('🤔');
        assert_eq!(ms.as_str(), expected.as_str());
    }
}

#[test]
fn truncate() {
    for s in strings() {
        let mut expected = String::from(s);
        let expected_ok = !(2 < expected.len() && !expected.is_char_boundary(2));
        if expected_ok {
            expected.truncate(2);
        }
        let mut ms = MyString::try_from_str(s).unwrap();
        let got = ms.truncate(2);
        assert_eq!(expected_ok, got.is_ok());
        if expected_ok {
            assert_eq!(ms.as_str(), expected.as_str());
        } else {
            assert_eq!(ms.as_str(), s);
        }
    }
}

#[test]
fn pop() {
    for s in strings() {
        let mut expected = String::from(s);
        let expected_popped = expected.pop();
        let mut ms = MyString::try_from_str(s).unwrap();
        let popped = ms.pop();
        assert_eq!(popped, expected_popped);
        assert_eq!(ms.as_str(), expected.as_str());
    }
}

#[test]
fn trim() {
    for s in strings() {
        let expected = String::from(s).trim().to_owned();
        let mut ms = MyString::try_from_str(s).unwrap();
        ms.trim();
        assert_eq!(ms.as_str(), expected.as_str());
    }
}

#[test]
fn remove() {
    for s in strings() {
        let mut expected = String::from(s);
        let expected_ok = 2 < expected.len() && expected.is_char_boundary(2);
        let mut ms = MyString::try_from_str(s).unwrap();
        let got = ms.remove(2);
        assert_eq!(expected_ok, got.is_ok());
        if expected_ok {
            let removed = expected.remove(2);
            assert_eq!(got.unwrap(), removed);
            assert_eq!(ms.as_str(), expected.as_str());
        } else {
            assert_eq!(ms.as_str(), s);
        }
    }
}

#[test]
fn retain() {
    for s in strings() {
        let mut expected = String::from(s);
        expected.retain(|c| c == 'a');
        let mut ms = MyString::try_from_str(s).unwrap();
        ms.retain(|c| c == 'a');
        assert_eq!(ms.as_str(), expected.as_str());
    }
}

#[test]
fn try_insert() {
    for s in strings() {
        let mut expected = String::from(s);
        let expected_ok = 2 <= expected.len() && expected.is_char_boundary(2);
        let mut ms = MyString::try_from_str(s).unwrap();
        let got = ms.try_insert(2, 'a');
        assert_eq!(expected_ok, got.is_ok());
        if expected_ok {
            expected.insert(2, 'a');
            assert_eq!(ms.as_str(), expected.as_str());
        } else {
            assert_eq!(ms.as_str(), s);
        }
    }
}

#[test]
fn insert_unchecked() {
    for s in strings() {
        let mut expected = String::from(s);
        let expected_ok = 2 <= expected.len() && expected.is_char_boundary(2);
        let mut ms = MyString::try_from_str(s).unwrap();
        let checks = is_inside_boundary(2, ms.len()).and_then(|()| is_char_boundary(&ms, 2));
        assert_eq!(expected_ok, checks.is_ok());
        if checks.is_ok() {
            expected.insert(2, 'a');
            ms.insert_unchecked(2, 'a');
            assert_eq!(ms.as_str(), expected.as_str());
        }
    }
}

#[test]
fn try_insert_str() {
    for s in strings() {
        let mut expected = String::from(s);
        let expected_ok = 2 <= expected.len() && expected.is_char_boundary(2);
        let mut ms = MyString::try_from_str(s).unwrap();
        let got = ms.try_insert_str(2, s);
        assert_eq!(expected_ok, got.is_ok());
        if expected_ok {
            expected.insert_str(2, s);
            assert_eq!(ms.as_str(), expected.as_str());
        } else {
            assert_eq!(ms.as_str(), s);
        }
    }
}

#[test]
fn insert_str() {
    for s in strings() {
        let mut expected = String::from(s);
        let expected_ok = 2 <= expected.len() && expected.is_char_boundary(2);
        let mut ms = MyString::try_from_str(s).unwrap();
        let got = ms.insert_str(2, s);
        assert_eq!(expected_ok, got.is_ok());
        if expected_ok {
            expected.insert_str(2, s);
            assert_eq!(ms.as_str(), expected.as_str());
        } else {
            assert_eq!(ms.as_str(), s);
        }
    }
}

#[test]
fn insert_str_unchecked() {
    for s in strings() {
        let mut expected = String::from(s);
        let expected_ok = 2 <= expected.len() && expected.is_char_boundary(2);
        let mut ms = MyString::try_from_str(s).unwrap();
        let checks = is_inside_boundary(2, ms.len()).and_then(|()| is_char_boundary(&ms, 2));
        assert_eq!(expected_ok, checks.is_ok());
        if checks.is_ok() {
            expected.insert_str(2, s);
            ms.insert_str_unchecked(2, s);
            assert_eq!(ms.as_str(), expected.as_str());
        }
    }
}

#[test]
fn clear() {
    for s in strings() {
        let mut expected = String::from(s);
        expected.clear();
        let mut ms = MyString::try_from_str(s).unwrap();
        ms.clear();
        assert_eq!(ms.as_str(), expected.as_str());
    }
}

#[test]
fn split_off() {
    for s in strings() {
        let mut expected = String::from(s);
        let expected_ok = 2 <= expected.len() && expected.is_char_boundary(2);
        let mut ms = MyString::try_from_str(s).unwrap();
        let got = ms.split_off(2);
        assert_eq!(expected_ok, got.is_ok());
        if expected_ok {
            let split = expected.split_off(2);
            assert_eq!(ms.as_str(), expected.as_str());
            assert_eq!(got.unwrap().as_str(), split.as_str());
        } else {
            assert_eq!(ms.as_str(), s);
        }
    }
}

#[test]
fn split_off_errors() {
    let mut s = StaticString::<0>::new();
    let e = s.split_off(0);
    assert_eq!(e.unwrap().len(), 0);
    let mut s2 = StaticString::<1>::new();
    assert!(s2.split_off(0).is_ok());
    assert_eq!(s2.len(), 0);
}

#[test]
fn replace_range() {
    for s in strings() {
        let mut expected = String::from(s);
        let expected_ok = 2 <= expected.len() && expected.is_char_boundary(2);
        let mut ms = MyString::try_from_str(s).unwrap();
        let got = ms.replace_range(0, 2, s);
        assert_eq!(expected_ok, got.is_ok());
        if expected_ok {
            expected.replace_range(..2, s);
            assert_eq!(ms.as_str(), expected.as_str());
        } else {
            assert_eq!(ms.as_str(), s);
        }
    }
    let mut s2 = StaticString::<6>::from_str("ABCDEF");
    s2.replace_range(2, 4, "XY").unwrap();
    assert_eq!(s2.as_str(), "ABXYEF");
}

#[test]
fn replace_range_errors() {
    let mut s = StaticString::<0>::new();
    assert!(s.replace_range(0, 12, "aaa").is_err());
    assert_eq!(s.len(), 0);
    assert_eq!(s.as_str(), "");
    let mut s2 = StaticString::<1>::new();
    assert!(s2.replace_range(0, 1, "aaa").is_err());
    assert_eq!(s2.len(), 0);
    assert_eq!(s2.as_str(), "");
}

#[test]
fn len() {
    for s in strings() {
        let st = String::from(s);
        let ms = MyString::try_from_str(s).unwrap();
        assert_eq!(ms.len(), st.len());
    }
}

#[test]
fn is_empty() {
    for s in strings() {
        let st = String::from(s);
        let ms = MyString::try_from_str(s).unwrap();
        assert_eq!(ms.is_empty(), st.is_empty());
    }
}

#[test]
fn new() {
    assert_eq!(String::new().as_str(), MyString::new().as_str());
}

#[test]
fn emoji_double_append_len() {
    let mut ms = MyString::try_from_str("🤔🤔🤔🤔🤔🤔🤔").unwrap();
    ms.try_push_str("🤔🤔🤔🤔🤔🤔🤔").unwrap();
    assert_eq!(ms.as_str(), "🤔🤔🤔🤔🤔🤔🤔🤔🤔🤔🤔🤔🤔🤔");
    assert_eq!(ms.len(), 56);
}

#[test]
fn insert_out_of_bounds() {
    let mut ms = MyString::try_from_str("1").unwrap();
    assert_eq!(ms.try_insert(2, 'a'), Err(StringError::OutOfBounds));
    assert_eq!(ms.as_str(), "1");
}

#[test]
fn truncating_never_splits_char() {
    let ms = StaticString::<5>::from_str("🤔🤔");
    assert_eq!(ms.as_str(), "🤔");
    assert_eq!(ms.len(), 4);
    let mut ms2 = StaticString::<5>::from_str("a");
    ms2.push_str("🤔🤔");
    assert_eq!(ms2.as_str(), "a🤔");
    assert_eq!(ms2.len(), 5);
    let chars = ['🤔', '🤔'];
    let ms3 = StaticString::<5>::from_chars(&chars);
    assert_eq!(ms3.as_str(), "🤔");
}

#[test]
fn from_utf16_truncates_at_capacity() {
    let units: Vec<u16> = "🤔🤔".encode_utf16().collect();
    let ms = StaticString::<5>::from_utf16(&units).unwrap();
    assert_eq!(ms.as_str(), "🤔");
}

#[test]
fn utf8_invalid_reports_offset() {
    let bytes = vec![0x61u8, 0x62, 0xff, 0x63];
    let got = MyString::try_from_utf8(&bytes);
    assert_eq!(got.err(), Some(StringError::Utf8Invalid { valid_up_to: 2 }));
}

#[test]
fn capacity_overflow_error() {
    let got = StaticString::<3>::try_from_str("abcd");
    assert_eq!(got.err(), Some(StringError::CapacityOverflow));
}

#[test]
fn utf16_invalid_error() {
    let units = vec![0xd800u16];
    let got = MyString::try_from_utf16(&units);
    assert_eq!(got.err(), Some(StringError::Utf16Invalid));
}

#[test]
fn not_char_boundary_error() {
    let mut ms = MyString::try_from_str("é").unwrap();
    assert_eq!(ms.truncate(1), Err(StringError::NotCharBoundary));
    assert_eq!(ms.as_str(), "é");
}

#[test]
fn out_of_bounds_error() {
    let mut ms = MyString::try_from_str("ab").unwrap();
    assert_eq!(ms.remove(5).err(), Some(StringError::OutOfBounds));
    assert_eq!(ms.as_str(), "ab");
}

#[test]
fn pop_multibyte() {
    let mut ms = MyString::try_from_str("aé🤔").unwrap();
    assert_eq!(ms.pop(), Some('🤔'));
    assert_eq!(ms.pop(), Some('é'));
    assert_eq!(ms.pop(), Some('a'));
    assert_eq!(ms.pop(), None);
    assert_eq!(ms.as_str(), "");
}

#[test]
fn from_utf16_lossy_replacement() {
    let units = vec![0x0061u16, 0xd800, 0x0062];
    let ms = MyString::from_utf16_lossy(&units);
    assert_eq!(ms.as_str(), "a\u{fffd}b");
}

#[test]
fn trim_is_idempotent() {
    let mut ms = MyString::try_from_str("  a b\u{3000}").unwrap();
    ms.trim();
    assert_eq!(ms.as_str(), "a b");
    ms.trim();
    assert_eq!(ms.as_str(), "a b");
}

#[test]
fn clear_twice() {
    let mut ms = MyString::try_from_str("abc").unwrap();
    ms.clear();
    assert_eq!(ms.as_str(), "");
    ms.clear();
    assert_eq!(ms.as_str(), "");
}

#[test]
fn retain_keeps_order() {
    let mut ms = MyString::try_from_str("abcabc").unwrap();
    ms.retain(|c| c != 'b');
    assert_eq!(ms.as_str(), "acac");
}

#[test]
fn round_trip_exact() {
    let s = "héllo🤔 wörld";
    let ms = MyString::try_from_str(s).unwrap();
    assert_eq!(ms.as_str(), s);
}

#[test]
fn iterator_concatenation() {
    let ms = MyString::try_from_iterator(&["ab", "cd", "é"]).unwrap();
    assert_eq!(ms.as_str(), "abcdé");
    let ms2 = StaticString::<3>::from_iterator(&["ab", "cd"]);
    assert_eq!(ms2.as_str(), "abc");
    let got = StaticString::<3>::try_from_iterator(&["ab", "cd"]);
    assert_eq!(got.err(), Some(StringError::CapacityOverflow));
}

#[test]
fn validator_checks() {
    assert!(is_inside_boundary(2, 1).is_err());
    assert!(is_inside_boundary(1, 1).is_ok());
    assert!(check_capacity(3, 4).is_err());
    assert!(check_capacity(4, 4).is_ok());
    let ms = MyString::try_from_str("🤔").unwrap();
    assert!(is_char_boundary(&ms, 0).is_ok());
    assert!(is_char_boundary(&ms, 1).is_err());
    assert!(is_char_boundary(&ms, 4).is_ok());
}

#[test]
fn from_utf8_invalid_beats_overflow() {
    let bytes = vec![0x61u8, 0x62, 0xff];
    let got = StaticString::<2>::from_utf8(&bytes);
    assert_eq!(got.err(), Some(StringError::Utf8Invalid { valid_up_to: 2 }));
}

#[test]
fn from_utf8_truncates_at_capacity() {
    let ms = StaticString::<3>::from_utf8("ab🤔".as_bytes()).unwrap();
    assert_eq!(ms.as_str(), "ab");
    assert_eq!(ms.len(), 2);
}

#[test]
fn capacity_reported() {
    let ms = StaticString::<7>::new();
    assert_eq!(ms.capacity(), 7);
    assert_eq!(ms.len(), 0);
}
