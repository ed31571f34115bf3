use huby::{read_size, ByteSize, ParseError, SizeText, Unit, GB, KB, MB, TB};
use std::collections::hash_map::DefaultHasher;
use std::hash::{Hash, Hasher};

fn hash_of(b: &ByteSize) -> u64 {
    let mut h = DefaultHasher::new();
    b.hash(&mut h);
    h.finish()
}

#[test]
fn test_add() {
    let mut a = ByteSize::from_bytes(12);
    let b = ByteSize::from_bytes(30);
    assert!(a + b == ByteSize::from_bytes(42));
    a.add_assign(b);
    assert!(a == ByteSize::from_bytes(42));
    assert_eq!((a + ByteSize::from_gb(1)).in_bytes(), GB + 42)
}

#[test]
fn test_into_other_units() {
    let b = ByteSize::from_gb(1000);
    println!("{}", b.into_kb().to_string())
}

#[test]
fn test_to_string_prec() {
    // a kilobyte shown as terabytes is far below one unit, so it is shown in
    // kilobytes again
    assert_eq!(ByteSize::from_kb(1).into_tb().to_string_with_prec(2), "1KB");
}

#[test]
fn test_from_str() {
    match read_size("10B") {
        Ok(SizeText::Exact(b)) => assert!(b == ByteSize::from_bytes(10)),
        _ => panic!("10B is ten bytes"),
    }
    for (text, unit, number) in [
        ("10.9KB", Unit::Kilo, "10.9"),
        ("10.1MB", Unit::Mega, "10.1"),
        ("10.42GB", Unit::Giga, "10.42"),
    ] {
        match read_size(text) {
            Ok(SizeText::Scaled(u, t)) => {
                assert_eq!(u, unit);
                assert_eq!(t, number);
            }
            _ => panic!("{} has a unit and a number", text),
        }
    }
}

#[test]
fn from_bytes_keeps_the_count() {
    for n in [0u64, 1, 1023, 1024, 5000, MB - 1, MB, GB, TB, u64::MAX] {
        assert_eq!(ByteSize::from_bytes(n).in_bytes(), n);
    }
}

#[test]
fn from_bytes_picks_the_best_unit() {
    assert_eq!(ByteSize::from_bytes(0).unit(), Unit::Bytes);
    assert_eq!(ByteSize::from_bytes(KB - 1).unit(), Unit::Bytes);
    assert_eq!(ByteSize::from_bytes(KB).unit(), Unit::Kilo);
    assert_eq!(ByteSize::from_bytes(MB - 1).unit(), Unit::Kilo);
    assert_eq!(ByteSize::from_bytes(MB).unit(), Unit::Mega);
    assert_eq!(ByteSize::from_bytes(GB).unit(), Unit::Giga);
    assert_eq!(ByteSize::from_bytes(TB - 1).unit(), Unit::Giga);
    assert_eq!(ByteSize::from_bytes(TB).unit(), Unit::Tera);
    assert_eq!(ByteSize::from_bytes(u64::MAX).unit(), Unit::Tera);
}

#[test]
fn unit_constructors_scale_and_retag() {
    assert_eq!(ByteSize::from_kb(2048).unit(), Unit::Mega);
    assert_eq!(ByteSize::from_kb(2048).in_bytes(), 2 * MB);
    assert_eq!(ByteSize::from_mb(3).in_bytes(), 3 * MB);
    assert_eq!(ByteSize::from_gb(2).unit(), Unit::Giga);
    assert_eq!(ByteSize::from_tb(2).in_bytes(), 2 * TB);
    assert_eq!(ByteSize::from_bits_uncheked(17).in_bytes(), 2);
    assert_eq!(ByteSize::from_bits_uncheked(8 * KB).unit(), Unit::Kilo);
    assert_eq!(Unit::Bytes.bytes_per_unit(), 1);
    assert_eq!(Unit::Giga.bytes_per_unit(), GB);
    assert_eq!(Unit::Tera.bytes_per_unit(), TB);
}

#[test]
fn kb_and_mb_are_one_value() {
    let a = ByteSize::from_kb(1024);
    let b = ByteSize::from_mb(1);
    assert!(a == b);
    assert!(a.into_bytes() == b.into_tb());
    assert_eq!(hash_of(&a.into_kb()), hash_of(&b));
    assert!(!(a < b) && !(a > b));
}

#[test]
fn order_goes_by_bytes() {
    let small = ByteSize::from_bytes(KB - 1).into_tb();
    let big = ByteSize::from_kb(1).into_bytes();
    assert!(small < big);
    assert!(big > small);
    assert!(small != big);
}

#[test]
fn sum_takes_best_unit_of_total() {
    let a = ByteSize::from_bytes(600).into_tb();
    let b = ByteSize::from_bytes(600).into_gb();
    let c = a + b;
    assert_eq!(c.in_bytes(), 1200);
    assert_eq!(c.unit(), Unit::Kilo);
}

#[test]
fn subtraction_renormalizes() {
    let a = ByteSize::from_mb(1);
    let b = ByteSize::from_bytes(MB - 10);
    let c = a - b;
    assert_eq!(c.in_bytes(), 10);
    assert_eq!(c.unit(), Unit::Bytes);
    let mut d = ByteSize::from_kb(3);
    d.sub_assign(ByteSize::from_kb(1));
    assert_eq!(d.in_bytes(), 2 * KB);
    assert_eq!(d.unit(), Unit::Kilo);
}

#[test]
fn default_is_zero_bytes() {
    let d = ByteSize::default();
    assert_eq!(d.in_bytes(), 0);
    assert_eq!(d.unit(), Unit::Bytes);
}

#[test]
fn into_units_keep_bytes() {
    let b = ByteSize::from_kb(3);
    assert_eq!(b.into_bytes().unit(), Unit::Bytes);
    assert_eq!(b.into_kb().unit(), Unit::Kilo);
    assert_eq!(b.into_mb().unit(), Unit::Mega);
    assert_eq!(b.into_gb().unit(), Unit::Giga);
    assert_eq!(b.into_tb().unit(), Unit::Tera);
    assert_eq!(b.into_tb().in_bytes(), 3 * KB);
    assert_eq!(b.into_mb().divisor(), MB);
}

#[test]
fn normalize_is_idempotent() {
    let x = ByteSize::from_bytes(5 * MB).into_bytes();
    let once = x.normalize();
    let twice = once.normalize();
    assert_eq!(once.unit(), Unit::Mega);
    assert_eq!(twice.unit(), once.unit());
    assert_eq!(twice.in_bytes(), once.in_bytes());
}

#[test]
fn display_has_one_decimal() {
    let kb = ByteSize::from_kb(1);
    assert_eq!(kb.to_string(), "1.0KB");
    assert_eq!(kb.into_bytes().to_string(), "1024.0B");
    assert_eq!(ByteSize::from_bytes(1536).to_string(), "1.5KB");
    assert_eq!(ByteSize::from_bytes(0).to_string(), "0.0B");
    assert_eq!(ByteSize::from_gb(1000).into_kb().to_string(), "1048576000.0KB");
}

#[test]
fn display_rounds_half_to_even() {
    // 1.25 and 1.75 kilobytes are exact halves at one decimal
    assert_eq!(ByteSize::from_bytes(1280).to_string(), "1.2KB");
    assert_eq!(ByteSize::from_bytes(1792).to_string(), "1.8KB");
    // just above a half rounds up
    assert_eq!(ByteSize::from_bytes(1281).to_string(), "1.3KB");
    // rounding up carries into the whole part
    assert_eq!(ByteSize::from_bytes(2047).to_string(), "2.0KB");
}

#[test]
fn display_below_one_unit_renormalizes() {
    assert_eq!(ByteSize::from_kb(1).into_tb().to_string(), "1.0KB");
    assert_eq!(ByteSize::from_bytes(512).into_kb().to_string(), "512.0B");
    assert_eq!(ByteSize::from_mb(1).into_kb().to_string(), "1024.0KB");
}

#[test]
fn compact_text_drops_trailing_zeros() {
    assert_eq!(ByteSize::from_bytes(10670).to_string_with_prec(2), "10.42KB");
    assert_eq!(ByteSize::from_bytes(1536).to_string_with_prec(2), "1.5KB");
    assert_eq!(ByteSize::from_gb(1).to_string_with_prec(2), "1GB");
    assert_eq!(ByteSize::from_bytes(100).to_string_with_prec(2), "100B");
    assert_eq!(ByteSize::from_bytes(0).to_string_with_prec(2), "0B");
    assert_eq!(ByteSize::from_bytes(1537).to_string_with_prec(3), "1.501KB");
    // with no decimals the whole number keeps its zeros
    assert_eq!(ByteSize::from_bytes(100).to_string_with_prec(0), "100B");
    assert_eq!(ByteSize::from_kb(10).to_string_with_prec(0), "10KB");
    assert_eq!(ByteSize::from_bytes(0).to_string_with_prec(0), "0B");
}

#[test]
fn debug_text_shows_bytes_unless_in_bytes() {
    assert_eq!(ByteSize::from_bytes(12).debug_string(), "12.0B");
    assert_eq!(ByteSize::from_kb(1).debug_string(), "1.0KB (1024B)");
    assert_eq!(ByteSize::from_kb(1).into_tb().debug_string(), "0.0TB (1024B)");
    assert_eq!(ByteSize::from_mb(1).into_bytes().debug_string(), "1048576.0B");
}

#[test]
fn reading_bytes() {
    for (text, n) in [("10B", 10u64), (" 12 B", 12), ("+7B", 7), ("0B", 0), ("18446744073709551615B", u64::MAX)] {
        match read_size(text) {
            Ok(SizeText::Exact(b)) => assert_eq!(b.in_bytes(), n),
            _ => panic!("{} is a byte count", text),
        }
    }
    match read_size("2048B") {
        Ok(SizeText::Exact(b)) => assert_eq!(b.unit(), Unit::Kilo),
        _ => panic!("2048B is a byte count"),
    }
}

#[test]
fn reading_bad_byte_counts() {
    for text in ["B", "-7B", "1.5B", "18446744073709551616B", "x B"] {
        assert!(matches!(read_size(text), Err(ParseError::ParseInt(_))), "{}", text);
    }
}

#[test]
fn reading_drops_one_byte_suffix() {
    assert!(matches!(read_size("10BB"), Err(ParseError::UnkUnit(_))));
    assert!(matches!(read_size("10 BB"), Err(ParseError::UnkUnit(_))));
    assert!(matches!(read_size("1B B"), Err(ParseError::ParseInt(_))));
}

#[test]
fn reading_checks_longer_suffixes_first() {
    match read_size("5MB") {
        Ok(SizeText::Scaled(u, t)) => {
            assert_eq!(u, Unit::Mega);
            assert_eq!(t, "5");
        }
        _ => panic!("5MB is megabytes"),
    }
    // one suffix is dropped: the number before it is `1KB`, no decimal number
    match read_size("1KBKB") {
        Ok(SizeText::Scaled(u, t)) => {
            assert_eq!(u, Unit::Kilo);
            assert_eq!(t, "1KB");
            assert!(t.parse::<f64>().is_err());
        }
        _ => panic!("1KBKB ends in KB"),
    }
    match read_size("abcKB") {
        Ok(SizeText::Scaled(u, t)) => {
            assert_eq!(u, Unit::Kilo);
            assert_eq!(t, "abc");
        }
        _ => panic!("abcKB has a unit"),
    }
}

#[test]
fn reading_unknown_unit() {
    for text in ["10", "", "10kb", "10 b", "10XBx"] {
        match read_size(text) {
            Err(ParseError::UnkUnit(s)) => assert_eq!(s, text),
            _ => panic!("{} has no known unit", text),
        }
    }
}

#[test]
fn reading_a_letter_before_b_is_an_unknown_unit() {
    for text in ["10XB", "10TB", "10 kB", "5bB"] {
        match read_size(text) {
            Err(ParseError::UnkUnit(s)) => assert_eq!(s, text),
            _ => panic!("{} names an unknown unit", text),
        }
    }
}

#[test]
fn compact_text_reads_back() {
    match read_size("10B") {
        Ok(SizeText::Exact(b)) => {
            let text = b.to_string_with_prec(2);
            assert_eq!(text, "10B");
            match read_size(&text) {
                Ok(SizeText::Exact(again)) => assert!(again == ByteSize::from_bytes(10)),
                _ => panic!("{} is a byte count", text),
            }
        }
        _ => panic!("10B is a byte count"),
    }
    for (text, scale) in [("10.9KB", KB), ("10.1MB", MB), ("10.42GB", GB)] {
        match read_size(text) {
            Ok(SizeText::Scaled(_, number)) => {
                let v: f64 = number.parse().unwrap();
                let size = ByteSize::from_bytes((v * scale as f64).round() as u64);
                let shown = size.to_string_with_prec(2);
                assert_eq!(shown, text);
            }
            _ => panic!("{} has a unit", text),
        }
    }
}

#[test]
fn huge_counts_are_shown_as_floats_hold_them() {
    // above 2^53 a float keeps every other byte count only
    let b = ByteSize::from_bytes((1u64 << 53) + 1).into_bytes();
    assert_eq!(b.to_string(), "9007199254740992.0B");
    assert_eq!(ByteSize::from_bytes(u64::MAX).to_string(), "16777216.0TB");
    assert_eq!(
        ByteSize::from_bytes(u64::MAX).debug_string(),
        "16777216.0TB (18446744073709551615B)"
    );
    assert_eq!(ByteSize::from_bytes(u64::MAX).to_string_with_prec(3), "16777216TB");
}
