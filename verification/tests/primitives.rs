use elma::{string_null_pad, time_format, trim_string, ElmaError};

#[test]
fn trim_and_pad_scenarios() {
    let cstring: [u8; 10] = [0x45, 0x6C, 0x6D, 0x61, 0x00, 0x00, 0x00, 0x7E, 0x7E, 0x7E];
    assert_eq!(trim_string(&cstring).unwrap(), "Elma");
    let padded = string_null_pad("Elma", 10).unwrap();
    assert_eq!(&padded, &[0x45, 0x6C, 0x6D, 0x61, 0, 0, 0, 0, 0, 0]);
}

#[test]
fn pad_then_trim_returns_the_string() {
    let padded = string_null_pad("tutor14.lev", 12).unwrap();
    assert_eq!(padded.len(), 12);
    assert_eq!(trim_string(&padded).unwrap(), "tutor14.lev");
}

#[test]
fn non_ascii_is_rejected() {
    assert_eq!(string_null_pad("héllo", 20), Err(ElmaError::NonASCII));
    let bytes = [0xC3u8, 0xA9, 0x00];
    assert_eq!(trim_string(&bytes), Err(ElmaError::NonASCII));
}

#[test]
fn too_long_string_reports_the_overrun() {
    assert_eq!(string_null_pad("abcdef", 4), Err(ElmaError::PaddingTooShort(2)));
    assert_eq!(string_null_pad("abcdef", 0), Err(ElmaError::PaddingTooShort(6)));
}

#[test]
fn time_format_scenarios() {
    assert_eq!(time_format(2039).unwrap(), "00:20,39");
    assert_eq!(time_format(595999).unwrap(), "59:59,99");
    // 600000 would need a minutes field of 60, which the format cannot show.
    assert_eq!(time_format(600000), Err(ElmaError::InvalidTimeFormat));
    assert_eq!(time_format(1000000).unwrap(), "59:59,99");
    assert_eq!(time_format(6000), Err(ElmaError::InvalidTimeFormat));
    assert_eq!(time_format(9900), Err(ElmaError::InvalidTimeFormat));
    assert_eq!(time_format(0).unwrap(), "00:00,00");
    assert_eq!(time_format(42).unwrap(), "00:00,42");
}

#[test]
fn time_format_parses_back() {
    // A formatted time reads back to the number it was made from.
    for &t in &[0i32, 7, 99, 100, 4259, 125999, 595999] {
        let s = time_format(t).unwrap();
        let b = s.as_bytes();
        let d = |i: usize| (b[i] - b'0') as i32;
        let back =
            d(0) * 100000 + d(1) * 10000 + d(3) * 1000 + d(4) * 100 + d(6) * 10 + d(7);
        assert_eq!(back, t);
    }
}
