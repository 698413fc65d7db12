use inferencemesh::cli::{parse_layers, LayersError};
use inferencemesh::text::{chars_of, parse_unsigned};

#[test]
fn layer_ranges_are_read() {
    assert_eq!(parse_layers("1-10"), Ok((1, 10)));
    assert_eq!(parse_layers("0-0"), Ok((0, 0)));
    assert_eq!(parse_layers("+3-4294967295"), Ok((3, 4294967295)));
}

#[test]
fn malformed_layer_ranges_are_refused() {
    assert_eq!(parse_layers("10"), Err(LayersError::Format));
    assert_eq!(parse_layers("1-2-3"), Err(LayersError::Format));
    assert_eq!(parse_layers("a-2"), Err(LayersError::Number));
    assert_eq!(parse_layers("1-"), Err(LayersError::Number));
    assert_eq!(parse_layers("1-4294967296"), Err(LayersError::Number));
    assert_eq!(parse_layers(" 1-2"), Err(LayersError::Number));
    assert_eq!(parse_layers("5-4"), Err(LayersError::StartAfterEnd));
}

#[test]
fn unsigned_numbers_read_as_rust_reads_them() {
    let p = |s: &str, max: u64| parse_unsigned(&chars_of(s), max);
    assert_eq!(p("007", 10), Some(7));
    assert_eq!(p("+1", 10), Some(1));
    assert_eq!(p("+", 10), None);
    assert_eq!(p("", 10), None);
    assert_eq!(p("11", 10), None);
    assert_eq!(p("-1", 10), None);
    assert_eq!(p("18446744073709551615", u64::MAX), Some(u64::MAX));
    assert_eq!(p("18446744073709551616", u64::MAX), None);
    for s in ["0", "42", "+9", "x", "4294967295", "4294967296"] {
        assert_eq!(p(s, u32::MAX as u64), s.parse::<u32>().ok().map(|v| v as u64));
    }
}

#[test]
fn parse_layers_reads_back_written_ranges() {
    for (a, b) in [(0u32, 0u32), (3, 17), (9, 10), (4_000_000_000, u32::MAX), (u32::MAX, u32::MAX)] {
        assert_eq!(parse_layers(&format!("{}-{}", a, b)), Ok((a, b)));
    }
    assert_eq!(parse_layers(&format!("{}-{}", 11u32, 10u32)), Err(LayersError::StartAfterEnd));
}
