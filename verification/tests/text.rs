use address_generator::text::{ipv4_to_string, parse_ipv4_str, parse_u64, split_str, trim_str};

#[test]
fn parse_ipv4_accepts_dotted_quads() {
    assert_eq!(parse_ipv4_str("0.0.0.0"), Some(0));
    assert_eq!(parse_ipv4_str("1.2.3.4"), Some(0x01020304));
    assert_eq!(parse_ipv4_str("255.255.255.255"), Some(0xFFFFFFFF));
    assert_eq!(parse_ipv4_str("2.2.2.255"), Some(0x020202FF));
}

#[test]
fn parse_ipv4_rejects_malformed_addresses() {
    assert_eq!(parse_ipv4_str(""), None);
    assert_eq!(parse_ipv4_str("1.2.3"), None);
    assert_eq!(parse_ipv4_str("1.2.3.4.5"), None);
    assert_eq!(parse_ipv4_str("256.1.1.1"), None);
    assert_eq!(parse_ipv4_str("1.2.3.1000"), None);
    assert_eq!(parse_ipv4_str("a.b.c.d"), None);
    assert_eq!(parse_ipv4_str("1..2.3"), None);
    assert_eq!(parse_ipv4_str(" 1.2.3.4"), None);
}

#[test]
fn parse_u64_handles_bounds() {
    assert_eq!(parse_u64("0"), Some(0));
    assert_eq!(parse_u64("65536"), Some(65536));
    assert_eq!(parse_u64("18446744073709551615"), Some(u64::MAX));
    assert_eq!(parse_u64("18446744073709551616"), None);
    assert_eq!(parse_u64(""), None);
    assert_eq!(parse_u64("12a"), None);
    assert_eq!(parse_u64("-1"), None);
}

#[test]
fn trim_removes_ascii_whitespace() {
    assert_eq!(trim_str("  gb \t"), "gb".to_string());
    assert_eq!(trim_str("gb"), "gb".to_string());
    assert_eq!(trim_str(" \n "), "".to_string());
}

#[test]
fn split_respects_double_quotes() {
    let parts = split_str("a,\"b,c\",d", ',');
    assert_eq!(parts.len(), 3);
    assert_eq!(parts[0], "a".to_string());
    assert_eq!(parts[1], "\"b,c\"".to_string());
    assert_eq!(parts[2], "d".to_string());
}

#[test]
fn split_yields_empty_parts() {
    let parts = split_str(",a,", ',');
    assert_eq!(parts.len(), 3);
    assert_eq!(parts[0], "".to_string());
    assert_eq!(parts[1], "a".to_string());
    assert_eq!(parts[2], "".to_string());
}

#[test]
fn render_ipv4_produces_dotted_quads() {
    assert_eq!(ipv4_to_string(0), "0.0.0.0".to_string());
    assert_eq!(ipv4_to_string(0x01020304), "1.2.3.4".to_string());
    assert_eq!(ipv4_to_string(0xFFFFFFFF), "255.255.255.255".to_string());
    assert_eq!(ipv4_to_string(0x020202FF), "2.2.2.255".to_string());
}

#[test]
fn render_then_parse_is_identity() {
    for a in [0u32, 1, 255, 256, 0x01020304, 0xA0B0C0D0, 0xFFFFFFFF] {
        assert_eq!(parse_ipv4_str(ipv4_to_string(a).as_str()), Some(a));
    }
}
