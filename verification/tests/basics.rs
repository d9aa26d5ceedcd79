use reflex::net::{
    ip_string, octets_v4, octets_v6, parse_ip, socket_string, special_v4, special_v6, v4_of_octets,
    v6_of_octets, IpAddr, SocketAddr,
};
use reflex::table::Table;
use reflex::text::{
    decimal_text, in_order, join, lowercase_text, parse_unsigned, same_text_ignoring_case, split,
    trim,
};

fn chars(s: &str) -> Vec<char> {
    s.chars().collect()
}

#[test]
fn addresses_are_read_and_written() {
    assert_eq!(parse_ip("1.2.3.4"), Some(IpAddr::V4(0x01020304)));
    assert_eq!(parse_ip("1.2.3"), None);
    assert_eq!(parse_ip("01.2.3.4"), None);
    assert_eq!(parse_ip("::1"), Some(IpAddr::V6(1)));
    assert_eq!(parse_ip("::ffff:1.2.3.4"), Some(IpAddr::V6(0xffff01020304)));
    assert_eq!(parse_ip("1::2::3"), None);
    for s in ["0.0.0.0", "255.1.2.3", "::", "2001:db8::1", "1:0:0:2::3", "::ffff:1.2.3.4"] {
        assert_eq!(ip_string(parse_ip(s).unwrap()), s);
    }
    let a = SocketAddr { ip: IpAddr::V6(1), port: 80 };
    assert_eq!(socket_string(a), "[::1]:80");
    assert_eq!(socket_string(SocketAddr { ip: IpAddr::V4(1), port: 80 }), "0.0.0.1:80");
}

#[test]
fn octets_lead_back() {
    assert_eq!(octets_v4(0x01020304), [1, 2, 3, 4]);
    assert_eq!(v4_of_octets(&octets_v4(0xdeadbeef)), 0xdeadbeef);
    assert_eq!(v6_of_octets(&octets_v6(0x20010db8 << 96 | 5)), 0x20010db8 << 96 | 5);
    assert!(special_v4(0));
    assert!(special_v6(0));
    assert!(!special_v4(0x01020304));
}

#[test]
fn numbers_lead_back() {
    assert_eq!(decimal_text(0), "0");
    assert_eq!(decimal_text(u64::MAX), "18446744073709551615");
    assert_eq!(parse_unsigned(&chars("18446744073709551615"), u64::MAX), Some(u64::MAX));
    assert_eq!(parse_unsigned(&chars("18446744073709551616"), u64::MAX), None);
    assert_eq!(parse_unsigned(&chars("+7"), 9), Some(7));
    assert_eq!(parse_unsigned(&chars("10"), 9), None);
    assert_eq!(parse_unsigned(&chars(""), 9), None);
    assert_eq!(parse_unsigned(&chars("-1"), 9), None);
}

#[test]
fn text_is_taken_apart() {
    assert_eq!(lowercase_text("ÀBc"), "Àbc");
    assert!(same_text_ignoring_case("AbC", "aBc"));
    let parts = split(&chars("a//b"), '/');
    assert_eq!(parts.len(), 3);
    assert_eq!(join(&parts, '/'), chars("a//b"));
    assert_eq!(trim(&chars(" \t a b \u{3000}")), &chars("a b")[..]);
    assert!(in_order("a", "b"));
    assert!(in_order("a", "aa"));
    assert!(!in_order("b", "a"));
}

#[test]
fn tables_hold_one_value_for_a_key() {
    let mut t: Table<String, u8> = Table::new();
    t.insert("a".into(), 1);
    t.insert("b".into(), 2);
    t.insert("a".into(), 3);
    assert_eq!(t.len(), 2);
    assert_eq!(t.get(&"a".to_string()), Some(&3));
    assert_eq!(t.remove(&"b".to_string()), Some(2));
    assert_eq!(t.remove(&"b".to_string()), None);
    assert_eq!(t.len(), 1);
}
