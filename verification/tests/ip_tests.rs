use rucimp::ip::{ip_text, ipv4_text, ipv6_text};

/// Text, whether it is IPv4 text, whether it is IPv6 text.
const CASES: &[(&str, bool, bool)] = &[
    ("", false, false),
    ("1.2.3.4", true, false),
    ("0.0.0.0", true, false),
    ("255.255.255.255", true, false),
    ("256.1.1.1", false, false),
    ("1.2.3", false, false),
    ("1.2.3.4.5", false, false),
    ("01.2.3.4", false, false),
    ("00.1.2.3", false, false),
    ("1..2.3", false, false),
    ("1.2.3.4 ", false, false),
    ("+1.2.3.4", false, false),
    ("1.2.3.0004", false, false),
    ("127.000.0.1", false, false),
    ("::", false, true),
    ("::1", false, true),
    ("1::", false, true),
    ("1::2", false, true),
    (":1", false, false),
    ("1:", false, false),
    (":::", false, false),
    ("1:::2", false, false),
    ("1::2::3", false, false),
    ("1:2:3:4:5:6:7:8", false, true),
    ("1:2:3:4:5:6:7:8:9", false, false),
    ("1:2:3:4:5:6:7", false, false),
    ("1:2:3:4:5:6:7::", false, true),
    ("::2:3:4:5:6:7:8", false, true),
    ("1::3:4:5:6:7:8", false, true),
    ("1::2:3:4:5:6:7:8", false, false),
    ("1:2:3:4:5:6:1.2.3.4", false, true),
    ("::1.2.3.4", false, true),
    ("::ffff:1.2.3.4", false, true),
    ("1:2:3:4:5:1.2.3.4", false, false),
    ("1.2.3.4::", false, false),
    ("::1.2.3.4:1", false, false),
    ("1:2:3:4:5::1.2.3.4", false, true),
    ("1:2:3:4:5:6::1.2.3.4", false, false),
    ("1:2:3:4:5:6:7:1.2.3.4", false, false),
    ("fe80::1", false, true),
    ("FE80::ABCD", false, true),
    ("12345::", false, false),
    ("g::1", false, false),
    ("::1%eth0", false, false),
    ("[::1]", false, false),
    ("abcd:ef01:2345:6789:abcd:ef01:2345:6789", false, true),
    ("::256.0.0.0", false, false),
];

#[test]
fn ip_text_follows_address_grammar() {
    for (s, v4, v6) in CASES {
        assert_eq!(ipv4_text(s), *v4, "{s:?}");
        assert_eq!(ipv6_text(s), *v6, "{s:?}");
        assert_eq!(ip_text(s), *v4 || *v6, "{s:?}");
    }
}
