use rucimp::api::{conn_info_text, conn_infos_text, flux_text, get_status, last_cid_text};
use rucimp::bits::bools_to_bytes;
use rucimp::text::{split_char, split_lines};
use rucimp::tls::{alpn_protocols, ClientOptions};

#[test]
fn status_is_running() {
    assert_eq!(get_status().status, "running");
}

#[test]
fn split_matches_str_split() {
    for s in ["", "a", "a,b", ",", "a,,b,"] {
        let want: Vec<&str> = s.split(',').collect();
        assert_eq!(split_char(s, ','), want);
    }
    assert_eq!(split_lines("x\ny"), vec!["x", "y"]);
}

#[test]
fn alpn_names_as_bytes() {
    let names = vec!["h2".to_string(), "http/1.1".to_string()];
    assert_eq!(alpn_protocols(&names), vec![b"h2".to_vec(), b"http/1.1".to_vec()]);
    let o = ClientOptions { is_insecure: true, alpn: None };
    assert!(o.alpn_bytes().is_none());
}

#[test]
fn bits_pack_partial_last_byte() {
    assert_eq!(bools_to_bytes(vec![false, true]), vec![0x40]);
    assert_eq!(bools_to_bytes(vec![true; 9]), vec![0xff, 0x80]);
}

#[test]
fn connection_replies() {
    let entries = vec![
        ("1".to_string(), "a".to_string()),
        ("2".to_string(), "b c".to_string()),
    ];
    assert_eq!(conn_infos_text(&entries), "1 , a\n2 , b c\n");
    assert_eq!(conn_infos_text(&vec![]), "");
    assert_eq!(conn_info_text(None), "None");
    assert_eq!(conn_info_text(Some(("7".to_string(), "x".to_string()))), "7 , x");
    assert_eq!(last_cid_text(None), "");
    assert_eq!(last_cid_text(Some("9".to_string())), "9");
}

#[test]
fn traffic_record_reply() {
    assert_eq!(flux_text(&vec![(15, 300), (0, 7)]), "{ -15 ms , 300 },\n{ -0 ms , 7 },\n");
}
