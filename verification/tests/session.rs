use p2p_screenshare::session::{
    current_code, decode, decode_code, encode, idx_of, local_lan_ip, LocalAddr,
};

#[test]
fn codes_of_known_addresses() {
    assert_eq!(encode([192, 168, 1, 5], 9000), "2CWAC-BKDFA");
    assert_eq!(encode([0, 0, 0, 0], 0), "AAAAA-AAAAA");
    assert_eq!(encode([255, 255, 255, 255], 65535), "99999-99996");
    assert_eq!(encode([127, 0, 0, 1], 1), "R6AAA-AJAAE");
}

#[test]
fn codes_are_read_back() {
    for ip in [[0u8, 0, 0, 0], [10, 0, 0, 42], [192, 168, 1, 5], [255, 254, 253, 252]] {
        for port in [1u16, 80, 9000, 65535] {
            assert_eq!(decode(&encode(ip, port)), Some((ip, port)));
        }
    }
}

#[test]
fn code_for_port_zero_leads_nowhere() {
    assert_eq!(encode([10, 0, 0, 42], 0), "BJAAA-LSAAA");
    assert_eq!(decode("BJAAA-LSAAA"), None);
}

#[test]
fn codes_may_be_grouped_and_capitalised_at_will() {
    let wanted = Some(([192, 168, 1, 5], 9000));
    assert_eq!(decode("2CWACBKDFA"), wanted);
    assert_eq!(decode("2cwac-bkdfa"), wanted);
    assert_eq!(decode("  2cW_aC bK-dF\tA\n"), wanted);
    assert_eq!(decode("2CWAC\u{a0}BKDFA"), wanted);
}

#[test]
fn codes_of_the_wrong_length_are_refused() {
    assert_eq!(decode(""), None);
    assert_eq!(decode("2CWAC-BKDF"), None);
    assert_eq!(decode("2CWAC-BKDFAA"), None);
}

#[test]
fn codes_with_other_characters_are_refused() {
    assert_eq!(decode("0CWAC-BKDFA"), None);
    assert_eq!(decode("2CWAC-BKD1A"), None);
    assert_eq!(decode("2CWAC.BKDFA"), None);
}

#[test]
fn codes_differ_when_addresses_do() {
    let mut seen: Vec<String> = Vec::new();
    for last in 0u8..=20 {
        for port in [9000u16, 9001] {
            let code = encode([10, 0, 0, last], port);
            assert!(!seen.contains(&code));
            seen.push(code);
        }
    }
}

#[test]
fn code_shape_is_two_groups_of_five() {
    let code = encode([172, 16, 254, 3], 443);
    assert_eq!(code.len(), 11);
    assert_eq!(code.chars().nth(5), Some('-'));
    assert!(code.chars().all(|c| !matches!(c, '0' | '1' | 'I' | 'O')));
}

#[test]
fn values_of_symbols() {
    let alphabet = "ABCDEFGHJKLMNPQRSTUVWXYZ23456789";
    for (k, c) in alphabet.chars().enumerate() {
        assert_eq!(idx_of(c), Some(k as u32));
        assert_eq!(idx_of(c.to_ascii_lowercase()), Some(k as u32));
    }
    for c in ['0', '1', 'I', 'i', 'O', 'o', '-', ' '] {
        assert_eq!(idx_of(c), None);
    }
}

#[test]
fn only_the_low_byte_of_a_character_counts() {
    assert_eq!(idx_of('\u{141}'), Some(0));
    assert_eq!(idx_of('\u{149}'), None);
}

#[test]
fn addresses_that_are_of_use_to_a_peer() {
    assert_eq!(local_lan_ip(Some(LocalAddr::V4([192, 168, 1, 5]))), Some([192, 168, 1, 5]));
    assert_eq!(local_lan_ip(Some(LocalAddr::V4([0, 0, 0, 1]))), Some([0, 0, 0, 1]));
    assert_eq!(local_lan_ip(Some(LocalAddr::V4([127, 0, 0, 1]))), None);
    assert_eq!(local_lan_ip(Some(LocalAddr::V4([127, 9, 9, 9]))), None);
    assert_eq!(local_lan_ip(Some(LocalAddr::V4([0, 0, 0, 0]))), None);
    assert_eq!(local_lan_ip(Some(LocalAddr::V6)), None);
    assert_eq!(local_lan_ip(None), None);
}

#[test]
fn current_code_needs_an_address() {
    assert_eq!(current_code(Some([192, 168, 1, 5]), 9000), Some("2CWAC-BKDFA".to_string()));
    assert_eq!(current_code(None, 9000), None);
}

#[test]
fn decoded_code_is_a_dotted_address() {
    let addr = decode_code("2cwac bkdfa").unwrap();
    assert_eq!(addr.host, "192.168.1.5");
    assert_eq!(addr.port, 9000);
    assert!(decode_code("nonsense").is_none());
}
