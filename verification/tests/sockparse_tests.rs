use ipcow::sockparse::{parse_ip_input, parse_port_input, try_parse_ip_input, try_parse_port_input};

fn ip(a: u32, b: u32, c: u32, d: u32) -> u32 {
    (a << 24) | (b << 16) | (c << 8) | d
}

#[test]
fn port_range_is_inclusive() {
    assert_eq!(parse_port_input("8000-8010"), (8000u16..=8010).collect::<Vec<u16>>());
}

#[test]
fn port_range_up_to_the_last_port() {
    assert_eq!(parse_port_input("65534-65535"), vec![65534, 65535]);
}

#[test]
fn port_range_reversed_is_empty() {
    assert_eq!(parse_port_input("90-80"), Vec::<u16>::new());
}

#[test]
fn port_dash_with_three_pieces_is_empty() {
    assert_eq!(parse_port_input("1-2-3"), Vec::<u16>::new());
}

#[test]
fn port_list_is_trimmed() {
    assert_eq!(parse_port_input("80, 443, 8080"), vec![80, 443, 8080]);
    assert_eq!(parse_port_input("1,\t2 ,5"), vec![1, 2, 5]);
}

#[test]
fn port_single() {
    assert_eq!(parse_port_input("8080"), vec![8080]);
    assert_eq!(parse_port_input("+22"), vec![22]);
    assert_eq!(parse_port_input("0080"), vec![80]);
}

#[test]
fn port_errors() {
    assert!(try_parse_port_input("65536").is_none());
    assert!(try_parse_port_input("").is_none());
    assert!(try_parse_port_input(" 80").is_none());
    assert!(try_parse_port_input("80 - 90").is_none());
    assert!(try_parse_port_input("80,abc").is_none());
    assert!(try_parse_port_input("+").is_none());
    assert!(try_parse_port_input("-5").is_none());
}

#[test]
fn ip_single() {
    assert_eq!(parse_ip_input("192.168.1.1"), vec![ip(192, 168, 1, 1)]);
    assert_eq!(parse_ip_input("0.0.0.0"), vec![0]);
    assert_eq!(parse_ip_input("255.255.255.255"), vec![u32::MAX]);
}

#[test]
fn ip_single_invalid_is_empty() {
    assert_eq!(parse_ip_input("192.168.1.01"), Vec::<u32>::new());
    assert_eq!(parse_ip_input("256.1.1.1"), Vec::<u32>::new());
    assert_eq!(parse_ip_input("1.2.3"), Vec::<u32>::new());
    assert_eq!(parse_ip_input("hello"), Vec::<u32>::new());
    assert_eq!(parse_ip_input(""), Vec::<u32>::new());
}

#[test]
fn ip_range() {
    let r = parse_ip_input("192.168.1.250-192.168.2.3");
    let expected: Vec<u32> = (ip(192, 168, 1, 250)..=ip(192, 168, 2, 3)).collect();
    assert_eq!(r, expected);
    assert_eq!(r.len(), 10);
}

#[test]
fn ip_range_single_address() {
    assert_eq!(parse_ip_input("10.0.0.1-10.0.0.1"), vec![ip(10, 0, 0, 1)]);
}

#[test]
fn ip_range_errors() {
    assert!(try_parse_ip_input("10.0.0.2-10.0.0.1").is_none());
    assert!(try_parse_ip_input("10.0.0.1-10.0.0").is_none());
    assert_eq!(try_parse_ip_input("1.1.1.1-2.2.2.2-3.3.3.3"), Some(vec![]));
}

#[test]
fn ip_cidr_block() {
    let r = parse_ip_input("192.168.1.0/30");
    assert_eq!(r, vec![ip(192, 168, 1, 0), ip(192, 168, 1, 1), ip(192, 168, 1, 2), ip(192, 168, 1, 3)]);
}

#[test]
fn ip_cidr_block_starts_at_the_network_address() {
    let r = parse_ip_input("10.10.1.97/23");
    assert_eq!(r.len(), 512);
    assert_eq!(r[0], ip(10, 10, 0, 0));
    assert_eq!(r[511], ip(10, 10, 1, 255));
}

#[test]
fn ip_cidr_with_netmask() {
    let r = parse_ip_input("172.16.0.9/255.255.255.252");
    assert_eq!(r, vec![ip(172, 16, 0, 8), ip(172, 16, 0, 9), ip(172, 16, 0, 10), ip(172, 16, 0, 11)]);
}

#[test]
fn ip_cidr_single_host() {
    assert_eq!(parse_ip_input("8.8.8.8/32"), vec![ip(8, 8, 8, 8)]);
}

#[test]
fn ip_cidr_errors() {
    assert!(try_parse_ip_input("10.0.0.0/33").is_none());
    assert!(try_parse_ip_input("10.0.0.0/8/8").is_none());
    assert!(try_parse_ip_input("10.0.0/8").is_none());
    assert!(try_parse_ip_input("10.0.0.0/0").is_none());
    assert!(try_parse_ip_input("10.0.0.0/255.0.255.0").is_none());
    assert!(try_parse_ip_input("10.0.0.0/0.0.0.0").is_none());
    assert!(try_parse_ip_input("10.0.0.0/").is_none());
    assert!(try_parse_ip_input("10.0.0.0/ 8").is_none());
}

#[test]
fn ip_cidr_prefix_forms() {
    assert_eq!(parse_ip_input("10.0.0.5/+31"), vec![ip(10, 0, 0, 4), ip(10, 0, 0, 5)]);
    assert_eq!(parse_ip_input("10.0.0.5/031"), vec![ip(10, 0, 0, 4), ip(10, 0, 0, 5)]);
    assert_eq!(parse_ip_input("10.0.0.5/255.255.255.255"), vec![ip(10, 0, 0, 5)]);
}

#[test]
fn ip_input_ignores_case() {
    for s in ["127.0.0.x", "10.x.1.X", "10.0.0.0/30", "1.2.3.4-1.2.3.9", "8.8.8.8", "abc"] {
        assert_eq!(try_parse_ip_input(s), try_parse_ip_input(&s.to_uppercase()));
    }
}

#[test]
fn ip_wildcard_last_octet_skips_dot_zero() {
    let r = parse_ip_input("192.168.1.X");
    let expected: Vec<u32> = (1..=255).map(|d| ip(192, 168, 1, d)).collect();
    assert_eq!(r, expected);
}

#[test]
fn ip_wildcard_lower_case() {
    let r = parse_ip_input("10.0.x.1");
    let expected: Vec<u32> = (0..=255).map(|c| ip(10, 0, c, 1)).collect();
    assert_eq!(r, expected);
}

#[test]
fn ip_wildcard_fixed_zero_last_octet() {
    assert_eq!(parse_ip_input("10.0.X.0"), Vec::<u32>::new());
}

#[test]
fn ip_wildcard_two_groups() {
    let r = parse_ip_input("10.X.X.7");
    assert_eq!(r.len(), 256 * 256);
    assert_eq!(r[0], ip(10, 0, 0, 7));
    assert_eq!(r[1], ip(10, 0, 1, 7));
    assert_eq!(r[256], ip(10, 1, 0, 7));
    assert!(r.windows(2).all(|w| w[0] < w[1]));
}

#[test]
fn ip_wildcard_accepts_what_u8_parsing_accepts() {
    assert_eq!(parse_ip_input("010.+1.X.1").len(), 256);
    assert_eq!(parse_ip_input("010.+1.X.1")[0], ip(10, 1, 0, 1));
}

#[test]
fn ip_wildcard_errors() {
    assert!(try_parse_ip_input("10.X.1").is_none());
    assert!(try_parse_ip_input("10.XX.1.1").is_none());
    assert!(try_parse_ip_input("300.X.1.1").is_none());
}

#[test]
fn every_port_text_reads_back() {
    for p in 0..=u16::MAX {
        assert_eq!(parse_port_input(&p.to_string()), vec![p]);
    }
}

#[test]
fn port_range_text_reads_back() {
    for (a, b) in [(0u16, 3u16), (79, 81), (65533, 65535), (5, 5), (9, 2)] {
        let expected: Vec<u16> = (a..=b).collect();
        assert_eq!(parse_port_input(&format!("{}-{}", a, b)), expected);
    }
}
