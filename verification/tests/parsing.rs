use net_ifaces::detail::{parse_addrs, parse_detail, parse_link_kind, parse_mtu, parse_stat};
use net_ifaces::link::{is_wireless, load_ifaces, state_is_up, sysfs_wireless_paths};
use net_ifaces::text::{char_vec, line_ranges, trim_range, word_ranges};

fn pieces(v: &[char], r: &[(usize, usize)]) -> Vec<String> {
    r.iter().map(|&(a, b)| v[a..b].iter().collect()).collect()
}

#[test]
fn lines_split_at_lf_and_crlf() {
    let v = char_vec("a\r\nb\n\nc\rd\n");
    assert_eq!(pieces(&v, &line_ranges(&v)), vec!["a", "b", "", "c\rd"]);
    let v = char_vec("");
    assert!(line_ranges(&v).is_empty());
    let v = char_vec("x\ny");
    assert_eq!(pieces(&v, &line_ranges(&v)), vec!["x", "y"]);
}

#[test]
fn words_split_at_unicode_whitespace() {
    let s = "  lo\u{3000}UP\t\u{a0}x  ";
    let v = char_vec(s);
    let n = v.len();
    assert_eq!(pieces(&v, &word_ranges(&v, 0, n)), vec!["lo", "UP", "x"]);
}

#[test]
fn trim_keeps_words() {
    let s = " \t a b  \n";
    let v = char_vec(s);
    let (a, b) = trim_range(&v, 0, v.len());
    let t: String = v[a..b].iter().collect();
    assert_eq!(t, "a b");
    assert_eq!(pieces(&v, &word_ranges(&v, a, b)), pieces(&v, &word_ranges(&v, 0, v.len())));
    let v = char_vec("   ");
    let (a, b) = trim_range(&v, 0, v.len());
    assert_eq!(a, b);
}

const BRIEF: &str = "lo               UNKNOWN        00:00:00:00:00:00 <LOOPBACK,UP,LOWER_UP>\n\
eth0             UP             52:54:00:12:34:56 <BROADCAST,MULTICAST,UP,LOWER_UP>\n\
wlan0            DOWN           aa:bb:cc:dd:ee:ff <NO-CARRIER,BROADCAST,MULTICAST,UP>\n\
\n\
solo\n\
docker0          up\n\
enp3s0           DORMANT\n";

#[test]
fn load_ifaces_reads_brief_link_output() {
    let v = load_ifaces(BRIEF, &vec!["enp3s0".to_string()]);
    let rows: Vec<(&str, bool, bool)> =
        v.iter().map(|i| (i.name.as_str(), i.up, i.wireless)).collect();
    assert_eq!(
        rows,
        vec![
            ("lo", true, false),
            ("eth0", true, false),
            ("wlan0", false, true),
            ("docker0", true, false),
            ("enp3s0", false, true),
        ]
    );
}

#[test]
fn load_ifaces_upper_cases_the_state() {
    let v = load_ifaces("eth1 unknown\neth2 Up\neth3 upper\n", &vec![]);
    let ups: Vec<bool> = v.iter().map(|i| i.up).collect();
    assert_eq!(ups, vec![true, true, false]);
}

#[test]
fn load_ifaces_empty_output() {
    assert!(load_ifaces("", &vec![]).is_empty());
    assert!(load_ifaces("\n\n  \n", &vec![]).is_empty());
}

#[test]
fn iface_names_are_single_words() {
    for i in load_ifaces(BRIEF, &vec![]) {
        assert!(!i.name.is_empty());
        assert!(!i.name.chars().any(char::is_whitespace));
    }
}

#[test]
fn up_states() {
    assert!(state_is_up("UP"));
    assert!(state_is_up("UNKNOWN"));
    assert!(!state_is_up("DOWN"));
    assert!(!state_is_up("up"));
    assert!(!state_is_up(""));
}

#[test]
fn wireless_by_prefix_or_sysfs() {
    assert!(is_wireless("wlp3s0", false));
    assert!(is_wireless("wlan0", false));
    assert!(is_wireless("wifi0", false));
    assert!(is_wireless("ath9k", false));
    assert!(is_wireless("ra0", false));
    assert!(is_wireless("rainbow", false));
    assert!(!is_wireless("eth0", false));
    assert!(!is_wireless("", false));
    assert!(!is_wireless("w", false));
    assert!(is_wireless("eth0", true));
}

#[test]
fn long_prefixes_are_covered_by_wl() {
    for name in ["wlan7", "wlp0s20f3", "wlx001122"] {
        assert!(is_wireless(name, false));
        assert!(name.starts_with("wl"));
    }
}

#[test]
fn sysfs_paths() {
    let (a, b) = sysfs_wireless_paths("wlp2s0");
    assert_eq!(a, "/sys/class/net/wlp2s0/wireless");
    assert_eq!(b, "/sys/class/net/wlp2s0/phy80211");
}

const LINK: &str = "2: eth0: <BROADCAST,MULTICAST,UP,LOWER_UP> mtu 1500 qdisc fq_codel state UP mode DEFAULT group default qlen 1000\n    link/ether 52:54:00:12:34:56 brd ff:ff:ff:ff:ff:ff promiscuity 0 minmtu 68 maxmtu 65535\n    altname enp0s3\n";

const ADDR: &str = "2: eth0: <BROADCAST,MULTICAST,UP,LOWER_UP> mtu 1500 qdisc fq_codel state UP group default qlen 1000\n    link/ether 52:54:00:12:34:56 brd ff:ff:ff:ff:ff:ff\n    inet 192.168.1.10/24 brd 192.168.1.255 scope global dynamic eth0\n       valid_lft 86000sec preferred_lft 86000sec\n    inet6 fe80::5054:ff:fe12:3456/64 scope link\n       valid_lft forever preferred_lft forever\n";

const STATS: &str = "2: eth0: <BROADCAST,MULTICAST,UP,LOWER_UP> mtu 1500\n    link/ether 52:54:00:12:34:56 brd ff:ff:ff:ff:ff:ff\n    RX:\n    123456     1000     0       0       0       0\n    TX:\n    \n";

#[test]
fn parse_detail_reads_the_three_outputs() {
    let d = parse_detail(LINK, ADDR, STATS);
    assert_eq!(d.raw_link, LINK);
    assert_eq!(d.raw_addr, ADDR);
    assert_eq!(d.raw_stats, STATS);
    assert_eq!(d.mtu, "1500");
    assert_eq!(d.iface_type, "ether");
    assert_eq!(d.mac, "52:54:00:12:34:56");
    assert_eq!(d.addrs, vec!["inet 192.168.1.10/24", "inet6 fe80::5054:ff:fe12:3456/64"]);
    assert_eq!(d.rx_bytes, "123456");
    assert_eq!(d.tx_bytes, "0");
}

#[test]
fn parse_detail_of_empty_outputs() {
    let d = parse_detail("", "", "");
    assert_eq!(d.mtu, "");
    assert_eq!(d.iface_type, "");
    assert_eq!(d.mac, "");
    assert!(d.addrs.is_empty());
    assert_eq!(d.rx_bytes, "");
    assert_eq!(d.tx_bytes, "");
}

#[test]
fn mtu_last_one_wins_and_may_be_empty() {
    assert_eq!(parse_mtu("a mtu 1500\nb mtu 9000 minmtu 1"), "9000");
    assert_eq!(parse_mtu("a mtu 1500\nx y mtu"), "");
    assert_eq!(parse_mtu("minmtu 68 maxmtu 1"), "");
}

#[test]
fn link_kind_strips_every_link_prefix() {
    assert_eq!(
        parse_link_kind("  link/link/loopback 00:00 brd 00:00\n"),
        ("loopback".to_string(), "00:00".to_string())
    );
    assert_eq!(parse_link_kind("link/ether\n"), (String::new(), String::new()));
    assert_eq!(
        parse_link_kind("link/ether aa\nlink/none bb\n"),
        ("none".to_string(), "bb".to_string())
    );
    assert_eq!(parse_link_kind("x link/ether aa\n"), (String::new(), String::new()));
}

#[test]
fn addrs_need_the_family_and_a_second_word() {
    assert_eq!(parse_addrs("inet 10.0.0.1/8\ninet\ninet6x 1\n  inet6   ::1/128  scope host"),
        vec!["inet 10.0.0.1/8", "inet6 ::1/128"]);
    assert!(parse_addrs("inetx 1 2\n").is_empty());
}

#[test]
fn stat_after_label() {
    assert_eq!(parse_stat("RX:\n 5 6\nRX:\n 7\n", "RX:"), "7");
    assert_eq!(parse_stat("RX:\n", "RX:"), "");
    assert_eq!(parse_stat("  RX:  \n\n", "RX:"), "0");
    assert_eq!(parse_stat("RX: bytes\n 5\n", "RX:"), "");
}

fn rows(v: Vec<net_ifaces::link::Iface>) -> Vec<(String, bool, bool)> {
    v.into_iter().map(|i| (i.name, i.up, i.wireless)).collect()
}

#[test]
fn joined_outputs_list_both() {
    let sys = vec!["eth1".to_string()];
    for (a, b) in [
        ("lo UNKNOWN\neth0 UP", "eth1 DOWN\n"),
        ("lo UNKNOWN\r", "eth1 DOWN"),
        ("", "eth1 DOWN"),
        ("lo UNKNOWN\n", ""),
        ("lo\neth0 UP x\n\n", "wl0 up\r\neth1 DOWN"),
    ] {
        let joined = format!("{}\n{}", a, b);
        let mut expected = rows(load_ifaces(a, &sys));
        expected.extend(rows(load_ifaces(b, &sys)));
        assert_eq!(rows(load_ifaces(&joined, &sys)), expected, "{:?} {:?}", a, b);
    }
}
