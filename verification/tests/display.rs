use net_ifaces::control::{
    apply_feedback, opens_detail, password_checked, should_reload, status_click, stop_polling,
    target_up, toggle_action, toggle_settled, ApplyFeedback, ClickOutcome, PasswordChecked,
};
use net_ifaces::lang::{detect_lang, is_russian, LangKind};
use net_ifaces::link::Iface;
use net_ifaces::numfmt::{decimal, fmt_bytes, parse_count};

#[test]
fn parse_count_like_std() {
    for s in ["0", "+5", "-5", "", "+", " 5", "5 ", "007", "18446744073709551615",
        "18446744073709551616", "99999999999999999999", "12a", "\u{663}"] {
        assert_eq!(parse_count(s), s.parse::<u64>().ok(), "{:?}", s);
    }
}

#[test]
fn fmt_bytes_exact_values() {
    assert_eq!(fmt_bytes("0"), "0 B");
    assert_eq!(fmt_bytes("512"), "512 B");
    assert_eq!(fmt_bytes("1023"), "1023 B");
    assert_eq!(fmt_bytes("1024"), "1.0 KB");
    assert_eq!(fmt_bytes("1536"), "1.5 KB");
    assert_eq!(fmt_bytes("1280"), "1.2 KB");
    assert_eq!(fmt_bytes("1331"), "1.3 KB");
    assert_eq!(fmt_bytes("1048575"), "1024.0 KB");
    assert_eq!(fmt_bytes("1048576"), "1.0 MB");
    assert_eq!(fmt_bytes("123456789"), "117.7 MB");
    assert_eq!(fmt_bytes("1073741824"), "1.0 GB");
    assert_eq!(fmt_bytes("18446744073709551615"), "17179869184.0 GB");
}

#[test]
fn fmt_bytes_unreadable_is_zero() {
    for s in ["", "abc", "-1", " 1", "18446744073709551616", "1.5"] {
        assert_eq!(fmt_bytes(s), "0 B");
    }
}

#[test]
fn fmt_bytes_small_counts_plain() {
    for n in 0..1024u64 {
        assert_eq!(fmt_bytes(&n.to_string()), format!("{} B", n));
    }
}

#[test]
fn fmt_bytes_whole_units() {
    for k in 1..1024u64 {
        assert_eq!(fmt_bytes(&(k * 1024).to_string()), format!("{}.0 KB", k));
        assert_eq!(fmt_bytes(&(k * 1048576).to_string()), format!("{}.0 MB", k));
        assert_eq!(fmt_bytes(&(k * 1073741824).to_string()), format!("{}.0 GB", k));
    }
}

fn float_display(n: u64) -> String {
    if n >= 1_073_741_824 {
        format!("{:.1} GB", n as f64 / 1_073_741_824.0)
    } else if n >= 1_048_576 {
        format!("{:.1} MB", n as f64 / 1_048_576.0)
    } else if n >= 1024 {
        format!("{:.1} KB", n as f64 / 1024.0)
    } else {
        format!("{} B", n)
    }
}

#[test]
fn fmt_bytes_agrees_with_float_formatting() {
    let mut samples: Vec<u64> = (0..5000u64).collect();
    for k in 0..64u32 {
        let p = 1u64 << k;
        for d in [0u64, 1, 2, 51, 52, 102, 103, 205, 1023, 1024] {
            samples.push(p.wrapping_add(d));
            samples.push(p.wrapping_sub(d));
            samples.push(p.wrapping_mul(3).wrapping_add(d));
        }
    }
    for t in 0..2000u64 {
        let tie = (2 * t + 1) * 512 / 10;
        samples.push(tie);
        samples.push((2 * t + 1) * (1 << 19));
        samples.push((2 * t + 1) * (1 << 29));
    }
    let mut x: u64 = 0x9e37_79b9_7f4a_7c15;
    for _ in 0..20000 {
        x ^= x << 13;
        x ^= x >> 7;
        x ^= x << 17;
        samples.push(x);
        samples.push(x >> (x % 64));
    }
    samples.push(u64::MAX);
    samples.push((1u64 << 53) + 1);
    samples.push((1u64 << 54) + 2);
    samples.push((1u64 << 54) + 6);
    for n in samples {
        assert_eq!(fmt_bytes(&n.to_string()), float_display(n), "n = {}", n);
    }
}

#[test]
fn decimal_writes_digits() {
    assert_eq!(decimal(0), "0");
    assert_eq!(decimal(10), "10");
    assert_eq!(decimal(u128::MAX), u128::MAX.to_string());
}

#[test]
fn decimal_round_trip() {
    for n in [0u64, 9, 10, 4096, u64::MAX] {
        assert_eq!(parse_count(&decimal(n as u128)), Some(n));
    }
}

#[test]
fn lang_from_locale() {
    assert_eq!(detect_lang(&vec![Some("ru_RU.UTF-8".to_string()), None, None, None]), LangKind::Ru);
    assert_eq!(
        detect_lang(&vec![Some("en_US.UTF-8".to_string()), None, Some("RU".to_string()), None]),
        LangKind::Ru
    );
    assert_eq!(detect_lang(&vec![Some("Ru".to_string())]), LangKind::Ru);
    assert_eq!(detect_lang(&vec![Some("en_US".to_string()), Some("C".to_string())]), LangKind::En);
    assert_eq!(detect_lang(&vec![Some("r".to_string()), Some("xru".to_string())]), LangKind::En);
}

#[test]
fn unset_locale_is_english() {
    assert_eq!(detect_lang(&vec![None, None, None, None]), LangKind::En);
    assert_eq!(detect_lang(&vec![]), LangKind::En);
}

#[test]
fn russian_prefix() {
    assert!(is_russian("ru"));
    assert!(is_russian("ru_ru"));
    assert!(!is_russian("RU"));
    assert!(!is_russian("r"));
    assert!(!is_russian(""));
}

#[test]
fn toggle_goes_the_other_way() {
    assert_eq!(toggle_action(true), "down");
    assert_eq!(toggle_action(false), "up");
    assert!(!target_up(toggle_action(true)));
    assert!(target_up(toggle_action(false)));
    assert!(!target_up("UP"));
}

fn iface(name: &str, up: bool) -> Iface {
    Iface { name: name.to_string(), up, wireless: false }
}

#[test]
fn settled_by_first_match_or_absence() {
    let list = vec![iface("lo", true), iface("eth0", false), iface("eth0", true)];
    assert!(toggle_settled(&list, "eth0", false));
    assert!(!toggle_settled(&list, "eth0", true));
    assert!(toggle_settled(&list, "lo", true));
    assert!(toggle_settled(&list, "wlan0", true));
    assert!(toggle_settled(&vec![], "wlan0", false));
}

#[test]
fn status_click_outcomes() {
    assert_eq!(status_click(false, false, false, true), ClickOutcome::Ignore);
    assert_eq!(status_click(true, true, false, true), ClickOutcome::Ignore);
    assert_eq!(status_click(true, false, true, true), ClickOutcome::Ignore);
    assert_eq!(status_click(true, false, false, true), ClickOutcome::Toggle);
    assert_eq!(status_click(true, false, false, false), ClickOutcome::AskPassword);
}

#[test]
fn reload_after_ten_seconds() {
    assert!(!should_reload(10_000_000_000, false));
    assert!(should_reload(10_000_000_001, false));
    assert!(!should_reload(20_000_000_000, true));
    assert!(!should_reload(0, false));
}

#[test]
fn password_check_outcomes() {
    assert_eq!(password_checked(true), PasswordChecked { remember: true, toggle: true, close: true });
    assert_eq!(password_checked(false), PasswordChecked { remember: false, toggle: false, close: true });
}

#[test]
fn apply_feedback_messages() {
    assert_eq!(apply_feedback(""), ApplyFeedback::EnterPassword);
    assert_eq!(apply_feedback("secret"), ApplyFeedback::Checking);
    assert_eq!(apply_feedback(" "), ApplyFeedback::Checking);
}

#[test]
fn row_click_opens_detail() {
    assert!(opens_detail(true, false, false, false));
    assert!(!opens_detail(false, false, false, false));
    assert!(!opens_detail(true, true, false, false));
    assert!(!opens_detail(true, false, true, false));
    assert!(!opens_detail(true, false, false, true));
}

#[test]
fn polling_stops_when_settled_or_late() {
    assert!(stop_polling(true, 0));
    assert!(!stop_polling(false, 5_000_000_000));
    assert!(stop_polling(false, 5_000_000_001));
}
