use loglux::cli::Mode;
use loglux::concat::GhettoConcat;
use loglux::controller::{parse_attr, select_controller, Controller};
use loglux::error::LuxError;

#[test]
fn test_parse_attr_plain() {
    assert_eq!(parse_attr(b"1200"), Some(1200));
    assert_eq!(parse_attr(b"0"), Some(0));
    assert_eq!(parse_attr(b"18446744073709551615"), Some(u64::MAX));
}

#[test]
fn test_parse_attr_padded() {
    // Attribute files end in a newline and are read into a space-padded
    // buffer.
    let mut buf = [b' '; 32];
    buf[..4].copy_from_slice(b"500\n");
    assert_eq!(parse_attr(&buf), Some(500));
    assert_eq!(parse_attr(b"\t 42 \r\n"), Some(42));
}

#[test]
fn test_parse_attr_absent() {
    assert_eq!(parse_attr(b""), None);
    assert_eq!(parse_attr(b"   \n\t"), None);
    assert_eq!(parse_attr(b"12a4"), None);
    assert_eq!(parse_attr(b"-5"), None);
    assert_eq!(parse_attr(b"4 2"), None);
    // One past u64::MAX no longer fits.
    assert_eq!(parse_attr(b"18446744073709551616"), None);
    // An oversized read full of digits overflows and parses as absent.
    assert_eq!(parse_attr(b"99999999999999999999999999999999"), None);
}

#[test]
fn test_select_picks_largest_max() {
    // Three candidate directories reading 500, 1200 and 800: the 1200 device
    // wins whatever the enumeration order.
    let orders: [Vec<Option<u64>>; 3] = [
        vec![Some(500), Some(1200), Some(800)],
        vec![Some(1200), Some(800), Some(500)],
        vec![Some(800), Some(500), Some(1200)],
    ];
    for order in &orders {
        let (i, m) = select_controller(order).expect("a controller");
        assert_eq!(m, 1200);
        assert_eq!(order[i], Some(1200));
    }
}

#[test]
fn test_select_reports_absence() {
    // All candidates missing or unparseable: absence, not an error.
    assert_eq!(select_controller(&vec![None, None, None]), None);
    assert_eq!(select_controller(&vec![]), None);
    // A maximum of zero can never be stepped on and never wins.
    assert_eq!(select_controller(&vec![Some(0), None]), None);
}

#[test]
fn test_select_tie_keeps_first() {
    let cands: Vec<Option<u64>> = vec![None, Some(800), Some(800), Some(3)];
    assert_eq!(select_controller(&cands), Some((1, 800)));
}

#[test]
fn test_mode_from_arg() {
    assert_eq!(Mode::from_arg("up"), Some(Mode::Up));
    assert_eq!(Mode::from_arg("down"), Some(Mode::Down));
    assert_eq!(Mode::from_arg("Up"), None);
    assert_eq!(Mode::from_arg("DOWN"), None);
    assert_eq!(Mode::from_arg("sideways"), None);
    assert_eq!(Mode::from_arg(""), None);
}

#[test]
fn test_controller_name() {
    let c = Controller::new(String::from("/sys/class/backlight/intel_backlight"), 100, 50, 75);
    assert_eq!(c.name(), Some("intel_backlight"));
    assert_eq!(c.path(), "/sys/class/backlight/intel_backlight");
    let trailing = Controller::new(String::from("/sys/class/backlight/"), 100, 50, 75);
    assert_eq!(trailing.name(), None);
    let bare = Controller::new(String::from("dev"), 100, 50, 75);
    assert_eq!(bare.name(), Some("dev"));
}

#[test]
fn test_controller_percent() {
    let c = Controller::new(String::from("/d"), 200, 50, 75);
    assert_eq!(c.percent(50), 25);
    assert_eq!(c.percent(0), 0);
    assert_eq!(c.percent(200), 100);
    assert_eq!(c.percent(1), 0);
}

#[test]
fn test_ghetto_concat() {
    let joined = GhettoConcat::new(b"/sys/class/backlight/", b"brightness");
    assert_eq!(joined.as_slice(), b"/sys/class/backlight/brightness");
    let empty = GhettoConcat::new(b"", b"");
    assert_eq!(empty.as_slice(), b"");
}

#[test]
fn test_lux_error_boxed() {
    let e = LuxError::boxed("could not capture tee's stdin");
    assert_eq!(e.msg(), "could not capture tee's stdin");
}
