use hyprconfig::display::{modes_for_monitor, parse_available_modes, parse_monitor_modes, DisplayMode};
use hyprconfig::number::Decimal;

#[test]
fn modes_skip_malformed_tokens() {
    let modes = parse_available_modes("1920x1080@60.00Hz bogus 2560x1440@75Hz");
    assert_eq!(
        modes,
        vec![
            DisplayMode { width: 1920, height: 1080, refresh_rate: Decimal { digits: 6000, scale: 2 } },
            DisplayMode { width: 2560, height: 1440, refresh_rate: Decimal { digits: 75, scale: 0 } },
        ]
    );
}

#[test]
fn modes_reject_bad_numbers() {
    assert!(parse_available_modes("70000x1080@60Hz 1920xabc@60Hz 1920x1080@fastHz 1920x1080").is_empty());
    assert!(parse_available_modes("").is_empty());
}

#[test]
fn modes_keep_order_and_repeats() {
    let modes = parse_available_modes("  2560x1600@240.00Hz\t2560x1600@60.00Hz 800x600@59.94Hz ");
    let rates: Vec<Decimal> = modes.iter().map(|m| m.refresh_rate).collect();
    assert_eq!(
        rates,
        vec![
            Decimal { digits: 24000, scale: 2 },
            Decimal { digits: 6000, scale: 2 },
            Decimal { digits: 5994, scale: 2 },
        ]
    );
}

const MONITORS: &str = "Monitor eDP-1 (ID 0):
\t2560x1600@240.00000 at 0x0
\tdescription: Built-in display
\tavailableModes: 2560x1600@240.00Hz 2560x1600@60.00Hz
Monitor HDMI-A-1 (ID 1):
\tavailableModes: 1920x1080@60Hz
";

#[test]
fn monitor_report_lookup() {
    let table = parse_monitor_modes(MONITORS);
    assert_eq!(table.len(), 2);
    assert_eq!(table[0].name, "eDP-1");
    let edp = modes_for_monitor(&table, "eDP-1");
    assert_eq!(edp.len(), 2);
    assert_eq!(edp[0], DisplayMode { width: 2560, height: 1600, refresh_rate: Decimal { digits: 24000, scale: 2 } });
    let hdmi = modes_for_monitor(&table, "HDMI-A-1");
    assert_eq!(hdmi, vec![DisplayMode { width: 1920, height: 1080, refresh_rate: Decimal { digits: 60, scale: 0 } }]);
    assert!(modes_for_monitor(&table, "DP-2").is_empty());
}

#[test]
fn monitor_report_modes_before_any_header_are_ignored() {
    let table = parse_monitor_modes("availableModes: 1920x1080@60Hz\n");
    assert!(table.is_empty());
}

#[test]
fn monitor_report_later_listing_wins() {
    let table = parse_monitor_modes("Monitor A (ID 0):\navailableModes: 800x600@60Hz\nMonitor A (ID 0):\navailableModes: 1024x768@75Hz\n");
    let modes = modes_for_monitor(&table, "A");
    assert_eq!(modes, vec![DisplayMode { width: 1024, height: 768, refresh_rate: Decimal { digits: 75, scale: 0 } }]);
}

#[test]
fn modes_require_hz_suffix() {
    assert!(parse_available_modes("1920x1080@60").is_empty());
    assert!(parse_available_modes("1x1@1").is_empty());
    assert!(parse_available_modes("1920x1080@60HzHz").is_empty());
    assert!(parse_available_modes("1920x1080@Hz").is_empty());
    let modes = parse_available_modes("1920x1080@60 1280x720@50Hz");
    assert_eq!(modes, vec![DisplayMode { width: 1280, height: 720, refresh_rate: Decimal { digits: 50, scale: 0 } }]);
}
