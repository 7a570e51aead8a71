use prismerge::utils::{format_duration, format_seconds};
use std::time::Duration;

#[test]
fn format_duration_seconds() {
    assert!(format_duration(&Duration::from_secs(5)) == "0m05s");
    assert!(format_duration(&Duration::from_secs(59)) == "0m59s");
}

#[test]
fn format_duration_minutes() {
    assert!(format_duration(&Duration::from_secs(60)) == "1m00s");
    assert!(format_duration(&Duration::from_secs(61)) == "1m01s");
    assert!(format_duration(&Duration::from_secs(119)) == "1m59s");
}

#[test]
fn format_duration_hours() {
    assert!(format_duration(&Duration::from_secs(3600)) == "1h00m00s");
    assert!(format_duration(&Duration::from_secs(3601)) == "1h00m01s");
    assert!(format_duration(&Duration::from_secs(3660)) == "1h01m00s");
    assert!(format_duration(&Duration::from_secs(3659)) == "1h00m59s");
    assert!(format_duration(&Duration::from_secs(3661)) == "1h01m01s");
    assert!(format_duration(&Duration::from_secs(4200)) == "1h10m00s");
    assert!(format_duration(&Duration::from_secs(4201)) == "1h10m01s");
    assert!(format_duration(&Duration::from_secs(4259)) == "1h10m59s");
}

#[test]
fn format_duration_drops_the_fraction() {
    assert_eq!(format_duration(&Duration::from_millis(61_999)), "1m01s");
    assert_eq!(format_duration(&Duration::from_millis(999)), "0m00s");
}

#[test]
fn format_seconds_many_hours() {
    assert_eq!(format_seconds(0), "0m00s");
    assert_eq!(format_seconds(360_000), "100h00m00s");
    assert_eq!(format_seconds(u64::MAX), "5124095576030431h00m15s");
}
