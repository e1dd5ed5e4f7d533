use stand_control_bot::text::{format_duration, format_ip};
use stand_control_bot::web::{Days, Hours};

#[test]
fn ip_renders_as_dotted_quad() {
    assert_eq!(format_ip(0x0A000001), "10.0.0.1");
    assert_eq!(format_ip(0), "0.0.0.0");
    assert_eq!(format_ip(u32::MAX), "255.255.255.255");
}

#[test]
fn duration_renders_days_hours_minutes() {
    // 1 day, 2 hours, 3 minutes.
    let d = 86400 + 2 * 3600 + 3 * 60;
    assert_eq!(format_duration(d), "1 days, 2 hours, 3 minutes");
    assert_eq!(format_duration(0), "0 days, 0 hours, 0 minutes");
    assert_eq!(format_duration(59), "0 days, 0 hours, 0 minutes");
}

#[test]
fn negative_duration_carries_signs() {
    assert_eq!(format_duration(-90000), "-1 days, -1 hours, 0 minutes");
    assert_eq!(format_duration(-3600), "0 days, -1 hours, 0 minutes");
}

#[test]
fn days_accepts_range_and_rejects_rest() {
    assert!(matches!(Days::try_from("0".to_string()), Ok(Days(0))));
    assert!(matches!(Days::try_from("63".to_string()), Ok(Days(63))));
    assert!(matches!(Days::try_from("+5".to_string()), Ok(Days(5))));
    assert_eq!(
        Days::try_from("64".to_string()).unwrap_err(),
        "Value must be between 0 and 63"
    );
    assert_eq!(
        Days::try_from("abc".to_string()).unwrap_err(),
        "Wrong value abc, can not parse as u8"
    );
    assert_eq!(
        Days::try_from("-1".to_string()).unwrap_err(),
        "Wrong value -1, can not parse as u8"
    );
    assert_eq!(
        Days::try_from("999".to_string()).unwrap_err(),
        "Wrong value 999, can not parse as u8"
    );
}

#[test]
fn hours_accepts_range_and_rejects_rest() {
    assert!(matches!(Hours::try_from("23".to_string()), Ok(Hours(23))));
    assert_eq!(
        Hours::try_from("24".to_string()).unwrap_err(),
        "Value must be between 0 and 23"
    );
    assert_eq!(
        Hours::try_from("".to_string()).unwrap_err(),
        "Wrong value , can not parse as u8"
    );
}
