use telegram_obsidian::note::message_local_time;

#[test]
fn message_times_are_local() {
    let (day, time) = message_local_time(0, &chrono_tz::Tz::UTC);
    assert_eq!(day, "1970-01-01");
    assert_eq!(time, "00:00");
    let (day, time) = message_local_time(1_700_000_000, &chrono_tz::Europe::Moscow);
    assert_eq!(day, "2023-11-15");
    assert_eq!(time, "01:13");
}

#[test]
fn unrepresentable_dates_fall_back_to_now() {
    let (day, time) = message_local_time(i64::MAX, &chrono_tz::Tz::UTC);
    assert_eq!(time.chars().count(), 5);
    assert_eq!(day.chars().count(), 10);
    let d: Vec<char> = day.chars().collect();
    assert!(d[4] == '-' && d[7] == '-');
    assert!(d.iter().enumerate().all(|(i, c)| i == 4 || i == 7 || c.is_ascii_digit()));
    let t: Vec<char> = time.chars().collect();
    assert!(t[2] == ':' && t[0].is_ascii_digit() && t[4].is_ascii_digit());
}
