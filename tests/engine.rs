use adzan_reminder::notify::{is_muted, prayer_times, Action, Scheduler};
use adzan_reminder::schedule::{
    due_prayer, next_prayer, parse_time, Clock, HourMinute, Prayer, PrayerTime, PrayerTimes,
};
use adzan_reminder::settings::read_all;

fn at(hour: u8, minute: u8, second: u8) -> Clock {
    Clock { hour, minute, second }
}

fn times(a: &str, b: &str, c: &str, d: &str, e: &str) -> PrayerTimes {
    PrayerTimes {
        shubuh: a.to_string(),
        dzuhur: b.to_string(),
        ashar: c.to_string(),
        maghrib: d.to_string(),
        isya: e.to_string(),
    }
}

fn day() -> Vec<PrayerTime> {
    times("05:00", "12:15", "15:30", "18:10", "19:30").schedule()
}

const SETTINGS: &str = "[location]\nid = 1301\nname = KOTA JAKARTA\ngmt = +7\n\n[adzan]\nshubuh = 05:00\ndzuhur = 12:15\nashar = 15:30\nmaghrib = 18:10\nisya = 19:30\n";

#[test]
fn schedule_parses_five_times() {
    let s = day();
    assert_eq!(s.len(), 5);
    assert_eq!(s[0], PrayerTime { name: Prayer::Fajr, time: HourMinute { hour: 5, minute: 0 } });
    assert_eq!(s[1], PrayerTime { name: Prayer::Dhuhr, time: HourMinute { hour: 12, minute: 15 } });
    assert_eq!(s[4], PrayerTime { name: Prayer::Isha, time: HourMinute { hour: 19, minute: 30 } });
}

#[test]
fn unparseable_times_are_left_out() {
    let s = times("05:00", "", "25:00", "ab:cd", "19:30").schedule();
    assert_eq!(s.len(), 2);
    assert_eq!(s[0].name, Prayer::Fajr);
    assert_eq!(s[1].name, Prayer::Isha);
}

#[test]
fn parse_time_reads_hours_and_minutes() {
    assert_eq!(parse_time("04:37"), Some(HourMinute { hour: 4, minute: 37 }));
    assert_eq!(parse_time("23:59"), Some(HourMinute { hour: 23, minute: 59 }));
    assert_eq!(parse_time("24:00"), None);
    assert_eq!(parse_time("12:60"), None);
    assert_eq!(parse_time(""), None);
}

#[test]
fn dhuhr_is_due_once_in_its_minute() {
    let s = day();
    let mut sched = Scheduler::new();
    let settings = read_all(SETTINGS);
    assert_eq!(due_prayer(&s, at(12, 15, 30), None), Some(Prayer::Dhuhr));
    let first = sched.tick(&settings, at(12, 15, 30));
    assert_eq!(first.action, Action::Play(Prayer::Dhuhr));
    for sec in 31..60u8 {
        let later = sched.tick(&settings, at(12, 15, sec));
        assert_eq!(later.action, Action::Idle);
    }
    let next = next_prayer(&s, at(12, 16, 0)).unwrap();
    assert_eq!(next.prayer.name, Prayer::Asr);
    assert!(!next.tomorrow);
}

#[test]
fn after_isha_next_is_fajr_tomorrow() {
    let s = day();
    let next = next_prayer(&s, at(20, 0, 0)).unwrap();
    assert_eq!(next.prayer.name, Prayer::Fajr);
    assert_eq!(next.index, 0);
    assert!(next.tomorrow);
}

#[test]
fn next_prayer_is_smallest_later_time() {
    let s = day();
    assert_eq!(next_prayer(&s, at(0, 0, 0)).unwrap().prayer.name, Prayer::Fajr);
    assert_eq!(next_prayer(&s, at(5, 0, 0)).unwrap().prayer.name, Prayer::Dhuhr);
    assert_eq!(next_prayer(&s, at(4, 59, 59)).unwrap().prayer.name, Prayer::Fajr);
    assert_eq!(next_prayer(&s, at(15, 29, 0)).unwrap().prayer.name, Prayer::Asr);
    assert_eq!(next_prayer(&s, at(19, 29, 59)).unwrap().prayer.name, Prayer::Isha);
    let late = next_prayer(&s, at(19, 30, 0)).unwrap();
    assert_eq!(late.prayer.name, Prayer::Fajr);
    assert!(late.tomorrow);
}

#[test]
fn next_prayer_does_not_depend_on_order() {
    let mut s = day();
    s.reverse();
    let next = next_prayer(&s, at(13, 0, 0)).unwrap();
    assert_eq!(next.prayer.name, Prayer::Asr);
    let wrap = next_prayer(&s, at(21, 0, 0)).unwrap();
    assert_eq!(wrap.prayer.name, Prayer::Fajr);
    assert!(wrap.tomorrow);
}

#[test]
fn empty_schedule_has_no_next_prayer() {
    let s: Vec<PrayerTime> = Vec::new();
    assert!(next_prayer(&s, at(12, 0, 0)).is_none());
    assert_eq!(due_prayer(&s, at(12, 0, 0), None), None);
}

#[test]
fn due_only_in_the_matching_minute() {
    let s = day();
    assert_eq!(due_prayer(&s, at(12, 14, 59), None), None);
    assert_eq!(due_prayer(&s, at(12, 15, 0), None), Some(Prayer::Dhuhr));
    assert_eq!(due_prayer(&s, at(12, 15, 59), None), Some(Prayer::Dhuhr));
    assert_eq!(due_prayer(&s, at(12, 16, 0), None), None);
    assert_eq!(due_prayer(&s, at(12, 15, 10), Some(Prayer::Dhuhr)), None);
    assert_eq!(due_prayer(&s, at(15, 30, 10), Some(Prayer::Dhuhr)), Some(Prayer::Asr));
}

#[test]
fn muted_prayer_is_silenced_and_marked() {
    let text = format!("{}\n[audio]\nashar_audio = off\n", SETTINGS);
    let settings = read_all(&text);
    assert!(is_muted(&settings, Prayer::Asr));
    assert!(!is_muted(&settings, Prayer::Dhuhr));
    let mut sched = Scheduler::new();
    let out = sched.tick(&settings, at(15, 30, 0));
    assert_eq!(out.action, Action::Silenced(Prayer::Asr));
    assert_eq!(sched.last_fired, Some(Prayer::Asr));
    assert_eq!(sched.tick(&settings, at(15, 30, 1)).action, Action::Idle);
}

#[test]
fn mute_flag_ignores_case_and_space() {
    let settings = read_all("[audio]\nisya_audio =  OFF \nmaghrib_audio = on\n");
    assert!(is_muted(&settings, Prayer::Isha));
    assert!(!is_muted(&settings, Prayer::Maghrib));
    assert!(!is_muted(&settings, Prayer::Fajr));
}

#[test]
fn tick_reports_next_prayer() {
    let settings = read_all(SETTINGS);
    let mut sched = Scheduler::new();
    let out = sched.tick(&settings, at(13, 0, 0));
    assert_eq!(out.next.unwrap().prayer.name, Prayer::Asr);
    assert_eq!(out.action, Action::Idle);
    assert_eq!(sched.last_tick, Some(at(13, 0, 0)));
}

#[test]
fn tick_without_settings_does_nothing() {
    let settings = read_all("");
    let mut sched = Scheduler::new();
    let out = sched.tick(&settings, at(5, 0, 0));
    assert!(out.next.is_none());
    assert_eq!(out.action, Action::Idle);
}

#[test]
fn marker_clears_after_midnight() {
    let text = "[adzan]\nshubuh = 00:00\n";
    let settings = read_all(text);
    let mut sched = Scheduler::new();
    assert_eq!(sched.tick(&settings, at(0, 0, 5)).action, Action::Play(Prayer::Fajr));
    assert_eq!(sched.tick(&settings, at(23, 59, 59)).action, Action::Idle);
    assert_eq!(sched.last_fired, Some(Prayer::Fajr));
    assert_eq!(sched.tick(&settings, at(0, 0, 0)).action, Action::Play(Prayer::Fajr));
}

#[test]
fn prayer_times_read_from_settings() {
    let settings = read_all(SETTINGS);
    let t = prayer_times(&settings);
    assert_eq!(t.shubuh, "05:00");
    assert_eq!(t.isya, "19:30");
    let none = prayer_times(&read_all("[location]\nid = 1\n"));
    assert_eq!(none.dzuhur, "");
}

#[test]
fn prayer_keys_and_assets() {
    assert_eq!(Prayer::Fajr.audio_asset(), "shubuh.mp3");
    assert_eq!(Prayer::Maghrib.audio_asset(), "adzan.mp3");
    assert_eq!(Prayer::Asr.audio_key(), "ashar_audio");
    assert_eq!(Prayer::Isha.time_key(), "isya");
    assert_eq!(Prayer::Dhuhr.label(), "Dzuhur");
}
