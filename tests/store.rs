use adzan_reminder::display::{clock_text, date_label, location_label, signed_text};
use adzan_reminder::location::{search_city, Location};
use adzan_reminder::schedule::{Clock, PrayerTimes};
use adzan_reminder::settings::{read_all, toggle_mute, write_full};
use adzan_reminder::text::{decimal_text, join_str_lines, split_lines, trim_str};

fn jakarta() -> Location {
    Location { id: 1301, city: "KOTA JAKARTA".to_string(), gmt: "+7".to_string() }
}

fn jakarta_times() -> PrayerTimes {
    PrayerTimes {
        shubuh: "04:37".to_string(),
        dzuhur: "11:55".to_string(),
        ashar: "15:16".to_string(),
        maghrib: "17:54".to_string(),
        isya: "19:07".to_string(),
    }
}

#[test]
fn write_full_layout() {
    let text = write_full(&jakarta(), &jakarta_times());
    assert_eq!(
        text,
        "[location]\nid = 1301\nname = KOTA JAKARTA\ngmt = +7\n\n[adzan]\nshubuh = 04:37\ndzuhur = 11:55\nashar = 15:16\nmaghrib = 17:54\nisya = 19:07\n"
    );
}

#[test]
fn write_then_read_round_trip() {
    let text = write_full(&jakarta(), &jakarta_times());
    let s = read_all(&text);
    assert_eq!(s.get("id").unwrap(), "1301");
    assert_eq!(s.get("name").unwrap(), "KOTA JAKARTA");
    assert_eq!(s.get("gmt").unwrap(), "+7");
    assert_eq!(s.get("shubuh").unwrap(), "04:37");
    assert_eq!(s.get("dzuhur").unwrap(), "11:55");
    assert_eq!(s.get("ashar").unwrap(), "15:16");
    assert_eq!(s.get("maghrib").unwrap(), "17:54");
    assert_eq!(s.get("isya").unwrap(), "19:07");
    assert!(s.get("shubuh_audio").is_none());
}

#[test]
fn read_all_skips_unknown_and_malformed() {
    let text = "orphan = 1\n[other]\nx = 1\n[location]\n  name =  Bandung  \nno separator here\n\n[audio]\nisya_audio = off\nisya_audio = on\n[adzan\nkey = v=w\n";
    let s = read_all(text);
    assert!(s.get("orphan").is_none());
    assert!(s.get("x").is_none());
    assert_eq!(s.get("name").unwrap(), "Bandung");
    assert_eq!(s.get("isya_audio").unwrap(), "on");
    assert_eq!(s.get("key").unwrap(), "v=w");
}

#[test]
fn read_all_of_empty_text() {
    let s = read_all("");
    assert!(s.get("name").is_none());
}

#[test]
fn toggle_adds_audio_section_then_flips() {
    let text = "[location]\nid = 1\n\n[adzan]\nashar = 15:16\n";
    let (once, v1) = toggle_mute(text, "ashar_audio");
    assert_eq!(v1, "on");
    assert_eq!(once, "[location]\nid = 1\n\n[adzan]\nashar = 15:16\n\n[audio]\nashar_audio = on");
    let (twice, v2) = toggle_mute(&once, "ashar_audio");
    assert_eq!(v2, "off");
    assert_eq!(twice, "[location]\nid = 1\n\n[adzan]\nashar = 15:16\n\n[audio]\nashar_audio = off");
    assert_eq!(twice.matches("[audio]").count(), 1);
}

#[test]
fn toggle_without_trailing_newline_adds_blank_line() {
    let (once, v) = toggle_mute("[adzan]\nisya = 19:07", "isya_audio");
    assert_eq!(v, "on");
    assert_eq!(once, "[adzan]\nisya = 19:07\n\n[audio]\nisya_audio = on");
}

#[test]
fn toggle_on_missing_file() {
    let (text, v) = toggle_mute("", "shubuh_audio");
    assert_eq!(v, "on");
    assert_eq!(text, "\n[audio]\nshubuh_audio = on");
}

#[test]
fn toggle_inserts_key_below_existing_header() {
    let text = "[audio]\nisya_audio = off\n[adzan]\nisya = 19:07\n";
    let (out, v) = toggle_mute(text, "ashar_audio");
    assert_eq!(v, "on");
    assert_eq!(out, "[audio]\nashar_audio = on\nisya_audio = off\n[adzan]\nisya = 19:07\n");
}

#[test]
fn toggle_twice_restores_text() {
    let text = "[location]\nname = X\n\n[audio]\nshubuh_audio = on\nashar_audio = off\n\n[adzan]\nashar_audio = on\n";
    let (once, v1) = toggle_mute(text, "ashar_audio");
    assert_eq!(v1, "on");
    assert_eq!(once, "[location]\nname = X\n\n[audio]\nshubuh_audio = on\nashar_audio = on\n\n[adzan]\nashar_audio = on\n");
    let (twice, v2) = toggle_mute(&once, "ashar_audio");
    assert_eq!(v2, "off");
    assert_eq!(twice, text);
}

#[test]
fn toggle_matches_key_ignoring_case() {
    let text = "[audio]\n  Maghrib_Audio = on\n";
    let (out, v) = toggle_mute(text, "maghrib_audio");
    assert_eq!(v, "off");
    assert_eq!(out, "[audio]\nmaghrib_audio = off\n");
}

#[test]
fn search_city_ignores_case() {
    let list = vec![
        jakarta(),
        Location { id: 1219, city: "KOTA BANDUNG".to_string(), gmt: "+7".to_string() },
        Location { id: 2622, city: "KAB. JAYAPURA".to_string(), gmt: "+9".to_string() },
    ];
    let found = search_city(&list, "jaKarta");
    assert_eq!(found.len(), 1);
    assert_eq!(found[0].id, 1301);
    let kota = search_city(&list, "kota");
    assert_eq!(kota.len(), 2);
    assert_eq!(kota[1].city, "KOTA BANDUNG");
    assert_eq!(search_city(&list, "").len(), 3);
    assert!(search_city(&list, "surabaya").is_empty());
}

#[test]
fn search_city_folds_non_ascii_case() {
    let list = vec![Location { id: 7, city: "ÅLESUND".to_string(), gmt: "+1".to_string() }];
    assert_eq!(search_city(&list, "ålesund").len(), 1);
    assert_eq!(search_city(&list, "LESUND").len(), 1);
}

#[test]
fn trim_and_lines() {
    assert_eq!(trim_str("  a b \t\r"), "a b");
    assert_eq!(trim_str("\u{3000}x\u{a0}"), "x");
    let ls = split_lines("a\r\n\nb\n");
    assert_eq!(ls, vec!["a\r".to_string(), String::new(), "b".to_string(), String::new()]);
    assert_eq!(join_str_lines(&ls), "a\r\n\nb\n");
}

#[test]
fn clock_and_labels() {
    assert_eq!(clock_text(Clock { hour: 7, minute: 5, second: 9 }), "07:05:09");
    assert_eq!(clock_text(Clock { hour: 23, minute: 59, second: 0 }), "23:59:00");
    let s = read_all("[location]\nname = KOTA JAKARTA\ngmt = +7\n");
    assert_eq!(location_label(&s), "KOTA JAKARTA - +7");
    assert_eq!(location_label(&read_all("")), "Unknown - +0");
    assert_eq!(date_label(25, "Shaban", 1442, 8, "April", 2021), "25 Shaban 1442 H - 8 April 2021");
}

#[test]
fn decimal_texts() {
    assert_eq!(decimal_text(0), "0");
    assert_eq!(decimal_text(1301), "1301");
    assert_eq!(decimal_text(u32::MAX), "4294967295");
    assert_eq!(signed_text(-42), "-42");
    assert_eq!(signed_text(i32::MIN), "-2147483648");
}
