//! The five daily prayers, their times of day, and the pure engine that picks
//! the next prayer and the prayer that is due in the current minute.
use chrono::Timelike;
use vstd::prelude::*;

verus! {

/// One of the five daily prayers, in the order of the day.
#[derive(Clone, Copy, Debug, PartialEq, Eq, Structural)]
pub enum Prayer {
    Fajr,
    Dhuhr,
    Asr,
    Maghrib,
    Isha,
}

/// The name of a prayer as shown to the user.
pub open spec fn label_of(p: Prayer) -> Seq<char> {
    match p {
        Prayer::Fajr => "Subuh"@,
        Prayer::Dhuhr => "Dzuhur"@,
        Prayer::Asr => "Ashar"@,
        Prayer::Maghrib => "Maghrib"@,
        Prayer::Isha => "Isya"@,
    }
}

impl Prayer {
    /// The name shown to the user.
    pub fn label(&self) -> (r: &'static str)
        ensures
            r@ == label_of(*self),
    {
        match self {
            Prayer::Fajr => "Subuh",
            Prayer::Dhuhr => "Dzuhur",
            Prayer::Asr => "Ashar",
            Prayer::Maghrib => "Maghrib",
            Prayer::Isha => "Isya",
        }
    }
}

/// A time of day at minute granularity, 24-hour clock.
#[derive(Clone, Copy, Debug, PartialEq, Eq, Structural)]
pub struct HourMinute {
    pub hour: u8,
    pub minute: u8,
}

impl HourMinute {
    pub open spec fn valid(self) -> bool {
        self.hour < 24 && self.minute < 60
    }

    /// Seconds since midnight at the start of this minute.
    pub open spec fn secs(self) -> int {
        self.hour * 3600 + self.minute * 60
    }
}

/// The current wall-clock time of day.
#[derive(Clone, Copy, Debug, PartialEq, Eq, Structural)]
pub struct Clock {
    pub hour: u8,
    pub minute: u8,
    pub second: u8,
}

impl Clock {
    pub open spec fn valid(self) -> bool {
        self.hour < 24 && self.minute < 60 && self.second < 60
    }

    /// Seconds since midnight.
    pub open spec fn secs(self) -> int {
        self.hour * 3600 + self.minute * 60 + self.second
    }
}

/// A prayer and the time of day at which it falls.
#[derive(Clone, Copy, Debug, PartialEq, Eq, Structural)]
pub struct PrayerTime {
    pub name: Prayer,
    pub time: HourMinute,
}

/// Every entry of the schedule holds a valid time of day.
pub open spec fn valid_schedule(s: Seq<PrayerTime>) -> bool {
    forall|i: int| 0 <= i < s.len() ==> (#[trigger] s[i]).time.valid()
}

/// The prayer falls strictly later in the day than `now`.
pub open spec fn is_later(p: PrayerTime, now: Clock) -> bool {
    p.time.secs() > now.secs()
}

/// Some entry of the schedule falls later in the day than `now`.
pub open spec fn any_later(s: Seq<PrayerTime>, now: Clock) -> bool {
    exists|j: int| 0 <= j < s.len() && is_later(#[trigger] s[j], now)
}

/// Position `i` holds the earliest time among the entries that are later than
/// `now` (or among all entries, when `only_later` is false), and no earlier
/// position holds that same time.
pub open spec fn is_first_earliest(s: Seq<PrayerTime>, i: int, now: Clock, only_later: bool) -> bool {
    &&& 0 <= i < s.len()
    &&& only_later ==> is_later(s[i], now)
    &&& forall|j: int|
        0 <= j < s.len() && (only_later ==> is_later(#[trigger] s[j], now)) ==> s[i].time.secs()
            <= s[j].time.secs() && (j < i ==> s[i].time.secs() < s[j].time.secs())
}

/// The prayer that comes next, where it stands in the schedule, and whether it
/// falls on the following day.
#[derive(Clone, Copy, Debug, PartialEq, Eq, Structural)]
pub struct NextPrayer {
    pub index: usize,
    pub prayer: PrayerTime,
    pub tomorrow: bool,
}

/// What `next_prayer` returns: the entry with the earliest time strictly later
/// than `now`; past the last prayer of the day, the earliest entry, for tomorrow.
pub open spec fn is_next_prayer(s: Seq<PrayerTime>, now: Clock, np: NextPrayer) -> bool {
    &&& np.tomorrow == !any_later(s, now)
    &&& is_first_earliest(s, np.index as int, now, !np.tomorrow)
    &&& np.prayer == s[np.index as int]
}

/// The next prayer after `now`, wrapping round to the first prayer of the next
/// day; `None` when the schedule holds no entry.
pub fn next_prayer(schedule: &Vec<PrayerTime>, now: Clock) -> (r: Option<NextPrayer>)
    ensures
        r is None <==> schedule@.len() == 0,
        r matches Some(np) ==> is_next_prayer(schedule@, now, np),
{
    let n = schedule.len();
    if n == 0 {
        return None;
    }
    let ghost s = schedule@;
    // The earliest later entry seen so far, and the earliest entry overall.
    let mut best_later: Option<usize> = None;
    let mut best_any: usize = 0;
    let mut i: usize = 1;
    if schedule[0].time.hour as u32 * 3600 + schedule[0].time.minute as u32 * 60 > now.hour as u32
        * 3600 + now.minute as u32 * 60 + now.second as u32 {
        best_later = Some(0);
    }
    while i < n
        invariant
            s == schedule@,
            n == s.len(),
            1 <= i <= n,
            is_first_earliest(s.subrange(0, i as int), best_any as int, now, false),
            best_later is None ==> forall|j: int| 0 <= j < i ==> !is_later(#[trigger] s[j], now),
            best_later matches Some(b) ==> is_first_earliest(s.subrange(0, i as int), b as int, now, true),
        decreases n - i,
    {
        let t = schedule[i].time;
        let ti = t.hour as u32 * 3600 + t.minute as u32 * 60;
        let now_s = now.hour as u32 * 3600 + now.minute as u32 * 60 + now.second as u32;
        let ba = schedule[best_any].time;
        if ti < ba.hour as u32 * 3600 + ba.minute as u32 * 60 {
            best_any = i;
        }
        if ti > now_s {
            match best_later {
                None => {
                    best_later = Some(i);
                },
                Some(b) => {
                    let bt = schedule[b].time;
                    if ti < bt.hour as u32 * 3600 + bt.minute as u32 * 60 {
                        best_later = Some(i);
                    }
                },
            }
        }
        i += 1;
        assert(s.subrange(0, i as int).drop_last() =~= s.subrange(0, i - 1));
    }
    assert(s.subrange(0, n as int) =~= s);
    match best_later {
        Some(b) => Some(NextPrayer { index: b, prayer: schedule[b], tomorrow: false }),
        None => Some(NextPrayer { index: best_any, prayer: schedule[best_any], tomorrow: true }),
    }
}

/// The prayer's minute is the current minute of `now`, and it is not the
/// prayer that fired last.
pub open spec fn is_due(p: PrayerTime, now: Clock, last_fired: Option<Prayer>) -> bool {
    &&& p.time.hour == now.hour
    &&& p.time.minute == now.minute
    &&& last_fired != Some(p.name)
}

/// The first position at or after `i` whose entry is due.
pub open spec fn first_due_from(s: Seq<PrayerTime>, now: Clock, last_fired: Option<Prayer>, i: int) -> Option<int>
    decreases s.len() - i,
{
    if i < 0 || i >= s.len() {
        None
    } else if is_due(s[i], now, last_fired) {
        Some(i)
    } else {
        first_due_from(s, now, last_fired, i + 1)
    }
}

/// The prayer that is due at `now`: the first entry of the schedule in the
/// minute of `now` whose name is not `last_fired`.
pub open spec fn due_of(s: Seq<PrayerTime>, now: Clock, last_fired: Option<Prayer>) -> Option<Prayer> {
    match first_due_from(s, now, last_fired, 0) {
        Some(i) => Some(s[i].name),
        None => None,
    }
}

/// What `first_due_from` finds is due, and nothing before it is.
pub proof fn lemma_first_due_from(s: Seq<PrayerTime>, now: Clock, last_fired: Option<Prayer>, i: int)
    requires
        0 <= i,
    ensures
        first_due_from(s, now, last_fired, i) matches Some(k) ==> i <= k < s.len() && is_due(
            s[k],
            now,
            last_fired,
        ) && forall|j: int| i <= j < k ==> !is_due(#[trigger] s[j], now, last_fired),
        first_due_from(s, now, last_fired, i) is None ==> forall|j: int|
            i <= j < s.len() ==> !is_due(#[trigger] s[j], now, last_fired),
    decreases s.len() - i,
{
    if i < s.len() && !is_due(s[i], now, last_fired) {
        lemma_first_due_from(s, now, last_fired, i + 1);
    }
}

/// The prayer due at `now`, at minute granularity, unless it is `last_fired`.
pub fn due_prayer(schedule: &Vec<PrayerTime>, now: Clock, last_fired: Option<Prayer>) -> (r: Option<Prayer>)
    ensures
        r == due_of(schedule@, now, last_fired),
        r matches Some(p) ==> Some(p) != last_fired && exists|i: int|
            0 <= i < schedule@.len() && (#[trigger] schedule@[i]).name == p && schedule@[i].time.hour
                == now.hour && schedule@[i].time.minute == now.minute,
        r is None ==> forall|i: int|
            0 <= i < schedule@.len() ==> !is_due(#[trigger] schedule@[i], now, last_fired),
{
    proof {
        lemma_first_due_from(schedule@, now, last_fired, 0);
    }
    let ghost s = schedule@;
    let mut i: usize = 0;
    while i < schedule.len()
        invariant
            s == schedule@,
            i <= s.len(),
            first_due_from(s, now, last_fired, 0) == first_due_from(s, now, last_fired, i as int),
        decreases schedule.len() - i,
    {
        let p = schedule[i];
        if p.time.hour == now.hour && p.time.minute == now.minute && last_fired != Some(p.name) {
            return Some(p.name);
        }
        i += 1;
    }
    None
}

/// What `chrono::NaiveTime::parse_from_str(s, "%H:%M")` makes of `s`: the
/// hour and minute, or `None` where it refuses the text.
pub uninterp spec fn hm_parse(s: Seq<char>) -> Option<(u8, u8)>;

/// Relies on `chrono::NaiveTime::parse_from_str` with the format `%H:%M`:
/// a time it returns has an hour below 24 and a minute below 60.
#[verifier::external_body]
fn parse_hour_minute(s: &str) -> (r: Option<(u8, u8)>)
    ensures
        r == hm_parse(s@),
        r matches Some(hm) ==> hm.0 < 24 && hm.1 < 60,
{
    match chrono::NaiveTime::parse_from_str(s, "%H:%M") {
        Ok(t) => Some((t.hour() as u8, t.minute() as u8)),
        Err(_) => None,
    }
}

/// The time of day that a `HH:MM` text names, if it names one.
pub open spec fn time_of(s: Seq<char>) -> Option<HourMinute> {
    match hm_parse(s) {
        Some(hm) => Some(HourMinute { hour: hm.0, minute: hm.1 }),
        None => None,
    }
}

/// Reads a `HH:MM` text as a time of day.
pub fn parse_time(s: &str) -> (r: Option<HourMinute>)
    ensures
        r == time_of(s@),
        r matches Some(t) ==> t.valid(),
{
    match parse_hour_minute(s) {
        Some(hm) => Some(HourMinute { hour: hm.0, minute: hm.1 }),
        None => None,
    }
}

/// The five prayer times of a day, as the texts that were fetched or stored.
#[derive(Debug)]
pub struct PrayerTimes {
    pub shubuh: String,
    pub dzuhur: String,
    pub ashar: String,
    pub maghrib: String,
    pub isya: String,
}

/// The entry for one prayer: none where its text is no time of day.
pub open spec fn entry_of(name: Prayer, s: Seq<char>) -> Seq<PrayerTime> {
    match time_of(s) {
        Some(t) => seq![PrayerTime { name, time: t }],
        None => Seq::empty(),
    }
}

/// The schedule of a day, in the order of the day, without the prayers whose
/// time text could not be read.
pub open spec fn schedule_of(
    shubuh: Seq<char>,
    dzuhur: Seq<char>,
    ashar: Seq<char>,
    maghrib: Seq<char>,
    isya: Seq<char>,
) -> Seq<PrayerTime> {
    entry_of(Prayer::Fajr, shubuh) + entry_of(Prayer::Dhuhr, dzuhur) + entry_of(Prayer::Asr, ashar)
        + entry_of(Prayer::Maghrib, maghrib) + entry_of(Prayer::Isha, isya)
}

fn push_entry(v: &mut Vec<PrayerTime>, name: Prayer, s: &str)
    ensures
        final(v)@ == old(v)@ + entry_of(name, s@),
        valid_schedule(old(v)@) ==> valid_schedule(final(v)@),
{
    match parse_time(s) {
        Some(t) => {
            v.push(PrayerTime { name, time: t });
            assert(final(v)@ =~= old(v)@ + entry_of(name, s@));
        },
        None => {
            assert(v@ =~= old(v)@ + entry_of(name, s@));
        },
    }
}

impl PrayerTimes {
    /// The schedule these texts describe; entries that do not parse are left out.
    pub fn schedule(&self) -> (r: Vec<PrayerTime>)
        ensures
            r@ == schedule_of(self.shubuh@, self.dzuhur@, self.ashar@, self.maghrib@, self.isya@),
            valid_schedule(r@),
    {
        let mut v: Vec<PrayerTime> = Vec::new();
        push_entry(&mut v, Prayer::Fajr, self.shubuh.as_str());
        push_entry(&mut v, Prayer::Dhuhr, self.dzuhur.as_str());
        push_entry(&mut v, Prayer::Asr, self.ashar.as_str());
        push_entry(&mut v, Prayer::Maghrib, self.maghrib.as_str());
        push_entry(&mut v, Prayer::Isha, self.isya.as_str());
        assert(v@ =~= schedule_of(self.shubuh@, self.dzuhur@, self.ashar@, self.maghrib@, self.isya@));
        v
    }
}

} // verus!
