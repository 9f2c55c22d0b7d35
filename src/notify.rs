//! The tick-driven scheduler: once per tick it reads the schedule and the
//! audio flags from the settings, picks the next prayer, and decides whether
//! the prayer of the current minute is announced, silenced, or already done.
use crate::schedule::{
    due_of, due_prayer, is_next_prayer, lemma_first_due_from, next_prayer, schedule_of, Clock,
    NextPrayer, Prayer, PrayerTime, PrayerTimes,
};
use crate::settings::{lookup, Entry, Settings};
use crate::text::{lower_of, lowercase, trim, trim_str};
use vstd::prelude::*;

verus! {

/// The settings key of a prayer's time.
pub open spec fn time_key_of(p: Prayer) -> Seq<char> {
    match p {
        Prayer::Fajr => "shubuh"@,
        Prayer::Dhuhr => "dzuhur"@,
        Prayer::Asr => "ashar"@,
        Prayer::Maghrib => "maghrib"@,
        Prayer::Isha => "isya"@,
    }
}

/// The settings key of a prayer's audio flag.
pub open spec fn audio_key_of(p: Prayer) -> Seq<char> {
    match p {
        Prayer::Fajr => "shubuh_audio"@,
        Prayer::Dhuhr => "dzuhur_audio"@,
        Prayer::Asr => "ashar_audio"@,
        Prayer::Maghrib => "maghrib_audio"@,
        Prayer::Isha => "isya_audio"@,
    }
}

/// The audio asset of a prayer: one for the dawn prayer, one for the others.
pub open spec fn asset_of(p: Prayer) -> Seq<char> {
    match p {
        Prayer::Fajr => "shubuh.mp3"@,
        _ => "adzan.mp3"@,
    }
}

impl Prayer {
    /// The settings key of this prayer's time.
    pub fn time_key(&self) -> (r: &'static str)
        ensures
            r@ == time_key_of(*self),
    {
        match self {
            Prayer::Fajr => "shubuh",
            Prayer::Dhuhr => "dzuhur",
            Prayer::Asr => "ashar",
            Prayer::Maghrib => "maghrib",
            Prayer::Isha => "isya",
        }
    }

    /// The settings key of this prayer's audio flag.
    pub fn audio_key(&self) -> (r: &'static str)
        ensures
            r@ == audio_key_of(*self),
    {
        match self {
            Prayer::Fajr => "shubuh_audio",
            Prayer::Dhuhr => "dzuhur_audio",
            Prayer::Asr => "ashar_audio",
            Prayer::Maghrib => "maghrib_audio",
            Prayer::Isha => "isya_audio",
        }
    }

    /// The audio asset announced for this prayer.
    pub fn audio_asset(&self) -> (r: &'static str)
        ensures
            r@ == asset_of(*self),
    {
        match self {
            Prayer::Fajr => "shubuh.mp3",
            _ => "adzan.mp3",
        }
    }
}

/// The value stored for `key`, or the empty text.
pub open spec fn value_or_empty(es: Seq<Entry>, key: Seq<char>) -> Seq<char> {
    match lookup(es, key) {
        Some(v) => v,
        None => Seq::empty(),
    }
}

/// The schedule that the settings describe.
pub open spec fn settings_schedule(es: Seq<Entry>) -> Seq<PrayerTime> {
    schedule_of(
        value_or_empty(es, "shubuh"@),
        value_or_empty(es, "dzuhur"@),
        value_or_empty(es, "ashar"@),
        value_or_empty(es, "maghrib"@),
        value_or_empty(es, "isya"@),
    )
}

/// A prayer is muted where its audio flag reads `off`, whitespace and case
/// aside; a prayer without a flag is not muted.
pub open spec fn muted_in(es: Seq<Entry>, p: Prayer) -> bool {
    match lookup(es, audio_key_of(p)) {
        Some(v) => lower_of(trim(v)) == "off"@,
        None => false,
    }
}

fn value_text(settings: &Settings, key: &str) -> (r: String)
    ensures
        r@ == value_or_empty(settings@, key@),
{
    match settings.get(key) {
        Some(v) => v.clone(),
        None => String::new(),
    }
}

/// The five prayer-time texts stored in the settings, empty where missing.
pub fn prayer_times(settings: &Settings) -> (r: PrayerTimes)
    ensures
        r.shubuh@ == value_or_empty(settings@, "shubuh"@),
        r.dzuhur@ == value_or_empty(settings@, "dzuhur"@),
        r.ashar@ == value_or_empty(settings@, "ashar"@),
        r.maghrib@ == value_or_empty(settings@, "maghrib"@),
        r.isya@ == value_or_empty(settings@, "isya"@),
{
    PrayerTimes {
        shubuh: value_text(settings, "shubuh"),
        dzuhur: value_text(settings, "dzuhur"),
        ashar: value_text(settings, "ashar"),
        maghrib: value_text(settings, "maghrib"),
        isya: value_text(settings, "isya"),
    }
}

/// Whether the audio of prayer `p` is switched off in the settings.
pub fn is_muted(settings: &Settings, p: Prayer) -> (r: bool)
    ensures
        r == muted_in(settings@, p),
{
    match settings.get(p.audio_key()) {
        Some(v) => {
            let folded = lowercase(trim_str(v.as_str()));
            folded == String::from_str("off")
        },
        None => false,
    }
}

/// What a tick asks the audio side to do.
#[derive(Clone, Copy, Debug, PartialEq, Eq, Structural)]
pub enum Action {
    /// No prayer became due.
    Idle,
    /// Announce this prayer.
    Play(Prayer),
    /// This prayer became due, but its audio is switched off.
    Silenced(Prayer),
}

/// The action for the prayer that became due, if any.
pub open spec fn action_for(due: Option<Prayer>, es: Seq<Entry>) -> Action {
    match due {
        Some(p) => if muted_in(es, p) {
            Action::Silenced(p)
        } else {
            Action::Play(p)
        },
        None => Action::Idle,
    }
}

/// What one tick publishes and asks for.
#[derive(Clone, Copy, Debug, PartialEq, Eq, Structural)]
pub struct TickOutcome {
    pub next: Option<NextPrayer>,
    pub action: Action,
}

/// The scheduler's own state: the prayer that fired last, and the time of
/// the previous tick, by which a new day is noticed.
#[derive(Clone, Copy, Debug, PartialEq, Eq, Structural)]
pub struct Scheduler {
    pub last_fired: Option<Prayer>,
    pub last_tick: Option<Clock>,
}

impl Scheduler {
    /// A scheduler that has fired nothing yet.
    pub fn new() -> (r: Scheduler)
        ensures
            r.last_fired is None,
            r.last_tick is None,
    {
        Scheduler { last_fired: None, last_tick: None }
    }

    /// The last-fired marker in force at `now`: cleared once the clock has
    /// gone back past midnight since the previous tick.
    pub open spec fn marker_at(self, now: Clock) -> Option<Prayer> {
        match self.last_tick {
            Some(t) => if now.secs() < t.secs() {
                None
            } else {
                self.last_fired
            },
            None => self.last_fired,
        }
    }

    /// The state after a tick at `now` on schedule `s`.
    pub open spec fn after(self, s: Seq<PrayerTime>, now: Clock) -> Scheduler {
        let due = due_of(s, now, self.marker_at(now));
        Scheduler {
            last_fired: match due {
                Some(p) => Some(p),
                None => self.marker_at(now),
            },
            last_tick: Some(now),
        }
    }

    /// One tick at `now`: the next prayer for display, and the action for the
    /// prayer that became due in this minute. A due prayer is marked as fired
    /// whether it is announced or silenced.
    pub fn tick(&mut self, settings: &Settings, now: Clock) -> (r: TickOutcome)
        ensures
            ({
                let s = settings_schedule(settings@);
                &&& r.next is None <==> s.len() == 0
                &&& r.next matches Some(np) ==> is_next_prayer(s, now, np)
                &&& r.action == action_for(due_of(s, now, old(self).marker_at(now)), settings@)
                &&& *final(self) == old(self).after(s, now)
            }),
    {
        let schedule = prayer_times(settings).schedule();
        let marker = match self.last_tick {
            Some(t) => if (now.hour as u32) * 3600 + (now.minute as u32) * 60 + (now.second as u32)
                < (t.hour as u32) * 3600 + (t.minute as u32) * 60 + (t.second as u32) {
                None
            } else {
                self.last_fired
            },
            None => self.last_fired,
        };
        let next = next_prayer(&schedule, now);
        let due = due_prayer(&schedule, now, marker);
        let action = match due {
            Some(p) => if is_muted(settings, p) {
                Action::Silenced(p)
            } else {
                Action::Play(p)
            },
            None => Action::Idle,
        };
        self.last_fired = match due {
            Some(p) => Some(p),
            None => marker,
        };
        self.last_tick = Some(now);
        TickOutcome { next, action }
    }
}

/// A prayer fires at most once in its minute: after a tick at `now1` finds
/// prayer `p` due, no later tick within the same minute finds `p` due again.
pub proof fn law_fires_once_per_minute(st: Scheduler, s: Seq<PrayerTime>, now1: Clock, now2: Clock)
    requires
        now1.hour == now2.hour,
        now1.minute == now2.minute,
        now1.second <= now2.second,
    ensures
        due_of(s, now1, st.marker_at(now1)) matches Some(p) ==> due_of(
            s,
            now2,
            st.after(s, now1).marker_at(now2),
        ) != Some(p),
{
    if let Some(p) = due_of(s, now1, st.marker_at(now1)) {
        let st1 = st.after(s, now1);
        assert(st1.marker_at(now2) == Some(p));
        lemma_first_due_from(s, now2, Some(p), 0);
    }
}

} // verus!
