//! The settings store: a section-based `key = value` text holding the
//! location, the five prayer times and the per-prayer audio flags.
use crate::location::Location;
use crate::schedule::PrayerTimes;
use crate::text::{
    ascii_fold, ascii_fold_chars, chars_of, decimal_of, decimal_text, find_char, find_char_in,
    has_prefix, is_trimmed, is_ws, join_lines, join_str_lines, lemma_find_char_bounds,
    lemma_lines_nonempty, lines_of, same_chars, split_lines, starts_with_chars, trim, trim_end,
    trim_start, trim_start_str, trim_str,
};
use vstd::prelude::*;

verus! {

/// A key and its value, as read from the settings text.
pub type Entry = (Seq<char>, Seq<char>);

/// A trimmed line of the form `[name]`.
pub open spec fn is_header(t: Seq<char>) -> bool {
    t.len() >= 2 && t[0] == '[' && t.last() == ']'
}

/// The sections whose keys are read.
pub open spec fn is_known_section(name: Seq<char>) -> bool {
    name == "location"@ || name == "adzan"@ || name == "audio"@
}

/// The key of a `key = value` line.
pub open spec fn key_part(t: Seq<char>) -> Seq<char> {
    trim(t.subrange(0, find_char(t, '=')))
}

/// The value of a `key = value` line: all that follows the first `=`.
pub open spec fn value_part(t: Seq<char>) -> Seq<char> {
    trim(t.subrange(find_char(t, '=') + 1, t.len() as int))
}

/// One line read into the state: whether a known section is open, and the
/// entries read so far.
pub open spec fn read_line(st: (bool, Seq<Entry>), line: Seq<char>) -> (bool, Seq<Entry>) {
    let t = trim(line);
    if is_header(t) {
        (is_known_section(t.subrange(1, t.len() - 1)), st.1)
    } else if st.0 && find_char(t, '=') < t.len() {
        (st.0, st.1.push((key_part(t), value_part(t))))
    } else {
        st
    }
}

/// The state after reading the lines in order.
pub open spec fn read_lines(ls: Seq<Seq<char>>) -> (bool, Seq<Entry>)
    decreases ls.len(),
{
    if ls.len() == 0 {
        (false, Seq::empty())
    } else {
        read_line(read_lines(ls.drop_last()), ls.last())
    }
}

/// The entries of a settings text, in the order of their lines.
pub open spec fn entries_of(text: Seq<char>) -> Seq<Entry> {
    read_lines(lines_of(text)).1
}

/// The value of the last entry for `key`.
pub open spec fn lookup(es: Seq<Entry>, key: Seq<char>) -> Option<Seq<char>>
    decreases es.len(),
{
    if es.len() == 0 {
        None
    } else if es.last().0 == key {
        Some(es.last().1)
    } else {
        lookup(es.drop_last(), key)
    }
}

/// The settings read from a settings text: key to value, a later line
/// overriding an earlier one for the same key.
pub struct Settings {
    entries: Vec<(String, String)>,
}

impl View for Settings {
    type V = Seq<Entry>;

    closed spec fn view(&self) -> Seq<Entry> {
        self.entries@.map_values(|e: (String, String)| (e.0@, e.1@))
    }
}

impl Settings {
    /// No settings at all, as when the store does not exist yet.
    pub fn empty() -> (r: Settings)
        ensures
            r@ == Seq::<Entry>::empty(),
    {
        let r = Settings { entries: Vec::new() };
        assert(r@ =~= Seq::<Entry>::empty());
        r
    }

    /// The value stored for `key`, if any.
    pub fn get(&self, key: &str) -> (r: Option<&String>)
        ensures
            match r {
                Some(v) => lookup(self@, key@) == Some(v@),
                None => lookup(self@, key@) is None,
            },
    {
        let ghost es = self@;
        let wanted = String::from_str(key);
        let mut i: usize = self.entries.len();
        assert(es.subrange(0, i as int) =~= es);
        while i > 0
            invariant
                es == self@,
                wanted@ == key@,
                i <= self.entries@.len(),
                es.len() == self.entries@.len(),
                lookup(es, key@) == lookup(es.subrange(0, i as int), key@),
            decreases i,
        {
            let e = &self.entries[i - 1];
            let ghost pre = es.subrange(0, i as int);
            assert(pre.last() == es[i - 1]);
            assert(es[i - 1] == (e.0@, e.1@));
            assert(pre.drop_last() =~= es.subrange(0, i - 1));
            if e.0 == wanted {
                return Some(&e.1);
            }
            i -= 1;
        }
        None
    }
}

/// Whether `name` is one of the sections whose keys are read.
fn known_section(name: &Vec<char>) -> (r: bool)
    ensures
        r == is_known_section(name@),
{
    let location = chars_of("location");
    let adzan = chars_of("adzan");
    let audio = chars_of("audio");
    same_chars(name, &location) || same_chars(name, &adzan) || same_chars(name, &audio)
}

/// Reads a settings text: the `key = value` lines of the sections `location`,
/// `adzan` and `audio`, whitespace around keys and values removed. Lines of
/// other sections, lines before the first header and lines without `=` are
/// skipped.
pub fn read_all(text: &str) -> (r: Settings)
    ensures
        r@ == entries_of(text@),
{
    let lines = split_lines(text);
    let ghost ls = lines@.map_values(|l: String| l@);
    let mut in_section = false;
    let mut entries: Vec<(String, String)> = Vec::new();
    let mut i: usize = 0;
    assert(ls.subrange(0, 0) =~= Seq::<Seq<char>>::empty());
    while i < lines.len()
        invariant
            ls == lines@.map_values(|l: String| l@),
            ls == lines_of(text@),
            i <= lines@.len(),
            read_lines(ls.subrange(0, i as int)) == (
                in_section,
                entries@.map_values(|e: (String, String)| (e.0@, e.1@)),
            ),
        decreases lines.len() - i,
    {
        let ghost old_entries = entries@;
        let t = trim_str(lines[i].as_str());
        let tc = chars_of(t);
        let n = tc.len();
        assert(ls.subrange(0, i + 1).drop_last() =~= ls.subrange(0, i as int));
        assert(ls.subrange(0, i + 1).last() == lines@[i as int]@);
        if n >= 2 && tc[0] == '[' && tc[n - 1] == ']' {
            let name = chars_of(t.substring_char(1, n - 1));
            in_section = known_section(&name);
        } else if in_section {
            let e = find_char_in(&tc, '=');
            if e < n {
                let key = String::from_str(trim_str(t.substring_char(0, e)));
                let value = String::from_str(trim_str(t.substring_char(e + 1, n)));
                entries.push((key, value));
                assert(entries@.map_values(|e: (String, String)| (e.0@, e.1@)) =~= old_entries.map_values(
                    |e: (String, String)| (e.0@, e.1@),
                ).push((key_part(t@), value_part(t@))));
            }
        }
        i += 1;
    }
    assert(ls.subrange(0, lines@.len() as int) =~= ls);
    let r = Settings { entries };
    assert(r@ == entries_of(text@));
    r
}

/// The line `key = value`.
pub open spec fn kv_line(key: Seq<char>, value: Seq<char>) -> Seq<char> {
    key + " = "@ + value
}

fn kv_text(key: &str, value: &str) -> (r: String)
    ensures
        r@ == kv_line(key@, value@),
{
    String::from_str(key).concat(" = ").concat(value)
}

/// The lines of a freshly written settings text: the location section, then
/// the prayer-time section, ending with a newline.
pub open spec fn full_lines(id: u32, city: Seq<char>, gmt: Seq<char>, times: PrayerTimes) -> Seq<Seq<char>> {
    seq![
        "[location]"@,
        kv_line("id"@, decimal_of(id as nat)),
        kv_line("name"@, city),
        kv_line("gmt"@, gmt),
        Seq::empty(),
        "[adzan]"@,
        kv_line("shubuh"@, times.shubuh@),
        kv_line("dzuhur"@, times.dzuhur@),
        kv_line("ashar"@, times.ashar@),
        kv_line("maghrib"@, times.maghrib@),
        kv_line("isya"@, times.isya@),
        Seq::empty(),
    ]
}

/// The whole settings text for a newly chosen location and its prayer times.
/// Audio flags are not carried over: the text replaces the store entirely.
pub fn write_full(location: &Location, times: &PrayerTimes) -> (r: String)
    ensures
        r@ == join_lines(full_lines(location.id, location.city@, location.gmt@, *times)),
{
    let mut ls: Vec<String> = Vec::new();
    ls.push(String::from_str("[location]"));
    ls.push(kv_text("id", decimal_text(location.id).as_str()));
    ls.push(kv_text("name", location.city.as_str()));
    ls.push(kv_text("gmt", location.gmt.as_str()));
    ls.push(String::new());
    ls.push(String::from_str("[adzan]"));
    ls.push(kv_text("shubuh", times.shubuh.as_str()));
    ls.push(kv_text("dzuhur", times.dzuhur.as_str()));
    ls.push(kv_text("ashar", times.ashar.as_str()));
    ls.push(kv_text("maghrib", times.maghrib.as_str()));
    ls.push(kv_text("isya", times.isya.as_str()));
    ls.push(String::new());
    assert(ls@.map_values(|l: String| l@) =~= full_lines(
        location.id,
        location.city@,
        location.gmt@,
        *times,
    ));
    join_str_lines(&ls)
}

/// A line that sets `key`: after leading whitespace, and with ASCII case
/// folded, it begins with `key =`.
pub open spec fn is_key_line(line: Seq<char>, key: Seq<char>) -> bool {
    has_prefix(ascii_fold(trim_start(line)), ascii_fold(key) + " ="@)
}

/// The flag of a key line: what stands between its first `=` and the next
/// one, trimmed.
pub open spec fn flag_part(line: Seq<char>) -> Seq<char> {
    let e = find_char(line, '=');
    if e >= line.len() {
        Seq::empty()
    } else {
        let rest = line.subrange(e + 1, line.len() as int);
        trim(rest.subrange(0, find_char(rest, '=')))
    }
}

/// The flag text for a state.
pub open spec fn on_off(on: bool) -> Seq<char> {
    if on {
        "on"@
    } else {
        "off"@
    }
}

/// The state of a toggle pass over the lines: inside an `[audio]` section,
/// an `[audio]` header seen, the key seen, the flag now set to `on`, and the
/// lines written so far.
pub type ToggleState = (bool, bool, bool, bool, Seq<Seq<char>>);

/// One line passed through the toggle: a key line inside the `[audio]`
/// section is rewritten with its flag flipped; every other line is kept.
pub open spec fn toggle_line(st: ToggleState, line: Seq<char>, key: Seq<char>) -> ToggleState {
    let t = trim(line);
    if t == "[audio]"@ {
        (true, true, st.2, st.3, st.4.push(line))
    } else {
        let in_audio = if t.len() > 0 && t[0] == '[' {
            false
        } else {
            st.0
        };
        if in_audio && is_key_line(line, key) {
            let on = flag_part(line) != "on"@;
            (in_audio, st.1, true, on, st.4.push(kv_line(key, on_off(on))))
        } else {
            (in_audio, st.1, st.2, st.3, st.4.push(line))
        }
    }
}

/// The state after passing the lines in order.
pub open spec fn toggle_lines(ls: Seq<Seq<char>>, key: Seq<char>) -> ToggleState
    decreases ls.len(),
{
    if ls.len() == 0 {
        (false, false, false, true, Seq::empty())
    } else {
        toggle_line(toggle_lines(ls.drop_last(), key), ls.last(), key)
    }
}

/// The first position at or after `i` of an `[audio]` header line.
pub open spec fn audio_header_from(ls: Seq<Seq<char>>, i: int) -> int
    decreases ls.len() - i,
{
    if i < 0 || i >= ls.len() {
        ls.len() as int
    } else if trim(ls[i]) == "[audio]"@ {
        i
    } else {
        audio_header_from(ls, i + 1)
    }
}

/// The lines after a toggle of `key`, and whether its flag is now `on`.
/// Where no `[audio]` section exists one is appended, after a blank line,
/// holding `key = on`; where the section exists without the key, `key = on`
/// is put right below its first header.
pub open spec fn toggled(ls: Seq<Seq<char>>, key: Seq<char>) -> (Seq<Seq<char>>, bool) {
    let st = toggle_lines(ls, key);
    let out = st.4;
    if !st.1 {
        let sep = if out.len() > 0 && out.last().len() > 0 {
            seq![Seq::<char>::empty()]
        } else {
            Seq::empty()
        };
        (out + sep + seq!["[audio]"@, kv_line(key, "on"@)], true)
    } else if !st.2 {
        let h = audio_header_from(out, 0);
        (out.insert(h + 1, kv_line(key, "on"@)), true)
    } else {
        (out, st.3)
    }
}

proof fn lemma_toggle_lines_found(ls: Seq<Seq<char>>, key: Seq<char>)
    ensures
        toggle_lines(ls, key).4.len() == ls.len(),
        toggle_lines(ls, key).0 ==> toggle_lines(ls, key).1,
        toggle_lines(ls, key).2 ==> toggle_lines(ls, key).1,
        toggle_lines(ls, key).1 ==> exists|j: int|
            0 <= j < ls.len() && trim(#[trigger] toggle_lines(ls, key).4[j]) == "[audio]"@,
        forall|i: int|
            0 <= i < ls.len() ==> #[trigger] toggle_lines(ls, key).4[i] == ls[i] || toggle_lines(
                ls,
                key,
            ).4[i] == kv_line(key, "on"@) || toggle_lines(ls, key).4[i] == kv_line(key, "off"@),
    decreases ls.len(),
{
    if ls.len() > 0 {
        let pre = toggle_lines(ls.drop_last(), key);
        lemma_toggle_lines_found(ls.drop_last(), key);
        let out = toggle_lines(ls, key).4;
        assert(out.drop_last() =~= pre.4);
        if trim(ls.last()) == "[audio]"@ {
            assert(trim(out[ls.len() - 1]) == "[audio]"@);
        } else if pre.1 {
            let j = choose|j: int| 0 <= j < ls.len() - 1 && trim(#[trigger] pre.4[j]) == "[audio]"@;
            assert(out[j] == pre.4[j]);
        }
        assert forall|i: int| 0 <= i < ls.len() implies #[trigger] out[i] == ls[i] || out[i] == kv_line(
            key,
            "on"@,
        ) || out[i] == kv_line(key, "off"@) by {
            if i < ls.len() - 1 {
                assert(out[i] == pre.4[i]);
                assert(ls[i] == ls.drop_last()[i]);
            }
        }
    }
}

proof fn lemma_audio_header_before(ls: Seq<Seq<char>>, i: int, j: int)
    requires
        0 <= i <= j < ls.len(),
        trim(ls[j]) == "[audio]"@,
    ensures
        i <= audio_header_from(ls, i) <= j,
    decreases ls.len() - i,
{
    if trim(ls[i]) != "[audio]"@ {
        lemma_audio_header_before(ls, i + 1, j);
    }
}

/// The flag of a key line, as `flag_part` reads it.
fn flag_of(line: &str) -> (r: Vec<char>)
    ensures
        r@ == flag_part(line@),
{
    let c = chars_of(line);
    let n = c.len();
    let e = find_char_in(&c, '=');
    proof {
        lemma_find_char_bounds(line@, '=');
    }
    if e >= n {
        return Vec::new();
    }
    let rest = line.substring_char(e + 1, n);
    let rc = chars_of(rest);
    let e2 = find_char_in(&rc, '=');
    proof {
        lemma_find_char_bounds(rest@, '=');
    }
    chars_of(trim_str(rest.substring_char(0, e2)))
}

/// Passes one line through the toggle.
fn toggle_step(
    st: (bool, bool, bool, bool),
    out: &mut Vec<String>,
    line: &String,
    key: &str,
    key_prefix: &Vec<char>,
) -> (r: (bool, bool, bool, bool))
    requires
        key_prefix@ == ascii_fold(key@) + " ="@,
    ensures
        ({
            let s = toggle_line((st.0, st.1, st.2, st.3, old(out)@.map_values(|l: String| l@)), line@, key@);
            r == (s.0, s.1, s.2, s.3) && final(out)@.map_values(|l: String| l@) == s.4
        }),
{
    let ghost old_out = out@;
    let t = chars_of(trim_str(line.as_str()));
    let audio = chars_of("[audio]");
    if same_chars(&t, &audio) {
        out.push(line.clone());
        assert(out@.map_values(|l: String| l@) =~= old_out.map_values(|l: String| l@).push(line@));
        return (true, true, st.2, st.3);
    }
    let in_audio = if t.len() > 0 && t[0] == '[' {
        false
    } else {
        st.0
    };
    let fc = ascii_fold_chars(trim_start_str(line.as_str()));
    if in_audio && starts_with_chars(&fc, key_prefix) {
        let flag = flag_of(line.as_str());
        let on_text = chars_of("on");
        let on = !same_chars(&flag, &on_text);
        let value = if on {
            "on"
        } else {
            "off"
        };
        out.push(kv_text(key, value));
        assert(out@.map_values(|l: String| l@) =~= old_out.map_values(|l: String| l@).push(
            kv_line(key@, on_off(on)),
        ));
        (in_audio, st.1, true, on)
    } else {
        out.push(line.clone());
        assert(out@.map_values(|l: String| l@) =~= old_out.map_values(|l: String| l@).push(line@));
        (in_audio, st.1, st.2, st.3)
    }
}

/// Position of the first `[audio]` header line.
fn audio_header_in(ls: &Vec<String>) -> (r: usize)
    ensures
        r == audio_header_from(ls@.map_values(|l: String| l@), 0),
        r <= ls@.len(),
{
    let ghost v = ls@.map_values(|l: String| l@);
    let audio = chars_of("[audio]");
    let mut i: usize = 0;
    while i < ls.len()
        invariant
            v == ls@.map_values(|l: String| l@),
            audio@ == "[audio]"@,
            i <= ls@.len(),
            audio_header_from(v, 0) == audio_header_from(v, i as int),
        decreases ls.len() - i,
    {
        let t = chars_of(trim_str(ls[i].as_str()));
        if same_chars(&t, &audio) {
            return i;
        }
        i += 1;
    }
    i
}

/// Flips the audio flag `key` in a settings text; returns the new text and
/// the flag's new value, `on` or `off`. Every other line is kept as it was.
/// A key that is not set yet is set to `on`.
pub fn toggle_mute(text: &str, key: &str) -> (r: (String, String))
    ensures
        r.0@ == join_lines(toggled(lines_of(text@), key@).0),
        r.1@ == on_off(toggled(lines_of(text@), key@).1),
{
    let lines = split_lines(text);
    let ghost ls = lines@.map_values(|l: String| l@);
    let mut key_prefix = ascii_fold_chars(key);
    key_prefix.push(' ');
    key_prefix.push('=');
    proof {
        reveal_strlit(" =");
    }
    assert(key_prefix@ =~= ascii_fold(key@) + " ="@);
    let mut st: (bool, bool, bool, bool) = (false, false, false, true);
    let mut out: Vec<String> = Vec::new();
    let mut i: usize = 0;
    assert(ls.subrange(0, 0) =~= Seq::<Seq<char>>::empty());
    assert(out@.map_values(|l: String| l@) =~= Seq::<Seq<char>>::empty());
    while i < lines.len()
        invariant
            ls == lines@.map_values(|l: String| l@),
            ls == lines_of(text@),
            key_prefix@ == ascii_fold(key@) + " ="@,
            i <= lines@.len(),
            ({
                let s = toggle_lines(ls.subrange(0, i as int), key@);
                st == (s.0, s.1, s.2, s.3) && out@.map_values(|l: String| l@) == s.4
            }),
        decreases lines.len() - i,
    {
        assert(ls.subrange(0, i + 1).drop_last() =~= ls.subrange(0, i as int));
        assert(ls.subrange(0, i + 1).last() == lines@[i as int]@);
        st = toggle_step(st, &mut out, &lines[i], key, &key_prefix);
        i += 1;
    }
    assert(ls.subrange(0, lines@.len() as int) =~= ls);
    let ghost outv = out@.map_values(|l: String| l@);
    let ghost pre = out@;
    if !st.1 {
        if out.len() > 0 && out[out.len() - 1].unicode_len() > 0 {
            out.push(String::new());
        }
        out.push(String::from_str("[audio]"));
        out.push(kv_text(key, "on"));
        proof {
            reveal_strlit("on");
        }
        let ghost sep = if outv.len() > 0 && outv.last().len() > 0 {
            seq![Seq::<char>::empty()]
        } else {
            Seq::empty()
        };
        assert(out@.map_values(|l: String| l@) =~= outv + sep + seq!["[audio]"@, kv_line(key@, "on"@)]);
        (join_str_lines(&out), String::from_str("on"))
    } else if !st.2 {
        proof {
            lemma_toggle_lines_found(ls, key@);
            let j = choose|j: int| 0 <= j < ls.len() && trim(#[trigger] outv[j]) == "[audio]"@;
            lemma_audio_header_before(outv, 0, j);
        }
        let h = audio_header_in(&out);
        out.insert(h + 1, kv_text(key, "on"));
        assert(out@.map_values(|l: String| l@) =~= outv.insert(h + 1, kv_line(key@, "on"@)));
        (join_str_lines(&out), String::from_str("on"))
    } else {
        let value = if st.3 {
            "on"
        } else {
            "off"
        };
        (join_str_lines(&out), String::from_str(value))
    }
}

/// A text without newlines, that neither starts nor ends with whitespace:
/// what a value must be to be read back as it was written.
pub open spec fn is_clean_value(v: Seq<char>) -> bool {
    &&& is_trimmed(v)
    &&& forall|i: int| 0 <= i < v.len() ==> v[i] != '\n'
}

/// A key that a `key = value` line can hold: not empty, without whitespace
/// or `=`, and not opening with `[`.
pub open spec fn is_plain_key(k: Seq<char>) -> bool {
    &&& k.len() > 0
    &&& k[0] != '['
    &&& forall|i: int| 0 <= i < k.len() ==> !is_ws(#[trigger] k[i]) && k[i] != '=' && k[i] != '\n'
}

proof fn lemma_find_char_append(a: Seq<char>, b: Seq<char>, c: char)
    requires
        forall|i: int| 0 <= i < a.len() ==> a[i] != c,
    ensures
        find_char(a + b, c) == a.len() + find_char(b, c),
    decreases a.len(),
{
    if a.len() > 0 {
        assert((a + b).drop_first() =~= a.drop_first() + b);
        lemma_find_char_append(a.drop_first(), b, c);
    } else {
        assert(a + b =~= b);
    }
}

proof fn lemma_lines_of_append(ls: Seq<Seq<char>>, s: Seq<char>)
    requires
        lines_of(join_lines(ls)) == ls,
        ls.len() > 0,
    ensures
        lines_of(join_lines(ls) + seq!['\n'] + s) == ls.push(s) || exists|i: int|
            0 <= i < s.len() && s[i] == '\n',
    decreases s.len(),
{
    let j = join_lines(ls);
    if s.len() == 0 {
        assert((j + seq!['\n'] + s).drop_last() =~= j);
        assert(s =~= Seq::<char>::empty());
    } else if s.last() == '\n' {
        assert(s[s.len() - 1] == '\n');
    } else {
        lemma_lines_of_append(ls, s.drop_last());
        let t = j + seq!['\n'] + s;
        assert(t.drop_last() =~= j + seq!['\n'] + s.drop_last());
        if lines_of(t.drop_last()) == ls.push(s.drop_last()) {
            assert(s.drop_last().push(s.last()) =~= s);
            assert(lines_of(t) =~= ls.push(s));
        } else {
            let i = choose|i: int| 0 <= i < s.drop_last().len() && s.drop_last()[i] == '\n';
            assert(s[i] == '\n');
        }
    }
}

/// Splitting joined lines gives them back, where no line holds a newline.
pub proof fn lemma_lines_of_join(ls: Seq<Seq<char>>)
    requires
        ls.len() > 0,
        forall|i: int, j: int| 0 <= i < ls.len() && 0 <= j < ls[i].len() ==> ls[i][j] != '\n',
    ensures
        lines_of(join_lines(ls)) == ls,
    decreases ls.len(),
{
    if ls.len() == 1 {
        lemma_lines_of_single(ls[0]);
        assert(seq![ls[0]] =~= ls);
    } else {
        lemma_lines_of_join(ls.drop_last());
        lemma_lines_of_append(ls.drop_last(), ls.last());
        assert(ls.drop_last().push(ls.last()) =~= ls);
        if exists|i: int| 0 <= i < ls.last().len() && ls.last()[i] == '\n' {
            let i = choose|i: int| 0 <= i < ls.last().len() && ls.last()[i] == '\n';
            assert(ls[ls.len() - 1][i] == '\n');
        }
    }
}

proof fn lemma_lines_of_single(s: Seq<char>)
    requires
        forall|j: int| 0 <= j < s.len() ==> s[j] != '\n',
    ensures
        lines_of(s) == seq![s],
    decreases s.len(),
{
    if s.len() > 0 {
        lemma_lines_of_single(s.drop_last());
        assert(s.drop_last().push(s.last()) =~= s);
        assert(seq![s.drop_last()].update(0, s.drop_last().push(s.last())) =~= seq![s]);
    } else {
        assert(s =~= Seq::<char>::empty());
    }
}

/// A `key = value` line is read back as that key and value.
pub proof fn lemma_read_kv_line(k: Seq<char>, v: Seq<char>)
    requires
        is_plain_key(k),
        is_trimmed(v),
    ensures
        !is_header(trim(kv_line(k, v))),
        find_char(trim(kv_line(k, v)), '=') < trim(kv_line(k, v)).len(),
        key_part(trim(kv_line(k, v))) == k,
        value_part(trim(kv_line(k, v))) == v,
{
    reveal_strlit(" = ");
    let line = kv_line(k, v);
    assert(line[0] == k[0]);
    assert(trim_start(line) == line);
    let t = if v.len() > 0 {
        assert(line.last() == v.last());
        line
    } else {
        assert(line.drop_last() =~= k + seq![' ', '=']);
        assert(trim_end(line) == trim_end(k + seq![' ', '=']));
        k + seq![' ', '=']
    };
    assert(trim(line) == t);
    assert(t =~= k + (seq![' ', '='] + t.subrange(k.len() + 2int, t.len() as int)));
    let u = seq![' ', '='] + t.subrange(k.len() + 2int, t.len() as int);
    assert(u[0] == ' ');
    assert(u.drop_first()[0] == '=');
    assert(find_char(u.drop_first(), '=') == 0);
    assert(find_char(u, '=') == 1);
    lemma_find_char_append(k, u, '=');
    assert(find_char(t, '=') == k.len() + 1);
    assert(t.subrange(0, k.len() + 1int) =~= k.push(' '));
    assert(k.push(' ').drop_last() =~= k);
    assert(trim_start(k.push(' ')) == k.push(' '));
    assert(trim_end(k.push(' ')) == trim_end(k));
    assert(trim_end(k) == k);
    if v.len() > 0 {
        let rest = t.subrange(k.len() + 2int, t.len() as int);
        assert(rest =~= seq![' '] + v);
        assert(rest.drop_first() =~= v);
        assert(trim_start(rest) == trim_start(v));
        assert(trim_start(v) == v);
        assert(trim_end(v) == v);
    } else {
        assert(t.subrange(k.len() + 2int, t.len() as int) =~= Seq::<char>::empty());
    }
}

proof fn lemma_decimal_digits(n: nat)
    ensures
        decimal_of(n).len() > 0,
        forall|i: int| 0 <= i < decimal_of(n).len() ==> '0' <= #[trigger] decimal_of(n)[i] <= '9',
    decreases n,
{
    if n >= 10 {
        lemma_decimal_digits(n / 10);
        let d = decimal_of(n / 10);
        assert forall|i: int| 0 <= i < decimal_of(n).len() implies '0' <= #[trigger] decimal_of(n)[i]
            <= '9' by {
            if i < d.len() {
                assert(decimal_of(n)[i] == d[i]);
            }
        }
    }
}

proof fn lemma_read_lines_step(ls: Seq<Seq<char>>, k: int)
    requires
        0 < k <= ls.len(),
    ensures
        read_lines(ls.subrange(0, k)) == read_line(read_lines(ls.subrange(0, k - 1)), ls[k - 1]),
{
    assert(ls.subrange(0, k).drop_last() =~= ls.subrange(0, k - 1));
}

proof fn lemma_read_kv_step(st: (bool, Seq<Entry>), k: Seq<char>, v: Seq<char>)
    requires
        st.0,
        is_plain_key(k),
        is_trimmed(v),
    ensures
        read_line(st, kv_line(k, v)) == (true, st.1.push((k, v))),
{
    lemma_read_kv_line(k, v);
}

proof fn lemma_read_header(st: (bool, Seq<Entry>), name: Seq<char>)
    requires
        forall|i: int| 0 <= i < name.len() ==> !is_ws(#[trigger] name[i]) && name[i] != '[',
    ensures
        read_line(st, seq!['['] + name + seq![']']) == (is_known_section(name), st.1),
{
    let h = seq!['['] + name + seq![']'];
    assert(trim_start(h) == h);
    assert(trim_end(h) == h);
    assert(h.subrange(1, h.len() - 1) =~= name);
}

/// Writing a location and its prayer times and reading the text back gives
/// the same location and times, where each value is on one line and has no
/// surrounding whitespace.
pub proof fn law_write_then_read(location: Location, times: PrayerTimes)
    requires
        is_clean_value(location.city@),
        is_clean_value(location.gmt@),
        is_clean_value(times.shubuh@),
        is_clean_value(times.dzuhur@),
        is_clean_value(times.ashar@),
        is_clean_value(times.maghrib@),
        is_clean_value(times.isya@),
    ensures
        ({
            let es = entries_of(join_lines(full_lines(location.id, location.city@, location.gmt@, times)));
            &&& lookup(es, "id"@) == Some(decimal_of(location.id as nat))
            &&& lookup(es, "name"@) == Some(location.city@)
            &&& lookup(es, "gmt"@) == Some(location.gmt@)
            &&& lookup(es, "shubuh"@) == Some(times.shubuh@)
            &&& lookup(es, "dzuhur"@) == Some(times.dzuhur@)
            &&& lookup(es, "ashar"@) == Some(times.ashar@)
            &&& lookup(es, "maghrib"@) == Some(times.maghrib@)
            &&& lookup(es, "isya"@) == Some(times.isya@)
        }),
{
    reveal_strlit("[location]");
    reveal_strlit("[adzan]");
    reveal_strlit("location");
    reveal_strlit("adzan");
    reveal_strlit("id");
    reveal_strlit("name");
    reveal_strlit("gmt");
    reveal_strlit("shubuh");
    reveal_strlit("dzuhur");
    reveal_strlit("ashar");
    reveal_strlit("maghrib");
    reveal_strlit("isya");
    reveal_strlit(" = ");
    let dec = decimal_of(location.id as nat);
    lemma_decimal_digits(location.id as nat);
    assert(is_clean_value(dec));
    let ls = full_lines(location.id, location.city@, location.gmt@, times);
    assert forall|i: int, j: int| 0 <= i < ls.len() && 0 <= j < ls[i].len() implies ls[i][j] != '\n' by {
        if 1 <= i <= 3 || 6 <= i <= 10 {
            let k = if i == 1 { "id"@ } else if i == 2 { "name"@ } else if i == 3 { "gmt"@ }
                else if i == 6 { "shubuh"@ } else if i == 7 { "dzuhur"@ } else if i == 8 { "ashar"@ }
                else if i == 9 { "maghrib"@ } else { "isya"@ };
            let v = if i == 1 { dec } else if i == 2 { location.city@ } else if i == 3 { location.gmt@ }
                else if i == 6 { times.shubuh@ } else if i == 7 { times.dzuhur@ } else if i == 8 { times.ashar@ }
                else if i == 9 { times.maghrib@ } else { times.isya@ };
            assert(ls[i] == kv_line(k, v));
            if j >= k.len() + 3 {
                assert(ls[i][j] == v[j - k.len() - 3]);
            }
        }
    }
    lemma_lines_of_join(ls);
    assert(ls[0] =~= seq!['['] + "location"@ + seq![']']);
    assert(ls[5] =~= seq!['['] + "adzan"@ + seq![']']);
    let e0 = (false, Seq::<Entry>::empty());
    assert(ls.subrange(0, 0) =~= Seq::<Seq<char>>::empty());
    lemma_read_lines_step(ls, 1);
    lemma_read_header(e0, "location"@);
    let e1 = (true, Seq::<Entry>::empty());
    lemma_read_lines_step(ls, 2);
    lemma_read_kv_step(e1, "id"@, dec);
    let e2 = (true, e1.1.push(("id"@, dec)));
    lemma_read_lines_step(ls, 3);
    lemma_read_kv_step(e2, "name"@, location.city@);
    let e3 = (true, e2.1.push(("name"@, location.city@)));
    lemma_read_lines_step(ls, 4);
    lemma_read_kv_step(e3, "gmt"@, location.gmt@);
    let e4 = (true, e3.1.push(("gmt"@, location.gmt@)));
    lemma_read_lines_step(ls, 5);
    assert(read_line(e4, Seq::empty()) == e4);
    lemma_read_lines_step(ls, 6);
    lemma_read_header(e4, "adzan"@);
    lemma_read_lines_step(ls, 7);
    lemma_read_kv_step(e4, "shubuh"@, times.shubuh@);
    let e7 = (true, e4.1.push(("shubuh"@, times.shubuh@)));
    lemma_read_lines_step(ls, 8);
    lemma_read_kv_step(e7, "dzuhur"@, times.dzuhur@);
    let e8 = (true, e7.1.push(("dzuhur"@, times.dzuhur@)));
    lemma_read_lines_step(ls, 9);
    lemma_read_kv_step(e8, "ashar"@, times.ashar@);
    let e9 = (true, e8.1.push(("ashar"@, times.ashar@)));
    lemma_read_lines_step(ls, 10);
    lemma_read_kv_step(e9, "maghrib"@, times.maghrib@);
    let e10 = (true, e9.1.push(("maghrib"@, times.maghrib@)));
    lemma_read_lines_step(ls, 11);
    lemma_read_kv_step(e10, "isya"@, times.isya@);
    let e11 = (true, e10.1.push(("isya"@, times.isya@)));
    lemma_read_lines_step(ls, 12);
    assert(read_line(e11, Seq::empty()) == e11);
    assert(ls.subrange(0, 12) =~= ls);
    let es = e11.1;
    assert(entries_of(join_lines(ls)) == es);
    assert(es.drop_last() =~= e10.1);
    assert(e10.1.drop_last() =~= e9.1);
    assert(e9.1.drop_last() =~= e8.1);
    assert(e8.1.drop_last() =~= e7.1);
    assert(e7.1.drop_last() =~= e4.1);
    assert(e4.1.drop_last() =~= e3.1);
    assert(e3.1.drop_last() =~= e2.1);
    assert(e2.1.drop_last() =~= e1.1);
    reveal_with_fuel(lookup, 9);
}

proof fn lemma_toggle_prefix(ls: Seq<Seq<char>>, key: Seq<char>, n: int)
    requires
        0 <= n <= ls.len(),
    ensures
        toggle_lines(ls.subrange(0, n), key).4 == toggle_lines(ls, key).4.subrange(0, n),
    decreases ls.len(),
{
    lemma_toggle_lines_found(ls, key);
    if n == ls.len() {
        assert(ls.subrange(0, n) =~= ls);
        assert(toggle_lines(ls, key).4.subrange(0, n) =~= toggle_lines(ls, key).4);
    } else {
        lemma_toggle_prefix(ls.drop_last(), key, n);
        lemma_toggle_lines_found(ls.drop_last(), key);
        assert(ls.drop_last().subrange(0, n) =~= ls.subrange(0, n));
        assert(toggle_lines(ls, key).4.subrange(0, n) =~= toggle_lines(ls.drop_last(), key).4.subrange(
            0,
            n,
        ));
    }
}

proof fn lemma_lines_no_newline(s: Seq<char>)
    ensures
        forall|i: int, j: int|
            0 <= i < lines_of(s).len() && 0 <= j < lines_of(s)[i].len() ==> lines_of(s)[i][j] != '\n',
    decreases s.len(),
{
    if s.len() > 0 {
        lemma_lines_no_newline(s.drop_last());
        lemma_lines_nonempty(s.drop_last());
        let init = lines_of(s.drop_last());
        assert forall|i: int, j: int|
            0 <= i < lines_of(s).len() && 0 <= j < lines_of(s)[i].len() implies lines_of(s)[i][j]
            != '\n' by {
            if i < init.len() - 1 {
                assert(lines_of(s)[i] == init[i]);
            } else if i == init.len() - 1 && s.last() != '\n' {
                if j < init[i].len() {
                    assert(lines_of(s)[i][j] == init[i][j]);
                }
            } else if i == init.len() - 1 {
                assert(lines_of(s)[i] == init[i]);
            }
        }
    }
}

proof fn lemma_flag_line(key: Seq<char>, on: bool)
    requires
        is_plain_key(key),
    ensures
        trim(kv_line(key, on_off(on))) != "[audio]"@,
        trim(kv_line(key, on_off(on))).len() > 0,
        trim(kv_line(key, on_off(on)))[0] != '[',
        is_key_line(kv_line(key, on_off(on)), key),
        flag_part(kv_line(key, on_off(on))) == on_off(on),
        (on_off(on) != "on"@) == !on,
        forall|j: int| 0 <= j < kv_line(key, on_off(on)).len() ==> kv_line(key, on_off(on))[j] != '\n',
{
    reveal_strlit(" = ");
    reveal_strlit(" =");
    reveal_strlit("on");
    reveal_strlit("off");
    reveal_strlit("[audio]");
    let x = on_off(on);
    let line = kv_line(key, x);
    let k = key.len() as int;
    assert(line[0] == key[0]);
    assert(line.last() == x.last());
    assert(trim_start(line) == line);
    assert(trim_end(line) == line);
    assert(trim(line)[0] != "[audio]"@[0]);
    let fold = ascii_fold(line);
    assert(fold.subrange(0, k + 2) =~= ascii_fold(key) + " ="@) by {
        assert forall|i: int| 0 <= i < k + 2 implies fold.subrange(0, k + 2)[i] == (ascii_fold(key)
            + " ="@)[i] by {
            if i < k {
                assert(line[i] == key[i]);
            }
        }
    }
    let u = seq![' ', '='] + line.subrange(k + 2, line.len() as int);
    assert(line =~= key + u);
    assert(u[0] == ' ');
    assert(u.drop_first()[0] == '=');
    assert(find_char(u.drop_first(), '=') == 0);
    assert(find_char(u, '=') == 1);
    lemma_find_char_append(key, u, '=');
    let rest = line.subrange(k + 2, line.len() as int);
    assert(rest =~= seq![' '] + x);
    lemma_find_char_bounds(rest, '=');
    assert(find_char(rest, '=') == rest.len());
    assert(rest.subrange(0, rest.len() as int) =~= rest);
    assert(rest.drop_first() =~= x);
    assert(trim_start(rest) == trim_start(x));
    assert(trim_start(x) == x);
    assert(trim_end(x) == x);
    assert forall|j: int| 0 <= j < line.len() implies line[j] != '\n' by {
        if j < k {
            assert(line[j] == key[j]);
        }
    }
}

/// A line after two toggles: the line as it was, or, for a line of the key,
/// the key with the flag it had, `on` staying `on` and any other value
/// reading `off`.
pub open spec fn restored(l0: Seq<char>, l2: Seq<char>, key: Seq<char>) -> bool {
    l2 == l0 || (is_key_line(l0, key) && l2 == kv_line(key, on_off(flag_part(l0) == "on"@)))
}

proof fn lemma_twice_prefix(ls0: Seq<Seq<char>>, key: Seq<char>, n: int)
    requires
        is_plain_key(key),
        0 <= n <= ls0.len(),
    ensures
        ({
            let ls1 = toggle_lines(ls0, key).4;
            let a = toggle_lines(ls0.subrange(0, n), key);
            let b = toggle_lines(ls1.subrange(0, n), key);
            &&& b.0 == a.0
            &&& b.1 == a.1
            &&& b.2 == a.2
            &&& b.3 == (if a.2 {
                !a.3
            } else {
                a.3
            })
            &&& b.4.len() == n
            &&& forall|i: int| 0 <= i < n ==> restored(ls0[i], #[trigger] b.4[i], key)
        }),
    decreases n,
{
    let ls1 = toggle_lines(ls0, key).4;
    lemma_toggle_lines_found(ls0, key);
    if n == 0 {
        assert(ls0.subrange(0, 0) =~= Seq::<Seq<char>>::empty());
        assert(ls1.subrange(0, 0) =~= Seq::<Seq<char>>::empty());
    } else {
        lemma_twice_prefix(ls0, key, n - 1);
        lemma_toggle_prefix(ls0, key, n);
        lemma_toggle_lines_found(ls0.subrange(0, n), key);
        lemma_toggle_lines_found(ls1.subrange(0, n), key);
        lemma_toggle_lines_found(ls1.subrange(0, n - 1), key);
        let pa = toggle_lines(ls0.subrange(0, n - 1), key);
        let pb = toggle_lines(ls1.subrange(0, n - 1), key);
        let a = toggle_lines(ls0.subrange(0, n), key);
        let b = toggle_lines(ls1.subrange(0, n), key);
        assert(ls0.subrange(0, n).drop_last() =~= ls0.subrange(0, n - 1));
        assert(ls1.subrange(0, n).drop_last() =~= ls1.subrange(0, n - 1));
        let line = ls0[n - 1];
        assert(a == toggle_line(pa, line, key));
        assert(b == toggle_line(pb, ls1[n - 1], key));
        assert(a.4[n - 1] == ls1[n - 1]);
        assert(b.4.drop_last() =~= pb.4);
        let t = trim(line);
        if t == "[audio]"@ {
            assert(ls1[n - 1] == line);
        } else {
            let ia = if t.len() > 0 && t[0] == '[' {
                false
            } else {
                pa.0
            };
            if ia && is_key_line(line, key) {
                let on = flag_part(line) != "on"@;
                assert(ls1[n - 1] == kv_line(key, on_off(on)));
                lemma_flag_line(key, on);
            } else {
                assert(ls1[n - 1] == line);
            }
        }
        assert forall|i: int| 0 <= i < n implies restored(ls0[i], #[trigger] b.4[i], key) by {
            if i < n - 1 {
                assert(b.4[i] == pb.4[i]);
            }
        }
    }
}

/// Toggling a flag twice restores it: where the key is set in an `[audio]`
/// section, the second toggle reports the opposite of the first, and each
/// line ends as it was, but for the key's own lines, whose flag comes back
/// (`on` as `on`, any other value as `off`).
pub proof fn law_toggle_twice(text: Seq<char>, key: Seq<char>)
    requires
        is_plain_key(key),
        toggle_lines(lines_of(text), key).2,
    ensures
        ({
            let ls0 = lines_of(text);
            let first = toggled(ls0, key);
            let second = toggled(lines_of(join_lines(first.0)), key);
            &&& second.1 == !first.1
            &&& second.0.len() == ls0.len()
            &&& forall|i: int| 0 <= i < ls0.len() ==> restored(ls0[i], #[trigger] second.0[i], key)
        }),
{
    let ls0 = lines_of(text);
    let ls1 = toggle_lines(ls0, key).4;
    lemma_toggle_lines_found(ls0, key);
    lemma_lines_no_newline(text);
    lemma_lines_nonempty(text);
    assert forall|i: int, j: int| 0 <= i < ls1.len() && 0 <= j < ls1[i].len() implies ls1[i][j]
        != '\n' by {
        if ls1[i] == kv_line(key, "on"@) {
            lemma_flag_line(key, true);
        } else if ls1[i] == kv_line(key, "off"@) {
            lemma_flag_line(key, false);
        }
    }
    lemma_lines_of_join(ls1);
    lemma_twice_prefix(ls0, key, ls0.len() as int);
    assert(ls0.subrange(0, ls0.len() as int) =~= ls0);
    assert(ls1.subrange(0, ls0.len() as int) =~= ls1);
}

} // verus!
