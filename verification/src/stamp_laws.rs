//! What reading a stamp is for: laws of the words of a stamp, of the instant it names and of the zone it
//! is read in.
use crate::calendar::Civil;
use crate::text::js_space;
use crate::timestamp::{
    all_digits, all_word, decimal, instant_of_stamp, is_digit, month_from, ms_of_seconds,
    resolution, stamped, whole_minutes, words, zone_listed, zone_local, zone_offset, ZoneSource,
    ZoneV,
};
use vstd::prelude::*;

verus! {

// ---- words -----------------------------------------------------------------------------------

/// A text of one character at least, without white space.
pub open spec fn is_word(w: Seq<char>) -> bool {
    w.len() > 0 && forall|i: int| 0 <= i < w.len() ==> !js_space(#[trigger] w[i])
}

proof fn lemma_word_after_a_space(s: Seq<char>, w: Seq<char>)
    requires
        s.len() == 0 || js_space(s.last()),
        is_word(w),
    ensures
        words(s + w) == words(s).push(w),
    decreases w.len(),
{
    let f = w.drop_last();
    let t = s + w;
    assert(t.drop_last() =~= s + f);
    assert(t.last() == w[w.len() - 1]);
    if f.len() == 0 {
        assert(s + f =~= s);
        assert(w =~= seq![w.last()]);
        if s.len() > 0 {
            assert(t[t.len() - 2] == s.last());
        }
    } else {
        assert forall|i: int| 0 <= i < f.len() implies !js_space(#[trigger] f[i]) by {
            assert(f[i] == w[i]);
        }
        lemma_word_after_a_space(s, f);
        assert(t[t.len() - 2] == w[w.len() - 2]);
        assert(words(s).push(f).drop_last() =~= words(s));
        assert(f.push(w.last()) =~= w);
    }
}

/// A word behind a text and a space is one more word, and white space at the end is none.
pub proof fn a_word_behind_a_space_is_one_more(s: Seq<char>, w: Seq<char>, space: char)
    requires
        js_space(space),
        is_word(w),
    ensures
        words(s + seq![space] + w) == words(s).push(w),
        words(s + seq![space]) == words(s),
        words(Seq::empty()) == Seq::<Seq<char>>::empty(),
{
    let t = s + seq![space];
    assert(t.drop_last() =~= s);
    assert(t.last() == space);
    lemma_word_after_a_space(t, w);
}

// ---- stamps ----------------------------------------------------------------------------------

/// The word is these three letters, given small, in either case.
pub open spec fn is_spelled(w: Seq<char>, a: char, b: char, c: char) -> bool {
    &&& w.len() == 3
    &&& w[0] == a || w[0] as int + 32 == a as int
    &&& w[1] == b || w[1] as int + 32 == b as int
    &&& w[2] == c || w[2] as int + 32 == c as int
}

/// The months by their first three letters, in their order.
pub proof fn a_month_is_its_first_three_letters(w: Seq<char>)
    ensures
        is_spelled(w, 'j', 'a', 'n') <==> month_from(w, 1) == 1,
        is_spelled(w, 'f', 'e', 'b') <==> month_from(w, 1) == 2,
        is_spelled(w, 'm', 'a', 'r') <==> month_from(w, 1) == 3,
        is_spelled(w, 'a', 'p', 'r') <==> month_from(w, 1) == 4,
        is_spelled(w, 'm', 'a', 'y') <==> month_from(w, 1) == 5,
        is_spelled(w, 'j', 'u', 'n') <==> month_from(w, 1) == 6,
        is_spelled(w, 'j', 'u', 'l') <==> month_from(w, 1) == 7,
        is_spelled(w, 'a', 'u', 'g') <==> month_from(w, 1) == 8,
        is_spelled(w, 's', 'e', 'p') <==> month_from(w, 1) == 9,
        is_spelled(w, 'o', 'c', 't') <==> month_from(w, 1) == 10,
        is_spelled(w, 'n', 'o', 'v') <==> month_from(w, 1) == 11,
        is_spelled(w, 'd', 'e', 'c') <==> month_from(w, 1) == 12,
        0 <= month_from(w, 1) <= 12,
{
    reveal_strlit("jan");
    reveal_strlit("feb");
    reveal_strlit("mar");
    reveal_strlit("apr");
    reveal_strlit("may");
    reveal_strlit("jun");
    reveal_strlit("jul");
    reveal_strlit("aug");
    reveal_strlit("sep");
    reveal_strlit("oct");
    reveal_strlit("nov");
    reveal_strlit("dec");
    reveal_with_fuel(month_from, 14);
}

/// The number that two digits write.
pub open spec fn pair(a: char, b: char) -> int {
    10 * (a as int - 48) + (b as int - 48)
}

proof fn lemma_pair(s: Seq<char>)
    requires
        s.len() == 2,
    ensures
        decimal(s) == pair(s[0], s[1]),
{
    reveal_with_fuel(decimal, 3);
    assert(s.drop_last().drop_last() =~= Seq::empty());
}

proof fn lemma_four(s: Seq<char>)
    requires
        s.len() == 4,
    ensures
        decimal(s) == 100 * pair(s[0], s[1]) + pair(s[2], s[3]),
{
    reveal_with_fuel(decimal, 5);
    assert(s.drop_last().drop_last().drop_last().drop_last() =~= Seq::empty());
}

/// A stamp is five words: a weekday and a month of three word characters, a day of one digit or two, a
/// clock of three pairs of digits with colons between them, and a year of four digits. What it states is
/// the month by its letters and the numbers by their digits; a text of any other words states nothing.
pub proof fn a_stamp_states_its_fields(stamp: Seq<char>)
    ensures
        ({
            let ws = words(stamp);
            let (day, at, year) = (ws[2], ws[3], ws[4]);
            let shaped = ws.len() == 5 && ws[0].len() == 3 && ws[1].len() == 3 && all_word(ws[0])
                && all_word(ws[1]) && (day.len() == 1 || day.len() == 2) && all_digits(day) && at.len()
                == 8 && at[2] == ':' && at[5] == ':' && is_digit(at[0]) && is_digit(at[1]) && is_digit(
                at[3],
            ) && is_digit(at[4]) && is_digit(at[6]) && is_digit(at[7]) && year.len() == 4 && all_digits(
                year,
            );
            &&& stamped(stamp) is Some <==> shaped && month_from(ws[1], 1) > 0
            &&& stamped(stamp) matches Some(c) ==> {
                &&& c.month == month_from(ws[1], 1)
                &&& day.len() == 2 ==> c.day == pair(day[0], day[1])
                &&& day.len() == 1 ==> c.day == day[0] as int - 48
                &&& c.hour == pair(at[0], at[1])
                &&& c.minute == pair(at[3], at[4])
                &&& c.second == pair(at[6], at[7])
                &&& c.year == 100 * pair(year[0], year[1]) + pair(year[2], year[3])
            }
        }),
{
    let ws = words(stamp);
    if stamped(stamp) is Some {
        a_month_is_its_first_three_letters(ws[1]);
        let (day, at, year) = (ws[2], ws[3], ws[4]);
        lemma_four(year);
        lemma_pair(at.subrange(0, 2));
        lemma_pair(at.subrange(3, 5));
        lemma_pair(at.subrange(6, 8));
        assert(is_digit(year[0]) && is_digit(year[1]) && is_digit(year[2]) && is_digit(year[3]));
        assert(is_digit(day[0]));
        if day.len() == 2 {
            lemma_pair(day);
            assert(is_digit(day[1]));
        } else {
            reveal_with_fuel(decimal, 2);
            assert(day.drop_last() =~= Seq::empty());
        }
    }
}

/// A digit is one of the ten, and a word character a letter of the English alphabet in either case, a
/// digit or an underscore.
pub proof fn digits_and_word_characters(c: char)
    ensures
        is_digit(c) <==> 48 <= c as int <= 57,
        crate::timestamp::is_word_char(c) <==> 48 <= c as int <= 57 || 65 <= c as int <= 90 || 97
            <= c as int <= 122 || c as int == 95,
{
}

// ---- instants --------------------------------------------------------------------------------

impl ZoneV {
    /// A wall clock is read at the offset that the zone showed it at, the earlier of two in a repeated
    /// hour; in a skipped hour at the one that held on the clock a day before. The instant and the offset
    /// together are the wall clock again.
    pub proof fn an_instant_and_its_offset_are_the_wall_clock(self, local_secs: int)
        ensures
            ({
                let off = local_secs - self.instant(local_secs) / 1000;
                &&& self.instant(local_secs) % 1000 == 0
                &&& self matches ZoneV::Fixed(seconds) ==> off == seconds
                &&& self matches ZoneV::Iana(name) ==> {
                    &&& zone_local(name, local_secs) matches Some((a, b)) ==> off == a
                    &&& zone_local(name, local_secs) is None ==> (zone_local(name, local_secs - 86_400)
                        matches Some((a, b)) ==> off == a)
                    &&& zone_local(name, local_secs) is None && zone_local(name, local_secs - 86_400)
                        is None ==> off == zone_offset(name, local_secs)
                }
            }),
    {
    }

    /// Minutes are the seconds of the offset cut off toward nought: never more of them than there are, and
    /// short of one more.
    pub proof fn minutes_are_whole(self, ms: int)
        ensures
            ({
                let seconds = self.offset(ms / 1000);
                let m = self.minutes(ms);
                &&& seconds >= 0 ==> 60 * m <= seconds < 60 * m + 60
                &&& seconds <= 0 ==> 60 * m - 60 < seconds <= 60 * m
                &&& self matches ZoneV::Iana(name) ==> seconds == zone_offset(name, ms / 1000)
                &&& self matches ZoneV::Fixed(s) ==> seconds == s
            }),
    {
    }

    /// A zone shows a reading at an instant exactly where the reading is one a wall clock can show and is
    /// the instant's seconds and the offset together.
    pub proof fn a_zone_shows_the_instant_and_its_offset(self, ms: int, c: Civil)
        ensures
            self.shows(ms, c) <==> c.valid() && c.secs() - self.offset(ms / 1000) == ms / 1000,
    {
    }
}

/// A stamp that a wall clock can show names the instant of its reading; any other text names nought.
pub proof fn a_stamp_names_an_instant(zone: ZoneV, stamp: Seq<char>)
    ensures
        stamped(stamp) matches Some(c) && c.valid() ==> instant_of_stamp(zone, stamp) == zone.instant(
            stamped(stamp)->0.secs(),
        ),
        !(stamped(stamp) matches Some(c) && c.valid()) ==> instant_of_stamp(zone, stamp) == 0,
{
}

/// The zone is the one the rung that answered holds: the host's name, the probe's, the host's offset, or
/// UTC. A name is taken only where no offset is hinted, or where its own, in whole minutes, is that one.
pub proof fn the_rung_that_answers_gives_the_zone(
    tz: Option<Seq<char>>,
    utc_offset_min: Option<i32>,
    now_ms: int,
    platform: Option<Seq<char>>,
)
    ensures
        ({
            let (zone, source) = resolution(tz, utc_offset_min, now_ms, platform);
            let host = tz is Some && zone_listed(tz->0) && (utc_offset_min is None || whole_minutes(
                zone_offset(tz->0, now_ms / 1000),
            ) == utc_offset_min->0);
            let probe = platform is Some && (utc_offset_min is None || whole_minutes(
                zone_offset(platform->0, now_ms / 1000),
            ) == utc_offset_min->0);
            let bare = utc_offset_min is Some && -1440 < utc_offset_min->0 < 1440;
            &&& host ==> zone == ZoneV::Iana(tz->0) && source == ZoneSource::Host
            &&& !host && probe ==> zone == ZoneV::Iana(platform->0) && source == ZoneSource::Platform
            &&& !host && !probe && bare ==> zone == ZoneV::Fixed(60 * utc_offset_min->0) && source
                == ZoneSource::Offset
            &&& !host && !probe && !bare ==> zone == ZoneV::Iana("UTC"@) && source == ZoneSource::Utc
        }),
{
}

/// A clock's whole seconds are that many thousands of milliseconds, and nought where there are none.
pub proof fn seconds_are_thousands(secs: u64)
    ensures
        crate::calendar::dated(secs as int) ==> ms_of_seconds(Some(secs)) == 1000 * secs,
        !crate::calendar::dated(secs as int) ==> ms_of_seconds(Some(secs)) == 0,
        ms_of_seconds(None) == 0,
{
}

/// The number that two characters write.
pub open spec fn written(a: char, b: char) -> int {
    (a as int - '0' as int) * 10 + (b as int - '0' as int)
}

/// An offset is written so that it reads back: a sign, the hours and the minutes in two digits each with a
/// colon between them, and the seconds likewise where there are any.
pub proof fn an_offset_reads_back(seconds: int)
    requires
        -86_400 < seconds < 86_400,
    ensures
        ({
            let t = crate::timestamp::offset_text(seconds);
            let h = written(t[1], t[2]);
            let m = written(t[4], t[5]);
            let s = if t.len() == 9 {
                written(t[7], t[8])
            } else {
                0
            };
            let size = h * 3600 + m * 60 + s;
            &&& t.len() == 6 || t.len() == 9
            &&& t.len() == 6 <==> size % 60 == 0
            &&& t[3] == ':' && (t.len() == 9 ==> t[6] == ':')
            &&& 0 <= m < 60 && 0 <= s < 60
            &&& t[0] == '-' <==> seconds < 0
            &&& t[0] == '+' <==> seconds >= 0
            &&& seconds == if t[0] == '-' {
                -size
            } else {
                size
            }
            &&& ZoneV::Fixed(seconds).name() == t
        }),
{
}

} // verus!
