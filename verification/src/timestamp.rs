//! `"Sat Aug 01 13:00:28 2026"` to epoch millis, in the zone the log was stamped in.
//!
//! Both corner cases of a clock change resolve at the offset in effect *before* the transition:
//!
//!   * Ambiguous (the hour a fall-back repeats): of the two offsets, the one that leads to the
//!     earlier instant.
//!   * Skipped (the hour a spring-forward deletes): the offset read off a local time a day earlier,
//!     which is the offset the gap interrupted.
use crate::calendar::{
    a_second_has_one_reading, dated, floor_div, is_dated, lemma_reading_splits, reading_of, secs_of,
    Civil,
};
use crate::text::{chars_of, is_js_space, js_space};
use vstd::prelude::*;

verus! {

// ---- zones -----------------------------------------------------------------------------------

/// Whether the IANA database lists a zone of this name.
pub uninterp spec fn zone_listed(name: Seq<char>) -> bool;

/// The seconds east of UTC that a listed zone keeps at an instant, in seconds since 1970.
pub uninterp spec fn zone_offset(name: Seq<char>, utc_secs: int) -> int;

/// The offsets at which a listed zone shows a wall clock, in seconds since 1970 on that clock: none,
/// one, or the two of a repeated hour with the one that leads to the earlier instant first.
pub uninterp spec fn zone_local(name: Seq<char>, local_secs: int) -> Option<(int, Option<int>)>;

/// Calls `chrono_tz::Tz`'s `FromStr`, a lookup in the crate's table of zone names. Its outcome is
/// named `zone_listed`; of the table no more is claimed than that it lists `UTC`.
#[verifier::external_body]
fn zone_known(name: &str) -> (r: bool)
    ensures
        r == zone_listed(name@),
        name@ == "UTC"@ ==> r,
{
    name.parse::<chrono_tz::Tz>().is_ok()
}

/// Calls `offset_from_utc_datetime` of a `chrono_tz::Tz`, and `fix` of the offset: the offset in force
/// at an instant, which is named `zone_offset`. A fixed offset is always less than a day.
#[verifier::external_body]
fn offset_at(name: &str, utc_secs: i64) -> (r: i32)
    requires
        zone_listed(name@),
        dated(utc_secs as int),
    ensures
        r == zone_offset(name@, utc_secs as int),
        -86_400 < r < 86_400,
{
    let tz: chrono_tz::Tz = name.parse().unwrap();
    let utc = chrono::DateTime::from_timestamp(utc_secs, 0).unwrap().naive_utc();
    let off = chrono::TimeZone::offset_from_utc_datetime(&tz, &utc);
    chrono::Offset::fix(&off).local_minus_utc()
}

/// Offsets, as numbers.
pub open spec fn offsets(o: Option<(i32, Option<i32>)>) -> Option<(int, Option<int>)> {
    match o {
        Some((a, Some(b))) => Some((a as int, Some(b as int))),
        Some((a, None)) => Some((a as int, None::<int>)),
        None => None,
    }
}

/// Calls `offset_from_local_datetime` of a `chrono_tz::Tz`, and `fix` of each offset: the offsets a
/// wall clock may be read at, which are named `zone_local`. Each one it gives is in force at the
/// instant it leads to, because the crate looks for the spans of time that the wall clock falls in
/// when they are shifted by their own offset. A fixed offset is always less than a day.
#[verifier::external_body]
fn local_offsets(name: &str, local_secs: i64) -> (r: Option<(i32, Option<i32>)>)
    requires
        zone_listed(name@),
        dated(local_secs as int),
    ensures
        offsets(r) == zone_local(name@, local_secs as int),
        r matches Some((a, _)) ==> -86_400 < a < 86_400,
        r matches Some((a, _)) ==> dated(local_secs - a) ==> zone_offset(name@, local_secs - a) == a,
{
    let tz: chrono_tz::Tz = name.parse().unwrap();
    let local = chrono::DateTime::from_timestamp(local_secs, 0).unwrap().naive_utc();
    let fix = |o: chrono_tz::TzOffset| chrono::Offset::fix(&o).local_minus_utc();
    match chrono::TimeZone::offset_from_local_datetime(&tz, &local) {
        chrono::LocalResult::None => None,
        chrono::LocalResult::Single(a) => Some((fix(a), None)),
        chrono::LocalResult::Ambiguous(a, b) => Some((fix(a), Some(fix(b)))),
    }
}

/// A zone of the IANA database, with its historical rules. It holds the name it is listed under.
#[derive(Debug, PartialEq, Eq)]
pub struct IanaZone {
    name: String,
}

impl View for IanaZone {
    type V = Seq<char>;

    closed spec fn view(&self) -> Seq<char> {
        self.name@
    }
}

impl IanaZone {
    #[verifier::type_invariant]
    spec fn inv(self) -> bool {
        zone_listed(self.name@)
    }

    /// The zone of a name, when the database lists one.
    pub fn parse(name: &str) -> (r: Option<IanaZone>)
        ensures
            match r {
                Some(z) => z@ == name@ && zone_listed(name@),
                None => !zone_listed(name@),
            },
            name@ == "UTC"@ ==> r is Some,
    {
        if zone_known(name) {
            Some(IanaZone { name: name.to_owned() })
        } else {
            None
        }
    }

    pub fn utc() -> (r: IanaZone)
        ensures
            r@ == "UTC"@,
    {
        IanaZone::parse("UTC").unwrap()
    }

    pub fn name(&self) -> (r: &str)
        ensures
            r@ == self@,
            zone_listed(self@),
    {
        proof {
            use_type_invariant(self);
        }
        self.name.as_str()
    }

    pub fn copy(&self) -> (r: IanaZone)
        ensures
            r@ == self@,
    {
        proof {
            use_type_invariant(self);
        }
        IanaZone { name: self.name.clone() }
    }
}

/// A constant offset, in seconds east of UTC: less than a day either way.
#[derive(Debug, Clone, Copy, PartialEq, Eq)]
pub struct FixedZone {
    seconds: i32,
}

impl View for FixedZone {
    type V = int;

    closed spec fn view(&self) -> int {
        self.seconds as int
    }
}

/// Calls `chrono::FixedOffset::east_opt`, which refuses a day or more either way.
#[verifier::external_body]
fn east_offset(seconds: i32) -> (r: Option<i32>)
    ensures
        r == (if -86_400 < seconds < 86_400 {
            Some(seconds)
        } else {
            None
        }),
{
    chrono::FixedOffset::east_opt(seconds).map(|off| off.local_minus_utc())
}

/// A digit, as a character.
pub open spec fn digit(n: int) -> char {
    (48 + n) as char
}

/// A number below a hundred, in two digits.
pub open spec fn two_digits(n: int) -> Seq<char> {
    seq![digit(n / 10), digit(n % 10)]
}

/// An offset as it is written: `+HH:MM`, or `-HH:MM`, with `:SS` behind it where there are seconds.
pub open spec fn offset_text(seconds: int) -> Seq<char> {
    let off = if seconds < 0 {
        -seconds
    } else {
        seconds
    };
    let head = seq![if seconds < 0 { '-' } else { '+' }] + two_digits(off / 3600) + seq![':']
        + two_digits(off / 60 % 60);
    if off % 60 == 0 {
        head
    } else {
        head + seq![':'] + two_digits(off % 60)
    }
}

/// Calls `chrono::FixedOffset`'s `Display`: a sign, the hours and minutes in two digits each with a
/// colon between them, and the seconds likewise where there are any.
#[verifier::external_body]
fn shown_offset(seconds: i32) -> (r: String)
    requires
        -86_400 < seconds < 86_400,
    ensures
        r@ == offset_text(seconds as int),
{
    chrono::FixedOffset::east_opt(seconds).unwrap().to_string()
}

impl FixedZone {
    #[verifier::type_invariant]
    spec fn inv(self) -> bool {
        -86_400 < self.seconds < 86_400
    }

    /// The offset, when it is one.
    pub fn east(seconds: i32) -> (r: Option<FixedZone>)
        ensures
            match r {
                Some(z) => z@ == seconds && -86_400 < seconds < 86_400,
                None => !(-86_400 < seconds < 86_400),
            },
    {
        match east_offset(seconds) {
            Some(s) => Some(FixedZone { seconds: s }),
            None => None,
        }
    }

    pub fn seconds(&self) -> (r: i32)
        ensures
            r == self@,
            -86_400 < r < 86_400,
    {
        proof {
            use_type_invariant(self);
        }
        self.seconds
    }
}

/// The zone a log's stamps resolve through: a named zone with history, or a bare offset. A fixed
/// offset has no transitions, so a session spanning one reads an hour off.
#[derive(Debug, PartialEq, Eq)]
pub enum Zone {
    /// A zone from the IANA database.
    Iana(IanaZone),
    /// A constant offset east of UTC.
    Fixed(FixedZone),
}

/// What a [`Zone`] states.
pub enum ZoneV {
    Iana(Seq<char>),
    Fixed(int),
}

impl View for Zone {
    type V = ZoneV;

    open spec fn view(&self) -> ZoneV {
        match self {
            Zone::Iana(z) => ZoneV::Iana(z@),
            Zone::Fixed(f) => ZoneV::Fixed(f@),
        }
    }
}

impl ZoneV {
    /// The seconds east of UTC at an instant.
    pub open spec fn offset(self, utc_secs: int) -> int {
        match self {
            ZoneV::Iana(name) => zone_offset(name, utc_secs),
            ZoneV::Fixed(seconds) => seconds,
        }
    }

    /// The offsets a wall clock may be read at.
    pub open spec fn local(self, local_secs: int) -> Option<(int, Option<int>)> {
        match self {
            ZoneV::Iana(name) => zone_local(name, local_secs),
            ZoneV::Fixed(seconds) => Some((seconds, None::<int>)),
        }
    }

    /// The offset a wall clock is read at: the first of those it may be, and in a skipped hour the one
    /// that held a day before.
    pub open spec fn reading_offset(self, local_secs: int) -> int {
        match self.local(local_secs) {
            Some((a, _)) => a,
            None => match self.local(local_secs - 86_400) {
                Some((a, _)) => a,
                None => self.offset(local_secs),
            },
        }
    }

    /// The instant of a wall clock, in milliseconds since 1970.
    pub open spec fn instant(self, local_secs: int) -> int {
        (local_secs - self.reading_offset(local_secs)) * 1000
    }

    pub open spec fn name(self) -> Seq<char> {
        match self {
            ZoneV::Iana(name) => name,
            ZoneV::Fixed(seconds) => offset_text(seconds),
        }
    }

    /// Minutes east of UTC at an instant, the odd seconds cut off.
    pub open spec fn minutes(self, ms: int) -> int {
        whole_minutes(self.offset(ms / 1000))
    }

    /// The wall clock shows this reading at the instant.
    pub open spec fn shows(self, ms: int, c: Civil) -> bool {
        c.valid() && c.secs() == ms / 1000 + self.offset(ms / 1000)
    }
}

/// Seconds in whole minutes, cut off toward nought.
pub open spec fn whole_minutes(seconds: int) -> int {
    if seconds >= 0 {
        seconds / 60
    } else {
        -((-seconds) / 60)
    }
}

/// An instant, in milliseconds since 1970, on a day that a date can have.
#[derive(Debug, Clone, Copy, PartialEq, Eq)]
pub struct UtcInstant {
    ms: i64,
}

impl View for UtcInstant {
    type V = int;

    closed spec fn view(&self) -> int {
        self.ms as int
    }
}

impl UtcInstant {
    #[verifier::type_invariant]
    spec fn inv(self) -> bool {
        dated(self.ms as int / 1000)
    }

    /// The instant, or nothing outside the representable range.
    pub fn from_timestamp_millis(ms: i64) -> (r: Option<UtcInstant>)
        ensures
            match r {
                Some(at) => at@ == ms && dated(ms as int / 1000),
                None => !dated(ms as int / 1000),
            },
    {
        if is_dated(floor_div(ms, 1000)) {
            Some(UtcInstant { ms })
        } else {
            None
        }
    }

    /// The first instant of 1970.
    pub fn epoch() -> (r: UtcInstant)
        ensures
            r@ == 0,
    {
        UtcInstant { ms: 0 }
    }

    pub fn ms(&self) -> (r: i64)
        ensures
            r == self@,
            dated(r as int / 1000),
    {
        proof {
            use_type_invariant(self);
        }
        self.ms
    }
}

impl From<IanaZone> for Zone {
    fn from(tz: IanaZone) -> (r: Zone) {
        Zone::Iana(tz)
    }
}

impl vstd::std_specs::convert::FromSpecImpl<IanaZone> for Zone {
    open spec fn obeys_from_spec() -> bool {
        true
    }

    open spec fn from_spec(tz: IanaZone) -> Zone {
        Zone::Iana(tz)
    }
}

impl Zone {
    /// A constant offset stated in minutes east of UTC, or `None` when that is not an offset.
    pub fn fixed(minutes: i32) -> (r: Option<Zone>)
        ensures
            match r {
                Some(z) => z@ == ZoneV::Fixed(minutes * 60) && -86_400 < minutes * 60 < 86_400,
                None => !(-86_400 < minutes * 60 < 86_400),
            },
    {
        match minutes.checked_mul(60) {
            Some(seconds) => match FixedZone::east(seconds) {
                Some(f) => Some(Zone::Fixed(f)),
                None => None,
            },
            None => None,
        }
    }

    /// How this zone names itself on the wire: the IANA name, or the signed `+HH:MM` offset.
    pub fn name(&self) -> (r: String)
        ensures
            r@ == self@.name(),
    {
        match self {
            Zone::Iana(tz) => tz.name().to_owned(),
            Zone::Fixed(off) => shown_offset(off.seconds()),
        }
    }

    /// The seconds east of UTC at an instant.
    fn offset_secs(&self, utc_secs: i64) -> (r: i32)
        requires
            dated(utc_secs as int),
        ensures
            r == self@.offset(utc_secs as int),
            -86_400 < r < 86_400,
    {
        match self {
            Zone::Iana(tz) => offset_at(tz.name(), utc_secs),
            Zone::Fixed(off) => off.seconds(),
        }
    }

    /// This zone's distance from UTC in minutes east, at one instant.
    pub fn offset_min(&self, at: UtcInstant) -> (r: i32)
        ensures
            r == self@.minutes(at@),
    {
        let seconds: i32 = self.offset_secs(floor_div(at.ms(), 1000));
        if seconds >= 0 {
            seconds / 60
        } else {
            -((-seconds) / 60)
        }
    }

    /// The same at an epoch-millis instant; nought for one that is not representable.
    pub fn offset_min_at_ms(&self, ms: i64) -> (r: i32)
        ensures
            r == (if dated(ms as int / 1000) {
                self@.minutes(ms as int)
            } else {
                0
            }),
    {
        match UtcInstant::from_timestamp_millis(ms) {
            Some(at) => self.offset_min(at),
            None => 0,
        }
    }

    pub fn copy(&self) -> (r: Zone)
        ensures
            r@ == self@,
    {
        match self {
            Zone::Iana(tz) => Zone::Iana(tz.copy()),
            Zone::Fixed(off) => Zone::Fixed(*off),
        }
    }
}

// ---- which zone ------------------------------------------------------------------------------

/// Where a resolved zone came from, and the only way a silent UTC fallback becomes visible.
#[derive(Debug, Clone, Copy, PartialEq, Eq, Structural)]
pub enum ZoneSource {
    /// The attach hint's IANA name.
    Host,
    /// This process's own platform probe.
    Platform,
    /// The attach hint's fixed offset: no name was usable.
    Offset,
    /// Nothing answered.
    Utc,
}

impl ZoneSource {
    pub open spec fn spelling(self) -> Seq<char> {
        match self {
            ZoneSource::Host => "host"@,
            ZoneSource::Platform => "platform"@,
            ZoneSource::Offset => "offset"@,
            ZoneSource::Utc => "utc"@,
        }
    }

    /// The wire spelling, which is also what a diagnostic prints.
    pub fn as_str(self) -> (r: &'static str)
        ensures
            r@ == self.spelling(),
    {
        match self {
            ZoneSource::Host => "host",
            ZoneSource::Platform => "platform",
            ZoneSource::Offset => "offset",
            ZoneSource::Utc => "utc",
        }
    }
}

/// What the app knows about its own clock, as the attach carries it. Both halves optional: absent
/// means the engine resolves alone.
#[derive(Debug, Clone, PartialEq, Eq)]
pub struct ZoneHint {
    /// An IANA name as the host spells it.
    pub tz: Option<String>,
    /// Minutes EAST of UTC at the instant of the attach.
    pub utc_offset_min: Option<i32>,
}

impl Default for ZoneHint {
    fn default() -> (r: Self)
        ensures
            r.tz is None,
            r.utc_offset_min is None,
    {
        ZoneHint { tz: None, utc_offset_min: None }
    }
}

/// A resolved zone and the evidence it rests on.
#[derive(Debug, PartialEq, Eq)]
pub struct ResolvedZone {
    /// The zone every stamp of this generation parses through.
    pub zone: Zone,
    /// Which rung of [`resolve_zone`]'s order answered.
    pub source: ZoneSource,
}

impl ResolvedZone {
    pub fn copy(&self) -> (r: ResolvedZone)
        ensures
            r.zone@ == self.zone@,
            r.source == self.source,
    {
        ResolvedZone { zone: self.zone.copy(), source: self.source }
    }
}

/// A hinted offset vetoes a zone NAME that disagrees with it. A name with no offset to check against
/// is accepted on trust.
pub open spec fn agreeing(name: Seq<char>, utc_offset_min: Option<i32>, now_ms: int) -> bool {
    match utc_offset_min {
        Some(want) => ZoneV::Iana(name).minutes(now_ms) == want,
        None => true,
    }
}

/// The zone and the rung that answered: the host's name, this process's probe, the host's offset,
/// UTC, in that order, and a name only where the hinted offset does not veto it.
pub open spec fn resolution(
    tz: Option<Seq<char>>,
    utc_offset_min: Option<i32>,
    now_ms: int,
    platform: Option<Seq<char>>,
) -> (ZoneV, ZoneSource) {
    if tz matches Some(n) && zone_listed(n) && agreeing(n, utc_offset_min, now_ms) {
        (ZoneV::Iana(tz->0), ZoneSource::Host)
    } else if platform matches Some(n) && agreeing(n, utc_offset_min, now_ms) {
        (ZoneV::Iana(platform->0), ZoneSource::Platform)
    } else if utc_offset_min matches Some(m) && -86_400 < m * 60 < 86_400 {
        (ZoneV::Fixed(utc_offset_min->0 * 60), ZoneSource::Offset)
    } else {
        (ZoneV::Iana("UTC"@), ZoneSource::Utc)
    }
}

pub open spec fn opt_zone(z: Option<IanaZone>) -> Option<Seq<char>> {
    match z {
        Some(z) => Some(z@),
        None => None,
    }
}

/// THE AGREEMENT RULE.
fn agrees(tz: &IanaZone, utc_offset_min: Option<i32>, now: UtcInstant) -> (r: bool)
    ensures
        r == agreeing(tz@, utc_offset_min, now@),
{
    match utc_offset_min {
        Some(want) => {
            let zone = Zone::Iana(tz.copy());
            zone.offset_min(now) == want
        },
        None => true,
    }
}

/// Which zone a generation parses through, with both readings of the outside world stated: the
/// instant the agreement rule judges at, and what the platform probe answered.
pub fn resolve_zone_at(hint: &ZoneHint, now: UtcInstant, platform: Option<IanaZone>) -> (r: ResolvedZone)
    ensures
        (r.zone@, r.source) == resolution(
            crate::text::opt_text(hint.tz),
            hint.utc_offset_min,
            now@,
            opt_zone(platform),
        ),
{
    if let Some(name) = &hint.tz {
        if let Some(tz) = IanaZone::parse(name.as_str()) {
            if agrees(&tz, hint.utc_offset_min, now) {
                return ResolvedZone { zone: Zone::Iana(tz), source: ZoneSource::Host };
            }
        }
    }
    if let Some(tz) = platform {
        if agrees(&tz, hint.utc_offset_min, now) {
            return ResolvedZone { zone: Zone::Iana(tz), source: ZoneSource::Platform };
        }
    }
    if let Some(minutes) = hint.utc_offset_min {
        if let Some(zone) = Zone::fixed(minutes) {
            return ResolvedZone { zone, source: ZoneSource::Offset };
        }
    }
    ResolvedZone { zone: Zone::Iana(IanaZone::utc()), source: ZoneSource::Utc }
}

/// Calls `iana_time_zone::get_timezone`, the platform's own name for its zone, or nothing where it
/// gives an error. It is read off the machine, so nothing is claimed of it.
#[verifier::external_body]
fn probe_zone_name() -> (r: Option<String>) {
    iana_time_zone::get_timezone().ok()
}

/// Calls `std::time::SystemTime::elapsed` on the first instant of 1970: the whole seconds since then,
/// or nothing on a clock set before it. It is the time, so nothing is claimed of it.
#[verifier::external_body]
fn seconds_elapsed() -> (r: Option<u64>) {
    std::time::SystemTime::UNIX_EPOCH.elapsed().ok().map(|d| d.as_secs())
}

/// The zone a probe's answer names, if it names one.
pub fn probed_zone(name: Option<String>) -> (r: Option<IanaZone>)
    ensures
        opt_zone(r) == (match crate::text::opt_text(name) {
            Some(n) if zone_listed(n) => Some(n),
            _ => None,
        }),
{
    match name {
        Some(n) => IanaZone::parse(n.as_str()),
        None => None,
    }
}

/// The platform's own answer, or `None`: a miss is ordinary.
pub fn platform_timezone() -> (r: Option<IanaZone>)
    ensures
        r matches Some(z) ==> zone_listed(z@),
{
    probed_zone(probe_zone_name())
}

/// A zone, or `UTC` for none.
pub fn zone_or_utc(z: Option<IanaZone>) -> (r: IanaZone)
    ensures
        r@ == (match opt_zone(z) {
            Some(n) => n,
            None => "UTC"@,
        }),
{
    match z {
        Some(tz) => tz,
        None => IanaZone::utc(),
    }
}

/// The host's IANA zone, or `UTC` when the platform will not name one.
pub fn host_timezone() -> (r: IanaZone)
    ensures
        zone_listed(r@) || r@ == "UTC"@,
{
    zone_or_utc(platform_timezone())
}

/// The instant a clock's whole seconds name, in milliseconds; the first instant of 1970 where there
/// are none or where they name no instant.
pub open spec fn ms_of_seconds(secs: Option<u64>) -> int {
    match secs {
        Some(s) if dated(s as int) => s * 1000,
        _ => 0,
    }
}

/// The instant a clock's reading names.
pub fn instant_of_seconds(secs: Option<u64>) -> (r: UtcInstant)
    ensures
        r@ == ms_of_seconds(secs),
{
    match secs {
        Some(s) => {
            if s > 9_223_372_036_854_775 {
                return UtcInstant::epoch();
            }
            match UtcInstant::from_timestamp_millis((s * 1000) as i64) {
                Some(at) => at,
                None => UtcInstant::epoch(),
            }
        },
        None => UtcInstant::epoch(),
    }
}

/// This process's wall clock, in whole seconds: whatever the clock reads, the instant that its reading
/// names.
pub fn now_utc() -> (r: UtcInstant)
    ensures
        exists|secs: Option<u64>| r@ == #[trigger] ms_of_seconds(secs),
        dated(r@ / 1000),
        r@ >= 0,
        r@ % 1000 == 0,
{
    let secs: Option<u64> = seconds_elapsed();
    let at = instant_of_seconds(secs);
    let _ms: i64 = at.ms();
    at
}

/// Which zone this generation parses through, in the order (a) the host's name, (b) this process's
/// probe, (c) the host's offset, (d) UTC, at this process's own clock and by its own probe.
pub fn resolve_zone(hint: &ZoneHint) -> (r: ResolvedZone)
    ensures
        exists|now: int, platform: Option<Seq<char>>|
            resolved_by(now, platform) && (r.zone@, r.source) == #[trigger] resolution(
                crate::text::opt_text(hint.tz),
                hint.utc_offset_min,
                now,
                platform,
            ),
{
    resolve_zone_at(hint, now_utc(), platform_timezone())
}

/// What may be read off a machine: an instant in whole seconds, not before 1970, and a listed zone or
/// none.
pub open spec fn resolved_by(now: int, platform: Option<Seq<char>>) -> bool {
    &&& now >= 0 && now % 1000 == 0 && dated(now / 1000)
    &&& platform matches Some(n) ==> zone_listed(n)
}

/// The first rung that answers is the one that is taken: a listed host name that is not vetoed wins
/// over everything, an agreeing probe over a bare offset, an offset over UTC; and the vetoed names
/// are never taken.
pub proof fn rungs_answer_in_order(
    tz: Option<Seq<char>>,
    utc_offset_min: Option<i32>,
    now_ms: int,
    platform: Option<Seq<char>>,
)
    ensures
        ({
            let (zone, source) = resolution(tz, utc_offset_min, now_ms, platform);
            let host = tz matches Some(n) && zone_listed(n) && agreeing(n, utc_offset_min, now_ms);
            let probe = platform matches Some(n) && agreeing(n, utc_offset_min, now_ms);
            let offset = utc_offset_min matches Some(m) && -1440 < m < 1440;
            &&& source == ZoneSource::Host <==> host
            &&& source == ZoneSource::Platform <==> !host && probe
            &&& source == ZoneSource::Offset <==> !host && !probe && offset
            &&& source == ZoneSource::Utc <==> !host && !probe && !offset
            &&& (source == ZoneSource::Host || source == ZoneSource::Platform)
                && utc_offset_min is Some ==> zone.minutes(now_ms) == utc_offset_min->0
            &&& source == ZoneSource::Offset ==> zone.minutes(now_ms) == utc_offset_min->0
        }),
{
}

// ---- stamps ----------------------------------------------------------------------------------

/// The words of a text: its runs of characters that are no white space.
pub open spec fn words(s: Seq<char>) -> Seq<Seq<char>>
    decreases s.len(),
{
    if s.len() == 0 {
        Seq::empty()
    } else {
        let front = words(s.drop_last());
        let c = s.last();
        if js_space(c) {
            front
        } else if s.len() == 1 || js_space(s[s.len() - 2]) {
            front.push(seq![c])
        } else {
            front.drop_last().push(front.last().push(c))
        }
    }
}

pub open spec fn is_digit(c: char) -> bool {
    '0' <= c <= '9'
}

/// A character of a word in the narrow sense: a letter of the English alphabet, a digit, or `_`.
pub open spec fn is_word_char(c: char) -> bool {
    is_digit(c) || 'A' <= c <= 'Z' || 'a' <= c <= 'z' || c == '_'
}

pub open spec fn all_word(s: Seq<char>) -> bool {
    forall|i: int| 0 <= i < s.len() ==> is_word_char(#[trigger] s[i])
}

pub open spec fn all_digits(s: Seq<char>) -> bool {
    forall|i: int| 0 <= i < s.len() ==> is_digit(#[trigger] s[i])
}

/// The number that decimal digits write.
pub open spec fn decimal(s: Seq<char>) -> int
    decreases s.len(),
{
    if s.len() == 0 {
        0
    } else {
        10 * decimal(s.drop_last()) + (s.last() as int - '0' as int)
    }
}

/// The two letters are the same but for their case; the second is a small one.
pub open spec fn same_letter(c: char, small: char) -> bool {
    c == small || c as int + 32 == small as int
}

/// The three letters of a month's name, in either case.
pub open spec fn spells_month(w: Seq<char>, name: Seq<char>) -> bool {
    w.len() == 3 && same_letter(w[0], name[0]) && same_letter(w[1], name[1]) && same_letter(
        w[2],
        name[2],
    )
}

pub open spec fn month_names() -> Seq<Seq<char>> {
    seq![
        "jan"@, "feb"@, "mar"@, "apr"@, "may"@, "jun"@, "jul"@, "aug"@, "sep"@, "oct"@, "nov"@,
        "dec"@,
    ]
}

/// The first month from `n` on that a word spells, or nought.
pub open spec fn month_from(w: Seq<char>, n: int) -> int
    decreases 13 - n,
{
    if n > 12 {
        0
    } else if spells_month(w, month_names()[n - 1]) {
        n
    } else {
        month_from(w, n + 1)
    }
}

/// A clock's reading: two digits each, with colons between them.
pub open spec fn is_clock(w: Seq<char>) -> bool {
    &&& w.len() == 8
    &&& w[2] == ':' && w[5] == ':'
    &&& is_digit(w[0]) && is_digit(w[1]) && is_digit(w[3]) && is_digit(w[4]) && is_digit(w[6])
        && is_digit(w[7])
}

/// The five words a stamp is made of: a weekday of three word characters, a month of three, a day of
/// one or two digits, a clock's reading, and a year of four digits.
pub open spec fn is_stamp(ws: Seq<Seq<char>>) -> bool {
    &&& ws.len() == 5
    &&& ws[0].len() == 3 && all_word(ws[0])
    &&& ws[1].len() == 3 && all_word(ws[1])
    &&& 1 <= ws[2].len() <= 2 && all_digits(ws[2])
    &&& is_clock(ws[3])
    &&& ws[4].len() == 4 && all_digits(ws[4])
}

/// The reading a stamp states, where it is a stamp and names a month. It may be one that no wall clock
/// shows.
pub open spec fn stamped(stamp: Seq<char>) -> Option<Civil> {
    let ws = words(stamp);
    if is_stamp(ws) && month_from(ws[1], 1) > 0 {
        Some(
            Civil {
                year: decimal(ws[4]) as i32,
                month: month_from(ws[1], 1) as u32,
                day: decimal(ws[2]) as u32,
                hour: decimal(ws[3].subrange(0, 2)) as u32,
                minute: decimal(ws[3].subrange(3, 5)) as u32,
                second: decimal(ws[3].subrange(6, 8)) as u32,
            },
        )
    } else {
        None
    }
}

/// The instant of a stamp in a zone; nought for a text that is no stamp and for a stamp that no wall
/// clock shows.
pub open spec fn instant_of_stamp(zone: ZoneV, stamp: Seq<char>) -> int {
    match stamped(stamp) {
        Some(c) if c.valid() => zone.instant(c.secs()),
        _ => 0,
    }
}

/// The views of a list of words.
spec fn views(v: Seq<Vec<char>>) -> Seq<Seq<char>> {
    v.map_values(|w: Vec<char>| w@)
}

proof fn lemma_words_last(s: Seq<char>)
    requires
        s.len() > 0,
        !js_space(s.last()),
    ensures
        words(s).len() > 0,
    decreases s.len(),
{
    if s.len() > 1 && !js_space(s[s.len() - 2]) {
        lemma_words_last(s.drop_last());
    }
}

fn split_words(s: &str) -> (r: Vec<Vec<char>>)
    ensures
        views(r@) == words(s@),
{
    let cs = chars_of(s);
    let mut out: Vec<Vec<char>> = Vec::new();
    let mut i: usize = 0;
    assert(views(out@) =~= Seq::empty());
    while i < cs.len()
        invariant
            i <= cs.len(),
            cs@ == s@,
            views(out@) == words(s@.take(i as int)),
        decreases cs.len() - i,
    {
        let c: char = cs[i];
        let ghost front = s@.take(i as int);
        let ghost next = s@.take(i + 1);
        assert(next.drop_last() =~= front);
        assert(next.last() == c);
        let ghost before = out@;
        if !is_js_space(c) {
            if i == 0 || is_js_space(cs[i - 1]) {
                let mut w: Vec<char> = Vec::new();
                w.push(c);
                assert(w@ =~= seq![c]);
                out.push(w);
                assert(views(out@) =~= views(before).push(seq![c]));
            } else {
                proof {
                    assert(front.last() == s@[i - 1]);
                    lemma_words_last(front);
                }
                match out.pop() {
                    Some(mut w) => {
                        let ghost w0 = w@;
                        assert(w0 == views(before).last());
                        w.push(c);
                        out.push(w);
                        assert(views(out@) =~= views(before).drop_last().push(w0.push(c)));
                    },
                    None => {},
                }
            }
        }
        i = i + 1;
    }
    assert(s@.take(i as int) =~= s@);
    out
}

fn char_is_digit(c: char) -> (r: bool)
    ensures
        r == is_digit(c),
{
    '0' <= c && c <= '9'
}

fn char_is_word(c: char) -> (r: bool)
    ensures
        r == is_word_char(c),
{
    char_is_digit(c) || ('A' <= c && c <= 'Z') || ('a' <= c && c <= 'z') || c == '_'
}

fn every_word(w: &Vec<char>) -> (r: bool)
    ensures
        r == all_word(w@),
{
    let mut i: usize = 0;
    while i < w.len()
        invariant
            i <= w.len(),
            forall|j: int| 0 <= j < i ==> is_word_char(#[trigger] w@[j]),
        decreases w.len() - i,
    {
        if !char_is_word(w[i]) {
            return false;
        }
        i = i + 1;
    }
    true
}

fn every_digit(w: &Vec<char>) -> (r: bool)
    ensures
        r == all_digits(w@),
{
    let mut i: usize = 0;
    while i < w.len()
        invariant
            i <= w.len(),
            forall|j: int| 0 <= j < i ==> is_digit(#[trigger] w@[j]),
        decreases w.len() - i,
    {
        if !char_is_digit(w[i]) {
            return false;
        }
        i = i + 1;
    }
    true
}

fn clock_shaped(w: &Vec<char>) -> (r: bool)
    ensures
        r == is_clock(w@),
{
    w.len() == 8 && w[2] == ':' && w[5] == ':' && char_is_digit(w[0]) && char_is_digit(w[1])
        && char_is_digit(w[3]) && char_is_digit(w[4]) && char_is_digit(w[6]) && char_is_digit(w[7])
}

/// The number written by the digits of a word from one place up to another.
fn number_in(w: &Vec<char>, from: usize, to: usize) -> (r: u32)
    requires
        from <= to <= w.len(),
        to - from <= 4,
        forall|j: int| from <= j < to ==> is_digit(#[trigger] w@[j]),
    ensures
        r == decimal(w@.subrange(from as int, to as int)),
        0 <= r < 10_000,
        to - from <= 2 ==> r < 100,
{
    let mut n: u32 = 0;
    let mut i: usize = from;
    while i < to
        invariant
            from <= i <= to <= w.len(),
            to - from <= 4,
            forall|j: int| from <= j < to ==> is_digit(#[trigger] w@[j]),
            n == decimal(w@.subrange(from as int, i as int)),
            i - from == 0 ==> n == 0,
            i - from == 1 ==> n < 10,
            i - from == 2 ==> n < 100,
            i - from == 3 ==> n < 1000,
            i - from == 4 ==> n < 10_000,
        decreases to - i,
    {
        assert(w@.subrange(from as int, i + 1).drop_last() =~= w@.subrange(from as int, i as int));
        let c: char = w[i];
        assert(is_digit(w@[i as int]));
        n = 10 * n + (c as u32 - 48);
        i = i + 1;
    }
    n
}

fn letter_is(c: char, small: char) -> (r: bool)
    ensures
        r == same_letter(c, small),
{
    c == small || c as u32 + 32 == small as u32
}

fn month_name(n: u32) -> (r: &'static str)
    requires
        1 <= n <= 12,
    ensures
        r@ == month_names()[n - 1],
        r@.len() == 3,
{
    proof {
        reveal_strlit("jan");
        reveal_strlit("feb");
        reveal_strlit("mar");
        reveal_strlit("apr");
        reveal_strlit("may");
        reveal_strlit("jun");
        reveal_strlit("jul");
        reveal_strlit("aug");
        reveal_strlit("sep");
        reveal_strlit("oct");
        reveal_strlit("nov");
        reveal_strlit("dec");
    }
    if n == 1 {
        "jan"
    } else if n == 2 {
        "feb"
    } else if n == 3 {
        "mar"
    } else if n == 4 {
        "apr"
    } else if n == 5 {
        "may"
    } else if n == 6 {
        "jun"
    } else if n == 7 {
        "jul"
    } else if n == 8 {
        "aug"
    } else if n == 9 {
        "sep"
    } else if n == 10 {
        "oct"
    } else if n == 11 {
        "nov"
    } else {
        "dec"
    }
}

/// Month names are recognized by their first three letters, in either case; nought for none.
fn month_of(w: &Vec<char>) -> (r: u32)
    ensures
        r == month_from(w@, 1),
        r <= 12,
{
    let mut n: u32 = 1;
    while n <= 12
        invariant
            1 <= n <= 13,
            month_from(w@, 1) == month_from(w@, n as int),
        decreases 13 - n,
    {
        let name = month_name(n);
        if w.len() == 3 && letter_is(w[0], name.get_char(0)) && letter_is(w[1], name.get_char(1))
            && letter_is(w[2], name.get_char(2)) {
            return n;
        }
        n = n + 1;
    }
    0
}

/// The reading a stamp states, where it is a stamp and names a month.
pub fn read_stamp(stamp: &str) -> (r: Option<Civil>)
    ensures
        r == stamped(stamp@),
        r matches Some(c) ==> 0 <= c.year <= 9999,
{
    let ws = split_words(stamp);
    let ghost v = words(stamp@);
    if ws.len() != 5 {
        return None;
    }
    assert(forall|i: int| 0 <= i < 5 ==> #[trigger] v[i] == ws@[i]@);
    let shaped: bool = ws[0].len() == 3 && every_word(&ws[0]) && ws[1].len() == 3 && every_word(
        &ws[1],
    ) && 1 <= ws[2].len() && ws[2].len() <= 2 && every_digit(&ws[2]) && clock_shaped(&ws[3])
        && ws[4].len() == 4 && every_digit(&ws[4]);
    assert(shaped == is_stamp(v)) by {
        assert(v[0] == ws@[0]@ && v[1] == ws@[1]@ && v[2] == ws@[2]@ && v[3] == ws@[3]@ && v[4]
            == ws@[4]@);
    }
    if !shaped {
        return None;
    }
    let month: u32 = month_of(&ws[1]);
    if month == 0 {
        return None;
    }
    assert(v[2].subrange(0, v[2].len() as int) =~= v[2]);
    assert(v[4].subrange(0, 4) =~= v[4]);
    let day: u32 = number_in(&ws[2], 0, ws[2].len());
    let hour: u32 = number_in(&ws[3], 0, 2);
    let minute: u32 = number_in(&ws[3], 3, 5);
    let second: u32 = number_in(&ws[3], 6, 8);
    let year: u32 = number_in(&ws[4], 0, 4);
    Some(Civil { year: year as i32, month, day, hour, minute, second })
}

/// A local wall clock read as an instant, at the offset in effect before the transition where there is
/// one. Where the wall clock shows the reading at all, it shows it at that instant.
fn instant_of(zone: &Zone, c: Civil, local_secs: i64) -> (r: i64)
    requires
        c.valid(),
        local_secs == c.secs(),
        dated(local_secs as int),
        dated(local_secs - 86_400),
        dated(local_secs + 86_400),
    ensures
        r == zone@.instant(local_secs as int),
        zone@.local(local_secs as int) is Some ==> zone@.shows(r as int, c),
{
    let off: i32 = match zone {
        Zone::Fixed(f) => f.seconds(),
        Zone::Iana(tz) => {
            let name = tz.name();
            match local_offsets(name, local_secs) {
                Some((a, _)) => a,
                None => match local_offsets(name, local_secs - 86_400) {
                    Some((a, _)) => a,
                    None => offset_at(name, local_secs),
                },
            }
        },
    };
    (local_secs - off as i64) * 1000
}

/// The zone one attach's stamps resolve through.
pub struct Clock {
    zone: Zone,
}

impl View for Clock {
    type V = ZoneV;

    closed spec fn view(&self) -> ZoneV {
        self.zone@
    }
}

impl Clock {
    pub fn new(zone: Zone) -> (r: Self)
        ensures
            r@ == zone@,
    {
        Clock { zone }
    }

    pub fn zone(&self) -> (r: Zone)
        ensures
            r@ == self@,
    {
        self.zone.copy()
    }

    /// Read an epoch-millis instant back as the wall clock it shows on this zone.
    ///
    /// `None` for an instant outside the representable range, and for one whose wall clock is.
    pub fn civil(&self, ms: i64) -> (r: Option<Civil>)
        ensures
            r is Some <==> dated(ms as int / 1000) && dated(
                ms as int / 1000 + self@.offset(ms as int / 1000),
            ),
            r matches Some(c) ==> self@.shows(ms as int, c),
    {
        let secs: i64 = floor_div(ms, 1000);
        if !is_dated(secs) {
            return None;
        }
        let off: i32 = self.zone.offset_secs(secs);
        reading_of(secs + off as i64)
    }

    /// A stamp the pattern declines, or a date the calendar does not have, is 0.
    ///
    /// The wall clock of a stamp that some instant shows reads back out of the instant it resolved to;
    /// of a repeated hour this is so at the earlier of the two, and a skipped hour is shown at none.
    pub fn parse_eq_timestamp(&self, stamp: &str) -> (r: i64)
        ensures
            r == instant_of_stamp(self@, stamp@),
            stamped(stamp@) matches Some(c) ==> c.valid() && self@.local(c.secs()) is Some
                ==> self@.shows(r as int, c),
    {
        match read_stamp(stamp) {
            Some(c) => match secs_of(c.year, c.month, c.day, c.hour, c.minute, c.second) {
                Some(secs) => {
                    proof {
                        crate::calendar::lemma_four_digit_year(
                            c.year as int,
                            c.month as int,
                            c.day as int,
                        );
                        lemma_reading_splits(c);
                    }
                    instant_of(&self.zone, c, secs)
                },
                None => 0,
            },
            None => 0,
        }
    }
}

/// A zone shows one reading at an instant: two that it shows there are the same.
pub proof fn an_instant_shows_one_reading(zone: ZoneV, ms: int, c: Civil, d: Civil)
    requires
        zone.shows(ms, c),
        zone.shows(ms, d),
    ensures
        c == d,
{
    a_second_has_one_reading(c, d);
}

/// Through a fixed offset the two directions are inverses: the instant of a reading shows that reading
/// and no other.
pub proof fn a_fixed_offset_reads_back(seconds: int, c: Civil, d: Civil)
    requires
        c.valid(),
    ensures
        ZoneV::Fixed(seconds).shows(ZoneV::Fixed(seconds).instant(c.secs()), c),
        ZoneV::Fixed(seconds).shows(ZoneV::Fixed(seconds).instant(c.secs()), d) ==> c == d,
{
    let zone = ZoneV::Fixed(seconds);
    if zone.shows(zone.instant(c.secs()), d) {
        an_instant_shows_one_reading(zone, zone.instant(c.secs()), c, d);
    }
}

} // verus!
