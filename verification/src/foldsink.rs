//! The join between the ingest (who is folding) and the fold (what a fold is): what an attach knows
//! of the log it folds, which module answers for which source, and the instants a live world and a
//! replay are entitled to.
//!
//! A combat answer is taken at the wall clock once this world has reached its tail and at the fold's
//! own last stamp before that; a replay stamped with a host clock would finalize whatever fight was
//! open. Which world this is, the heartbeat states: it is the one call the historical scan cannot
//! reach.
use crate::text::{copy_opt, lower, lowercase, opt_text};
use crate::translate::{clamp_i64, clamped};
use vstd::prelude::*;

verus! {

/// How many beats lie between two writes of the persisted knowledge: at one beat a second, a minute.
pub const WRITE_EVERY_BEATS: u64 = 60;

// ---- the log's own name ----------------------------------------------------------------------

/// Does a character part a path? A slash does on every host, a backslash where the host parts by either.
pub open spec fn parts_path(c: char, either: bool) -> bool {
    c == '/' || (either && c == '\\')
}

/// The path ends in a separator, or in a part that is a single dot, which names no more than what
/// stands before it.
pub open spec fn has_idle_end(s: Seq<char>, either: bool) -> bool {
    ||| s.len() > 0 && parts_path(s.last(), either)
    ||| s.len() > 1 && s.last() == '.' && parts_path(s[s.len() - 2], either)
}

/// A path without the separators and the single dots at its end.
pub open spec fn without_end(s: Seq<char>, either: bool) -> Seq<char>
    decreases s.len(),
{
    if has_idle_end(s, either) {
        without_end(s.drop_last(), either)
    } else {
        s
    }
}

/// What stands after the last separator, or the whole.
pub open spec fn after_last(s: Seq<char>, either: bool) -> Seq<char>
    decreases s.len(),
{
    if s.len() == 0 || parts_path(s.last(), either) {
        Seq::empty()
    } else {
        after_last(s.drop_last(), either).push(s.last())
    }
}

/// The last part of a path that has no drive and no share in it, where there is one: a path that ends
/// in the root, in its own place or in the place above has none.
pub open spec fn last_part(path: Seq<char>, either: bool) -> Option<Seq<char>> {
    let part = after_last(without_end(path, either), either);
    let stays = part.len() == 1 && part[0] == '.';
    let goes_up = part.len() == 2 && part[0] == '.' && part[1] == '.';
    if part.len() == 0 || stays || goes_up {
        None
    } else {
        Some(part)
    }
}

/// The path may end in a drive or a share, on a host that has them: it begins with two separators, or
/// holds a colon in its last part.
pub open spec fn may_end_in_a_prefix(path: Seq<char>) -> bool {
    ||| path.len() > 1 && parts_path(path[0], true) && parts_path(path[1], true)
    ||| after_last(without_end(path, true), true).contains(':')
}

/// The file name that some host reads off a path: parted by slashes, or by either separator. What a host
/// with drives and shares makes of one at the path's end is left open.
pub open spec fn host_names(path: Seq<char>, name: Option<Seq<char>>) -> bool {
    ||| name == last_part(path, false)
    ||| name == last_part(path, true)
    ||| may_end_in_a_prefix(path)
}

/// Every host reads the path alike.
pub open spec fn reads_alike(path: Seq<char>) -> bool {
    !path.contains('\\') && !may_end_in_a_prefix(path)
}

/// Calls `std::path::Path::file_name`: the last part of a path, by the separators and the prefixes of
/// the host this runs on. It is the part after the last separator, once the separators and single dots
/// at the end are off; there is none after the root, and none where that part is `.` or `..`. Of the two
/// ways to part a path the host has one, and which one it has is left unsaid, as is what it reads where
/// a drive or a share may stand at the end.
#[verifier::external_body]
fn file_name(path: &str) -> (r: Option<String>)
    ensures
        host_names(path@, opt_text(r)),
{
    match std::path::Path::new(path).file_name() {
        Some(name) => Some(name.to_string_lossy().into_owned()),
        None => None,
    }
}

/// The two texts are the same but for the case of the letters; the second is in small ones.
pub open spec fn same_but_case(a: Seq<char>, small: Seq<char>) -> bool {
    a.len() == small.len() && forall|i: int|
        0 <= i < a.len() ==> letter_is(#[trigger] a[i], small[i])
}

/// The two characters are the same but for the case of a letter of the English alphabet; the second
/// is in small.
pub open spec fn letter_is(c: char, small: char) -> bool {
    if 'A' <= c <= 'Z' {
        c as int + 32 == small as int
    } else {
        c == small
    }
}

fn is_letter(c: char, small: char) -> (r: bool)
    ensures
        r == letter_is(c, small),
{
    if 'A' <= c && c <= 'Z' {
        c as u32 + 32 == small as u32
    } else {
        c == small
    }
}

/// The place of the first such character, or the length.
pub open spec fn first_of(s: Seq<char>, c: char) -> int
    decreases s.len(),
{
    if s.len() == 0 || s[0] == c {
        0
    } else {
        1 + first_of(s.drop_first(), c)
    }
}

/// The place of the last such character, or -1.
pub open spec fn last_of(s: Seq<char>, c: char) -> int
    decreases s.len(),
{
    if s.len() == 0 {
        -1
    } else if s.last() == c {
        s.len() - 1
    } else {
        last_of(s.drop_last(), c)
    }
}

/// The server of `<Name>_<server>`: what stands after the last underscore, because a character name
/// may hold one and a server may not. Neither part may be empty.
pub open spec fn server_part(s: Seq<char>) -> Option<Seq<char>> {
    let p = last_of(s, '_');
    if p > 0 && p + 1 < s.len() {
        Some(s.skip(p + 1))
    } else {
        None
    }
}

/// The server a file name states: of `eqlog_<Name>_<server>.<slice>.txt`, or else of
/// `eqlog_<Name>_<server>.txt`.
pub open spec fn named_server(name: Seq<char>) -> Option<Seq<char>> {
    let n = name.len();
    if n < 10 || !same_but_case(name.skip(n - 4), ".txt"@) || !same_but_case(
        name.take(6),
        "eqlog_"@,
    ) {
        None
    } else {
        let rest = name.subrange(6, n - 4);
        match server_part(rest.take(first_of(rest, '.'))) {
            Some(s) => Some(s),
            None => server_part(rest),
        }
    }
}

/// The server that a log's last part states, where it has one.
pub open spec fn part_server(name: Option<Seq<char>>) -> Option<Seq<char>> {
    match name {
        Some(n) => named_server(n),
        None => None,
    }
}

/// The server that some host reads off a log's path.
pub open spec fn may_state(log: Seq<char>, server: Option<Seq<char>>) -> bool {
    exists|name: Option<Seq<char>>| #[trigger]
        host_names(log, name) && server == part_server(name)
}

/// The server stated by a log whose path every host reads alike.
pub open spec fn stated_server(log: Seq<char>) -> Option<Seq<char>> {
    part_server(last_part(log, false))
}

/// A log whose path every host reads alike states one server.
pub proof fn a_plain_path_states_one_server(log: Seq<char>, server: Option<Seq<char>>)
    requires
        reads_alike(log),
    ensures
        may_state(log, server) <==> server == stated_server(log),
{
    assert forall|i: int| 0 <= i < log.len() implies #[trigger] log[i] != '\\' by {
        assert(log.contains(log[i]));
    }
    lemma_ends_alike(log);
    lemma_lasts_alike(without_end(log, false));
    assert(host_names(log, last_part(log, false)));
}

proof fn lemma_ends_alike(s: Seq<char>)
    requires
        forall|i: int| 0 <= i < s.len() ==> #[trigger] s[i] != '\\',
    ensures
        without_end(s, true) == without_end(s, false),
        forall|i: int|
            0 <= i < without_end(s, false).len() ==> #[trigger] without_end(s, false)[i] != '\\',
    decreases s.len(),
{
    if s.len() > 1 {
        assert(s[s.len() - 2] != '\\');
    }
    if has_idle_end(s, false) {
        lemma_ends_alike(s.drop_last());
    }
}

proof fn lemma_lasts_alike(s: Seq<char>)
    requires
        forall|i: int| 0 <= i < s.len() ==> #[trigger] s[i] != '\\',
    ensures
        after_last(s, true) == after_last(s, false),
    decreases s.len(),
{
    if s.len() > 0 && !parts_path(s.last(), false) {
        lemma_lasts_alike(s.drop_last());
    }
}

proof fn lemma_first_of(s: Seq<char>, c: char, i: int)
    requires
        0 <= i <= s.len(),
        forall|j: int| 0 <= j < i ==> s[j] != c,
        i < s.len() ==> s[i] == c,
    ensures
        first_of(s, c) == i,
    decreases s.len(),
{
    if i > 0 {
        assert forall|j: int| 0 <= j < i - 1 implies s.drop_first()[j] != c by {
            assert(s.drop_first()[j] == s[j + 1]);
        }
        lemma_first_of(s.drop_first(), c, i - 1);
    }
}

proof fn lemma_last_of(s: Seq<char>, c: char, i: int)
    requires
        -1 <= i < s.len(),
        i >= 0 ==> s[i] == c,
        forall|j: int| i < j < s.len() ==> s[j] != c,
    ensures
        last_of(s, c) == i,
    decreases s.len(),
{
    if s.len() > 0 && i < s.len() - 1 {
        assert(s.last() != c);
        lemma_last_of(s.drop_last(), c, i);
    }
}

/// Whether the characters from a place on are those of a text in small letters, in either case.
fn spells(cs: &Vec<char>, from: usize, small: &str) -> (r: bool)
    requires
        from + small@.len() <= cs.len(),
    ensures
        r == same_but_case(cs@.subrange(from as int, from + small@.len()), small@),
{
    let want = crate::text::chars_of(small);
    let n: usize = want.len();
    let ghost part = cs@.subrange(from as int, from + n);
    let mut i: usize = 0;
    while i < n
        invariant
            i <= n,
            n == want.len(),
            want@ == small@,
            from + n <= cs.len(),
            part == cs@.subrange(from as int, from + n),
            forall|j: int| 0 <= j < i ==> letter_is(#[trigger] part[j], small@[j]),
        decreases n - i,
    {
        assert(part[i as int] == cs@[from + i]);
        if !is_letter(cs[from + i], want[i]) {
            return false;
        }
        i = i + 1;
    }
    true
}

/// The place of the last underscore of a part of some characters that splits it into two that are not
/// empty.
fn split_place(cs: &Vec<char>, from: usize, to: usize) -> (r: Option<usize>)
    requires
        from <= to <= cs.len(),
    ensures
        ({
            let s = cs@.subrange(from as int, to as int);
            match r {
                Some(p) => from <= p && p + 1 <= to && server_part(s) == Some(
                    cs@.subrange(p + 1, to as int),
                ),
                None => server_part(s) is None,
            }
        }),
{
    let ghost s = cs@.subrange(from as int, to as int);
    let mut i: usize = to;
    while i > from && cs[i - 1] != '_'
        invariant
            from <= i <= to <= cs.len(),
            s == cs@.subrange(from as int, to as int),
            forall|j: int| i - from <= j < s.len() ==> s[j] != '_',
        decreases i,
    {
        i = i - 1;
        assert(s[i - from] == cs@[i as int]);
    }
    proof {
        if i > from {
            assert(s[i - 1 - from] == cs@[i - 1]);
        }
        lemma_last_of(s, '_', i - 1 - from);
    }
    if i - from > 1 && i < to {
        assert(s.skip(i - from) =~= cs@.subrange(i as int, to as int));
        Some(i - 1)
    } else {
        None
    }
}

/// The server out of a log's file name: the second half of what the character is read off.
pub fn server_of(log: &str) -> (r: Option<String>)
    ensures
        may_state(log@, opt_text(r)),
        reads_alike(log@) ==> opt_text(r) == stated_server(log@),
{
    let name = file_name(log);
    let r = match &name {
        Some(n) => server_named(n.as_str()),
        None => None,
    };
    proof {
        assert(host_names(log@, opt_text(name)));
        assert(opt_text(r) == part_server(opt_text(name)));
        if reads_alike(log@) {
            a_plain_path_states_one_server(log@, opt_text(r));
        }
    }
    r
}

/// The server that a log's own file name states.
pub fn server_named(name: &str) -> (r: Option<String>)
    ensures
        opt_text(r) == named_server(name@),
{
    let cs = crate::text::chars_of(name);
    let end: usize = cs.len();
    if end < 10 {
        return None;
    }
    proof {
        reveal_strlit(".txt");
        reveal_strlit("eqlog_");
        assert(name@.skip(end - 4) =~= cs@.subrange(end - 4, end as int));
        assert(name@.take(6) =~= cs@.subrange(0, 6));
    }
    if !spells(&cs, end - 4, ".txt") || !spells(&cs, 0, "eqlog_") {
        return None;
    }
    let from: usize = 6;
    let to: usize = end - 4;
    let ghost rest = name@.subrange(6, end - 4);
    assert(rest =~= cs@.subrange(from as int, to as int));
    let mut dot: usize = from;
    while dot < to && cs[dot] != '.'
        invariant
            from <= dot <= to <= cs.len(),
            rest == cs@.subrange(from as int, to as int),
            forall|j: int| 0 <= j < dot - from ==> rest[j] != '.',
        decreases to - dot,
    {
        assert(rest[dot - from] == cs@[dot as int]);
        dot = dot + 1;
    }
    proof {
        if dot < to {
            assert(rest[dot - from] == cs@[dot as int]);
        }
        lemma_first_of(rest, '.', dot - from);
        assert(rest.take(dot - from) =~= cs@.subrange(from as int, dot as int));
    }
    match split_place(&cs, from, dot) {
        Some(at) => Some(name.substring_char(at + 1, dot).to_owned()),
        None => match split_place(&cs, from, to) {
            Some(at) => Some(name.substring_char(at + 1, to).to_owned()),
            None => None,
        },
    }
}

/// What an attach knows of the log it folds.
pub struct SinkInputs {
    pub log: String,
    /// The character the log's file name states.
    pub character: Option<String>,
    /// The app's profile directory, where the persisted knowledge lies.
    pub state_dir: Option<String>,
    /// The fold carries a combat engine.
    pub combat: bool,
}

/// The bucket of a character on a server.
pub open spec fn bucket(character: Option<Seq<char>>, server: Option<Seq<char>>) -> Seq<char> {
    match character {
        None => "log"@,
        Some(name) => lower(name + "_"@ + text_or_nothing(server)),
    }
}

pub open spec fn text_or_nothing(s: Option<Seq<char>>) -> Seq<char> {
    match s {
        Some(s) => s,
        None => Seq::empty(),
    }
}

fn or_nothing(s: &Option<String>) -> (r: String)
    ensures
        r@ == text_or_nothing(opt_text(*s)),
{
    match s {
        Some(s) => s.clone(),
        None => {
            proof {
                reveal_strlit("");
            }
            let r = "".to_owned();
            assert(r@ =~= Seq::empty());
            r
        },
    }
}

/// Which bucket this fold's observations are filed under: the character and the server, joined by an
/// underscore and lowercased. A re-fold matches on it to REPLACE a bucket rather than add to it. A log
/// whose file name states no character is filed under `log`.
pub fn source_key(inputs: &SinkInputs) -> (r: String)
    ensures
        exists|server: Option<Seq<char>>| #[trigger]
            may_state(inputs.log@, server) && r@ == bucket(opt_text(inputs.character), server),
        inputs.character is None ==> r@ == "log"@,
        reads_alike(inputs.log@) ==> r@ == bucket(
            opt_text(inputs.character),
            stated_server(inputs.log@),
        ),
{
    let server = server_of(inputs.log.as_str());
    source_key_on(&inputs.character, &server)
}

/// The bucket of a character on the server that its log's file name states.
pub fn source_key_on(character: &Option<String>, server: &Option<String>) -> (r: String)
    ensures
        r@ == bucket(opt_text(*character), opt_text(*server)),
{
    match character {
        None => "log".to_owned(),
        Some(name) => {
            let head = crate::text::join(name.as_str(), "_");
            let server = or_nothing(server);
            let whole = crate::text::join(head.as_str(), server.as_str());
            lowercase(whole.as_str())
        },
    }
}

/// The identity the log's own file name states.
pub struct CharacterRef {
    pub name: String,
    pub server: String,
    pub log_path: String,
}

/// Is this the identity of the character of an attach on a server?
pub open spec fn refers_to(
    r: Option<CharacterRef>,
    inputs: SinkInputs,
    server: Option<Seq<char>>,
) -> bool {
    match (r, inputs.character) {
        (Some(c), Some(name)) => c.name@ == name@ && c.server@ == text_or_nothing(server)
            && c.log_path@ == inputs.log@,
        (None, None) => true,
        _ => false,
    }
}

/// The character of an attach, with the server its log's name states, or an empty one.
pub fn character_ref(inputs: &SinkInputs) -> (r: Option<CharacterRef>)
    ensures
        exists|server: Option<Seq<char>>| #[trigger]
            may_state(inputs.log@, server) && refers_to(r, *inputs, server),
        reads_alike(inputs.log@) ==> refers_to(r, *inputs, stated_server(inputs.log@)),
{
    let server = server_of(inputs.log.as_str());
    character_on(inputs, &server)
}

/// The character of an attach, on the server that its log's file name states.
pub fn character_on(inputs: &SinkInputs, server: &Option<String>) -> (r: Option<CharacterRef>)
    ensures
        refers_to(r, *inputs, opt_text(*server)),
{
    match &inputs.character {
        None => None,
        Some(name) => Some(
            CharacterRef {
                name: name.clone(),
                server: or_nothing(server),
                log_path: inputs.log.clone(),
            },
        ),
    }
}

// ---- the sink --------------------------------------------------------------------------------

/// A source of rows.
#[derive(Debug, Clone, Copy, PartialEq, Eq, Structural)]
pub enum SourceId {
    LootLedger,
    BuffsActive,
    TimersRows,
    RespawnWatches,
    KillsRecent,
    ProgressionRecent,
    EventFeedRecent,
    CombatLive,
    /// A source this fold knows nothing of.
    Other,
}

/// The change signals of the modules that are registered, and of the fold as a whole.
#[derive(Debug, Clone, Copy, PartialEq, Eq, Structural)]
pub struct ModuleSignals {
    pub loot: Option<u64>,
    pub buffs: Option<i64>,
    pub buff_timers: Option<i64>,
    pub respawn: Option<i64>,
    pub progression: Option<i64>,
    pub event_feed: Option<i64>,
    /// Events folded.
    pub events: u64,
}

/// What the rows of a source are read from.
#[derive(Debug, Clone, Copy, PartialEq, Eq, Structural)]
pub enum RowsFrom {
    Loot,
    Buffs,
    /// Two modules, one source: a registry carrying one of them serves none.
    BuffsAndTimers,
    Respawn,
    Kills,
    Progression,
    EventFeed,
    /// The combat engine's current selection, at the cheapest options that produce one, taken at an
    /// instant.
    CombatSelected { now: i64 },
}

/// A signal is never negative.
pub open spec fn signal_of(seq: i64) -> u64 {
    if seq < 0 {
        0
    } else {
        seq as u64
    }
}

pub open spec fn opt_signal(seq: Option<i64>) -> Option<u64> {
    match seq {
        Some(s) => Some(signal_of(s)),
        None => None,
    }
}

fn signal(seq: Option<i64>) -> (r: Option<u64>)
    ensures
        r == opt_signal(seq),
{
    match seq {
        Some(s) => if s < 0 {
            Some(0)
        } else {
            Some(s as u64)
        },
        None => None,
    }
}

/// What the fold can say about itself.
#[derive(Debug, Clone, Copy, PartialEq, Eq, Structural)]
pub struct SinkReport {
    pub events: i64,
    pub last_ts: Option<i64>,
}

/// What a beat asks for.
#[derive(Debug, Clone, Copy, PartialEq, Eq, Structural)]
pub struct Beat {
    /// The combat engine goes live on this beat.
    pub go_live: bool,
    /// The persisted knowledge is written on this beat.
    pub write: bool,
}

/// One module's published state, and the cursor it published it at.
pub struct ModuleSnapshot<T> {
    pub seq: i64,
    pub state: T,
}

/// What a search of the fights found, and how many there were to search.
pub struct FightSearch<T> {
    pub corpus: i64,
    pub hits: Vec<T>,
}

/// What a combat snapshot is asked for.
pub struct CombatOpts {
    pub selected_id: Option<String>,
    pub show_unparsed: bool,
    pub max_segments: usize,
    pub timeline: bool,
}

/// The same in the combat engine's vocabulary.
pub struct SnapshotOpts {
    pub selected_id: Option<String>,
    pub show_unparsed: bool,
    pub max_segments: usize,
    pub timeline: bool,
}

/// The ingest's options, in the fold's vocabulary: the one place the two spellings meet.
pub fn snapshot_opts(opts: &CombatOpts) -> (r: SnapshotOpts)
    ensures
        opt_text(r.selected_id) == opt_text(opts.selected_id),
        r.show_unparsed == opts.show_unparsed,
        r.max_segments == opts.max_segments,
        r.timeline == opts.timeline,
{
    SnapshotOpts {
        selected_id: copy_opt(&opts.selected_id),
        show_unparsed: opts.show_unparsed,
        max_segments: opts.max_segments,
        timeline: opts.timeline,
    }
}

/// One attach's fold, as far as the ingest's decisions go.
pub struct FoldSink {
    combat: bool,
    state: bool,
    live: bool,
    beats: u64,
}

/// What a [`FoldSink`] knows of itself.
#[verifier::ext_equal]
pub struct SinkState {
    /// The fold carries a combat engine.
    pub combat: bool,
    /// The attach named a profile directory.
    pub state: bool,
    /// This world has reached its tail.
    pub live: bool,
    /// How many beats this world has taken.
    pub beats: u64,
}

impl View for FoldSink {
    type V = SinkState;

    closed spec fn view(&self) -> SinkState {
        SinkState { combat: self.combat, state: self.state, live: self.live, beats: self.beats }
    }
}

impl SinkState {
    /// The instant a combat answer is taken at: the wall clock of a live world, the log's own clock of
    /// a replay.
    pub open spec fn now(self, wall_ms: i64, last_ts: i64) -> i64 {
        if self.live {
            wall_ms
        } else {
            last_ts
        }
    }

    pub open spec fn next_beats(self) -> u64 {
        if self.beats == u64::MAX {
            u64::MAX
        } else {
            (self.beats + 1) as u64
        }
    }

    pub open spec fn revision(self, source: SourceId, m: ModuleSignals) -> Option<u64> {
        match source {
            SourceId::LootLedger => m.loot,
            SourceId::BuffsActive => opt_signal(m.buffs),
            SourceId::TimersRows => match (opt_signal(m.buffs), opt_signal(m.buff_timers)) {
                (Some(a), Some(b)) => Some(
                    if a >= b {
                        a
                    } else {
                        b
                    },
                ),
                _ => None,
            },
            SourceId::RespawnWatches => opt_signal(m.respawn),
            SourceId::KillsRecent => opt_signal(m.progression),
            SourceId::ProgressionRecent => opt_signal(m.progression),
            SourceId::EventFeedRecent => opt_signal(m.event_feed),
            SourceId::CombatLive => if self.combat {
                Some(
                    if m.events + self.beats > u64::MAX {
                        u64::MAX
                    } else {
                        (m.events + self.beats) as u64
                    },
                )
            } else {
                None
            },
            SourceId::Other => None,
        }
    }

    pub open spec fn rows_from(
        self,
        source: SourceId,
        m: ModuleSignals,
        wall_ms: i64,
        last_ts: i64,
    ) -> Option<RowsFrom> {
        match source {
            SourceId::LootLedger if m.loot is Some => Some(RowsFrom::Loot),
            SourceId::BuffsActive if m.buffs is Some => Some(RowsFrom::Buffs),
            SourceId::TimersRows if m.buffs is Some && m.buff_timers is Some => Some(
                RowsFrom::BuffsAndTimers,
            ),
            SourceId::RespawnWatches if m.respawn is Some => Some(RowsFrom::Respawn),
            SourceId::KillsRecent if m.progression is Some => Some(RowsFrom::Kills),
            SourceId::ProgressionRecent if m.progression is Some => Some(RowsFrom::Progression),
            SourceId::EventFeedRecent if m.event_feed is Some => Some(RowsFrom::EventFeed),
            SourceId::CombatLive if self.combat => Some(
                RowsFrom::CombatSelected { now: self.now(wall_ms, last_ts) },
            ),
            _ => None,
        }
    }
}

/// The factory an attach's fold comes from: it constructs, and never hands back something it is
/// holding.
pub struct SinkFactory {}

/// The factory every attach folds through.
pub fn folding_sinks() -> (r: SinkFactory)
    ensures
        r == (SinkFactory {  }),
{
    SinkFactory {  }
}

impl SinkFactory {
    /// A fresh sink for an attach.
    pub fn build(&self, inputs: &SinkInputs) -> (r: FoldSink)
        ensures
            r@ == (SinkState {
                combat: inputs.combat,
                state: inputs.state_dir is Some,
                live: false,
                beats: 0,
            }),
    {
        FoldSink::new(inputs)
    }
}

impl FoldSink {
    /// A sink that has folded nothing. Without a profile directory it neither reads a file nor writes
    /// one.
    pub fn new(inputs: &SinkInputs) -> (r: Self)
        ensures
            r@ == (SinkState {
                combat: inputs.combat,
                state: inputs.state_dir is Some,
                live: false,
                beats: 0,
            }),
    {
        FoldSink {
            combat: inputs.combat,
            state: inputs.state_dir.is_some(),
            live: false,
            beats: 0,
        }
    }

    /// The instant a combat answer is taken at.
    pub fn combat_now(&self, wall_ms: i64, last_ts: i64) -> (r: i64)
        ensures
            r == self@.now(wall_ms, last_ts),
    {
        if self.live {
            wall_ms
        } else {
            last_ts
        }
    }

    /// The live heartbeat. The combat engine goes live on the first beat and only on it, and every
    /// sixtieth beat the persisted knowledge is written, where there is somewhere to write it.
    pub fn tick(&mut self) -> (r: Beat)
        ensures
            final(self)@ == (SinkState {
                live: true,
                beats: old(self)@.next_beats(),
                ..old(self)@
            }),
            r.go_live == (!old(self)@.live && old(self)@.combat),
            r.write == (old(self)@.state && old(self)@.next_beats() % WRITE_EVERY_BEATS == 0),
    {
        let go_live: bool = !self.live && self.combat;
        self.live = true;
        self.beats = self.beats.saturating_add(1);
        Beat { go_live, write: self.state && self.beats % WRITE_EVERY_BEATS == 0 }
    }

    /// What the fold can say about itself, from its count of events and its own last stamp.
    pub fn report(&self, events: u64, last_ts: i64) -> (r: SinkReport)
        ensures
            r == (SinkReport { events: clamped(events as int), last_ts: Some(last_ts) }),
    {
        SinkReport { events: clamp_i64(events), last_ts: Some(last_ts) }
    }

    /// One module's published pair, taken apart: a module that is not registered, or one that
    /// published half a pair, answers nothing.
    pub fn snapshot<T>(&self, seq: Option<i64>, state: Option<T>) -> (r: Option<ModuleSnapshot<T>>)
        ensures
            match (seq, state) {
                (Some(n), Some(v)) => r == Some(ModuleSnapshot { seq: n, state: v }),
                _ => r is None,
            },
    {
        match (seq, state) {
            (Some(seq), Some(state)) => Some(ModuleSnapshot { seq, state }),
            _ => None,
        }
    }

    /// Which modules the rows of a source are read from. A source whose module is not registered
    /// answers `None`.
    pub fn source_rows(
        &self,
        source: SourceId,
        m: &ModuleSignals,
        wall_ms: i64,
        last_ts: i64,
    ) -> (r: Option<RowsFrom>)
        ensures
            r == self@.rows_from(source, *m, wall_ms, last_ts),
    {
        match source {
            SourceId::LootLedger => if m.loot.is_some() {
                Some(RowsFrom::Loot)
            } else {
                None
            },
            SourceId::BuffsActive => if m.buffs.is_some() {
                Some(RowsFrom::Buffs)
            } else {
                None
            },
            SourceId::TimersRows => if m.buffs.is_some() && m.buff_timers.is_some() {
                Some(RowsFrom::BuffsAndTimers)
            } else {
                None
            },
            SourceId::RespawnWatches => if m.respawn.is_some() {
                Some(RowsFrom::Respawn)
            } else {
                None
            },
            SourceId::KillsRecent => if m.progression.is_some() {
                Some(RowsFrom::Kills)
            } else {
                None
            },
            SourceId::ProgressionRecent => if m.progression.is_some() {
                Some(RowsFrom::Progression)
            } else {
                None
            },
            SourceId::EventFeedRecent => if m.event_feed.is_some() {
                Some(RowsFrom::EventFeed)
            } else {
                None
            },
            SourceId::CombatLive => if self.combat {
                Some(RowsFrom::CombatSelected { now: self.combat_now(wall_ms, last_ts) })
            } else {
                None
            },
            SourceId::Other => None,
        }
    }

    /// The session mark, as the combat engine took it. A sink with no engine has nothing to split.
    pub fn session_mark(&self, took: bool) -> (r: bool)
        ensures
            r == (self@.combat && took),
    {
        self.combat && took
    }

    /// The confirmed sighting, as the respawn module took it. A registry without one answers `false`.
    pub fn confirm_sighting(&self, took: Option<bool>) -> (r: bool)
        ensures
            r == (took == Some(true)),
    {
        match took {
            Some(b) => b,
            None => false,
        }
    }

    /// The instant the combat engine is to be asked at, where there is one.
    pub fn combat_snapshot(&self, wall_ms: i64, last_ts: i64) -> (r: Option<i64>)
        ensures
            r == (if self@.combat {
                Some(self@.now(wall_ms, last_ts))
            } else {
                None
            }),
    {
        if self.combat {
            Some(self.combat_now(wall_ms, last_ts))
        } else {
            None
        }
    }

    /// A search of the fights, as it was ranked. All of them are counted, whatever the query found;
    /// without a combat engine there are none to search.
    pub fn search_fights<T>(&self, fights: usize, hits: Vec<T>) -> (r: Option<FightSearch<T>>)
        ensures
            match r {
                Some(found) => self@.combat && found.corpus == clamped(fights as int) && found.hits
                    == hits,
                None => !self@.combat,
            },
    {
        if self.combat {
            Some(FightSearch { corpus: clamp_i64(fights as u64), hits })
        } else {
            None
        }
    }

    /// What was looted off one creature, as the module that keeps it answered. A registry without one
    /// answers with no rows.
    pub fn own_loot_drops<T>(&self, rows: Option<Vec<T>>) -> (r: Vec<T>)
        ensures
            r@ == (match rows {
                Some(v) => v@,
                None => Seq::empty(),
            }),
    {
        match rows {
            Some(v) => v,
            None => Vec::new(),
        }
    }

    /// How old these creatures are, with what the resist module knows of each: a creature with no level
    /// produces no row. Without a resist module there is no row at all.
    pub fn mob_levels<T>(&self, names: &Vec<String>, levels: Option<Vec<Option<T>>>) -> (r: Vec<
        (String, T),
    >)
        requires
            levels matches Some(v) ==> v@.len() == names@.len(),
        ensures
            r@.map_values(|p: (String, T)| (p.0@, p.1)) == (match levels {
                Some(v) => levelled(crate::text::texts(names@), v@),
                None => Seq::empty(),
            }),
    {
        let mut out: Vec<(String, T)> = Vec::new();
        assert(out@.map_values(|p: (String, T)| (p.0@, p.1)) =~= Seq::empty());
        match levels {
            None => out,
            Some(mut v) => {
                let ghost all = v@;
                let ghost ns = crate::text::texts(names@);
                let mut i: usize = 0;
                while i < names.len()
                    invariant
                        i <= names.len(),
                        v@.len() == names@.len(),
                        all.len() == names@.len(),
                        forall|j: int| i <= j < v.len() ==> #[trigger] v@[j] == all[j],
                        ns == crate::text::texts(names@),
                        out@.map_values(|p: (String, T)| (p.0@, p.1)) == levelled(
                            ns.take(i as int),
                            all.take(i as int),
                        ),
                    decreases names.len() - i,
                {
                    let ghost before = out@;
                    proof {
                        assert(ns.take(i + 1).drop_last() =~= ns.take(i as int));
                        assert(all.take(i + 1).drop_last() =~= all.take(i as int));
                        assert(ns.take(i + 1).last() == names@[i as int]@);
                    }
                    if let Some(level) = v[i].take() {
                        out.push((names[i].clone(), level));
                        assert(out@.map_values(|p: (String, T)| (p.0@, p.1)) =~= before.map_values(
                            |p: (String, T)| (p.0@, p.1),
                        ).push((names@[i as int]@, level)));
                    }
                    i = i + 1;
                }
                assert(ns.take(i as int) =~= ns);
                assert(all.take(i as int) =~= all);
                out
            },
        }
    }

    /// The change signal per source. A source folded from two modules takes the larger of the two, and
    /// the meter's is the sum of two counters that never fall: the events folded, and the beats, since
    /// its rows are a function of the instant too.
    pub fn source_revision(&self, source: SourceId, m: &ModuleSignals) -> (r: Option<u64>)
        ensures
            r == self@.revision(source, *m),
    {
        match source {
            SourceId::LootLedger => m.loot,
            SourceId::BuffsActive => signal(m.buffs),
            SourceId::TimersRows => match (signal(m.buffs), signal(m.buff_timers)) {
                (Some(a), Some(b)) => if a >= b {
                    Some(a)
                } else {
                    Some(b)
                },
                _ => None,
            },
            SourceId::RespawnWatches => signal(m.respawn),
            SourceId::KillsRecent => signal(m.progression),
            SourceId::ProgressionRecent => signal(m.progression),
            SourceId::EventFeedRecent => signal(m.event_feed),
            SourceId::CombatLive => if self.combat {
                Some(m.events.saturating_add(self.beats))
            } else {
                None
            },
            SourceId::Other => None,
        }
    }
}

/// The names that have a level, with it, in order.
pub open spec fn levelled<T>(names: Seq<Seq<char>>, levels: Seq<Option<T>>) -> Seq<(Seq<char>, T)>
    decreases names.len(),
{
    if names.len() == 0 || levels.len() != names.len() {
        Seq::empty()
    } else {
        let front = levelled(names.drop_last(), levels.drop_last());
        match levels.last() {
            Some(l) => front.push((names.last(), l)),
            None => front,
        }
    }
}

/// The meter's signal never repeats across a change: an event folded or a beat taken moves it, as long
/// as the two counters together are representable.
pub proof fn the_meters_signal_moves(
    s: SinkState,
    t: SinkState,
    m: ModuleSignals,
    n: ModuleSignals,
)
    requires
        s.combat,
        t.combat,
        s.beats <= t.beats,
        m.events <= n.events,
        s.beats < t.beats || m.events < n.events,
        n.events + t.beats <= u64::MAX,
    ensures
        s.revision(SourceId::CombatLive, m) != t.revision(SourceId::CombatLive, n),
{
}

} // verus!
