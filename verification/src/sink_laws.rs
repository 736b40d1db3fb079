//! What an attach knows of its log and what a beat asks for: laws of the names a log's path states, of the
//! change signals, and of the instants.
use crate::foldsink::{
    after_last, bucket, first_of, has_idle_end, last_of, last_part, letter_is, levelled,
    named_server, opt_signal, part_server, same_but_case, server_part, signal_of, stated_server,
    without_end, ModuleSignals, RowsFrom, SinkState, SourceId, WRITE_EVERY_BEATS,
};
use crate::text::lower;
use vstd::prelude::*;

verus! {

// ---- the log's own name ----------------------------------------------------------------------

/// A letter is the same in either case and no other: only a capital of the English alphabet differs from
/// its small one, by its place in the alphabet.
pub proof fn a_letter_is_itself_in_either_case(c: char, small: char, k: int)
    ensures
        0 <= k < 26 && c as int == 'A' as int + k ==> (letter_is(c, small) <==> small as int == 'a' as int + k),
        !('A' <= c <= 'Z') ==> (letter_is(c, small) <==> c == small),
{
}

/// A text is itself in either case: letter by letter, and of its length.
pub proof fn a_text_is_itself_in_either_case(a: Seq<char>, small: Seq<char>)
    ensures
        same_but_case(a, small) <==> a.len() == small.len() && forall|i: int|
            0 <= i < a.len() ==> (#[trigger] a[i] == small[i] && !('A' <= a[i] <= 'Z')) || ('A' <= a[i] <= 'Z'
                && small[i] as int - 'a' as int == a[i] as int - 'A' as int),
{
}

proof fn lemma_last(head: Seq<char>, c: char, tail: Seq<char>)
    requires
        forall|i: int| 0 <= i < tail.len() ==> #[trigger] tail[i] != c,
    ensures
        last_of(head.push(c) + tail, c) == head.len(),
    decreases tail.len(),
{
    let s = head.push(c) + tail;
    if tail.len() == 0 {
        assert(s =~= head.push(c));
    } else {
        let f = tail.drop_last();
        assert forall|i: int| 0 <= i < f.len() implies #[trigger] f[i] != c by {
            assert(tail[i] != c);
        }
        lemma_last(head, c, f);
        assert(s.drop_last() =~= head.push(c) + f);
        assert(s.last() == tail[tail.len() - 1]);
    }
}

proof fn lemma_last_bounds(s: Seq<char>, c: char)
    ensures
        -1 <= last_of(s, c) < s.len(),
        last_of(s, c) >= 0 ==> s[last_of(s, c)] == c,
        forall|i: int| last_of(s, c) < i < s.len() ==> #[trigger] s[i] != c,
    decreases s.len(),
{
    if s.len() > 0 && s.last() != c {
        lemma_last_bounds(s.drop_last(), c);
        assert forall|i: int| last_of(s, c) < i < s.len() implies #[trigger] s[i] != c by {
            if i < s.len() - 1 {
                assert(s.drop_last()[i] != c);
            }
        }
    }
}

proof fn lemma_first(head: Seq<char>, c: char, tail: Seq<char>)
    requires
        forall|i: int| 0 <= i < head.len() ==> #[trigger] head[i] != c,
    ensures
        first_of(head.push(c) + tail, c) == head.len(),
        first_of(head, c) == head.len(),
    decreases head.len(),
{
    if head.len() > 0 {
        let f = head.drop_first();
        assert forall|i: int| 0 <= i < f.len() implies #[trigger] f[i] != c by {
            assert(head[i + 1] != c);
        }
        assert(head[0] != c);
        lemma_first(f, c, tail);
        assert((head.push(c) + tail).drop_first() =~= f.push(c) + tail);
    }
}

/// What a name and a server are joined by parts them again at its last underscore, however many the name
/// has: the server is what stands behind it.
pub proof fn a_server_stands_behind_the_last_underscore(name: Seq<char>, server: Seq<char>)
    requires
        forall|i: int| 0 <= i < server.len() ==> #[trigger] server[i] != '_',
    ensures
        name.len() > 0 && server.len() > 0 ==> server_part(name.push('_') + server) == Some(server),
        name.len() == 0 || server.len() == 0 ==> server_part(name.push('_') + server) is None,
        server_part(server) is None,
{
    lemma_last(name, '_', server);
    let s = name.push('_') + server;
    assert(s.skip(name.len() as int + 1) =~= server);
    lemma_last_bounds(server, '_');
}

/// A server that is read off is not empty, holds no underscore, and ends what it is read off.
pub proof fn a_server_is_a_part_of_what_states_it(s: Seq<char>)
    ensures
        server_part(s) matches Some(x) ==> {
            &&& 0 < x.len() && x.len() + 2 <= s.len()
            &&& s == s.take(s.len() - x.len() - 1).push('_') + x
            &&& forall|i: int| 0 <= i < x.len() ==> #[trigger] x[i] != '_'
        },
{
    lemma_last_bounds(s, '_');
    if let Some(x) = server_part(s) {
        assert(s =~= s.take(s.len() - x.len() - 1).push('_') + x);
        assert forall|i: int| 0 <= i < x.len() implies #[trigger] x[i] != '_' by {
            assert(s[s.len() - x.len() + i] != '_');
        }
    }
}

/// A log is named by its character and its server: in any case of the letters round them, the server is
/// read off the name, with a slice behind it or without one.
pub proof fn a_logs_name_states_its_server(
    front: Seq<char>,
    name: Seq<char>,
    server: Seq<char>,
    slice: Seq<char>,
    end: Seq<char>,
)
    requires
        same_but_case(front, "eqlog_"@),
        same_but_case(end, ".txt"@),
        name.len() > 0,
        server.len() > 0,
        forall|i: int| 0 <= i < name.len() ==> #[trigger] name[i] != '.',
        forall|i: int| 0 <= i < server.len() ==> #[trigger] server[i] != '.' && server[i] != '_',
    ensures
        named_server(front + (name.push('_') + server) + end) == Some(server),
        named_server(front + ((name.push('_') + server).push('.') + slice) + end) == Some(server),
{
    reveal_strlit("eqlog_");
    reveal_strlit(".txt");
    let who = name.push('_') + server;
    assert forall|i: int| 0 <= i < who.len() implies #[trigger] who[i] != '.' by {
        if i < name.len() {
            assert(who[i] == name[i]);
        } else if i > name.len() {
            assert(who[i] == server[i - name.len() - 1]);
        }
    }
    a_server_stands_behind_the_last_underscore(name, server);
    lemma_first(who, '.', slice);
    let a = front + who + end;
    assert(a.skip(a.len() - 4) =~= end);
    assert(a.take(6) =~= front);
    assert(a.subrange(6, a.len() - 4) =~= who);
    assert(who.take(who.len() as int) =~= who);
    let sliced = who.push('.') + slice;
    let b = front + sliced + end;
    assert(b.skip(b.len() - 4) =~= end);
    assert(b.take(6) =~= front);
    assert(b.subrange(6, b.len() - 4) =~= sliced);
    assert(sliced.take(who.len() as int) =~= who);
}

/// A file name that states a server begins and ends as a log's does.
pub proof fn only_a_log_states_a_server(name: Seq<char>)
    ensures
        named_server(name) is Some ==> name.len() > 12 && same_but_case(name.take(6), "eqlog_"@)
            && same_but_case(name.skip(name.len() - 4), ".txt"@),
        part_server(None) is None,
        part_server(Some(name)) == named_server(name),
{
    reveal_strlit("eqlog_");
    reveal_strlit(".txt");
    if named_server(name) is Some {
        let rest = name.subrange(6, name.len() - 4);
        a_server_is_a_part_of_what_states_it(rest);
        lemma_first_bounds(rest, '.');
        a_server_is_a_part_of_what_states_it(rest.take(first_of(rest, '.')));
    }
}

proof fn lemma_first_bounds(s: Seq<char>, c: char)
    ensures
        0 <= first_of(s, c) <= s.len(),
    decreases s.len(),
{
    if s.len() > 0 && s[0] != c {
        lemma_first_bounds(s.drop_first(), c);
    }
}

/// A part of a path: not empty, no separator in it, and neither the place itself nor the one above.
pub open spec fn is_part(name: Seq<char>, either: bool) -> bool {
    &&& name.len() > 0
    &&& forall|i: int| 0 <= i < name.len() ==> #[trigger] name[i] != '/' && (either ==> name[i] != '\\')
    &&& name != "."@ && name != ".."@
}

proof fn lemma_after(dir: Seq<char>, name: Seq<char>, either: bool)
    requires
        forall|i: int| 0 <= i < name.len() ==> #[trigger] name[i] != '/' && (either ==> name[i] != '\\'),
        dir.len() == 0 || dir.last() == '/' || (either && dir.last() == '\\'),
    ensures
        after_last(dir + name, either) == name,
    decreases name.len(),
{
    let s = dir + name;
    if name.len() == 0 {
        assert(s =~= dir);
        assert(after_last(s, either) =~= name);
    } else {
        let f = name.drop_last();
        assert forall|i: int| 0 <= i < f.len() implies #[trigger] f[i] != '/' && (either ==> f[i] != '\\') by {
            assert(name[i] != '/');
        }
        lemma_after(dir, f, either);
        assert(s.drop_last() =~= dir + f);
        assert(s.last() == name[name.len() - 1]);
        assert(f.push(name.last()) =~= name);
    }
}

/// The last part of a path is what stands behind its last separator; a separator behind it, or a single dot
/// behind that, names no more.
pub proof fn the_last_part_stands_behind_the_last_separator(dir: Seq<char>, name: Seq<char>, either: bool)
    requires
        is_part(name, either),
        dir.len() == 0 || dir.last() == '/' || (either && dir.last() == '\\'),
    ensures
        last_part(dir + name, either) == Some(name),
        last_part((dir + name).push('/'), either) == Some(name),
        last_part((dir + name).push('/').push('.'), either) == Some(name),
        either ==> last_part((dir + name).push('\\'), either) == Some(name),
{
    reveal_strlit(".");
    reveal_strlit("..");
    let s = dir + name;
    assert(s.last() == name[name.len() - 1]);
    if name.len() > 1 {
        assert(s[s.len() - 2] == name[name.len() - 2]);
    } else {
        assert(name =~= seq![name[0]]);
        assert(name[0] == '.' ==> name =~= "."@);
    }
    assert(!has_idle_end(s, either));
    lemma_after(dir, name, either);
    if name.len() == 2 && name[0] == '.' && name[1] == '.' {
        assert(name =~= ".."@);
    }
    if name.len() == 1 && name[0] == '.' {
        assert(name =~= "."@);
    }
    let a = s.push('/');
    assert(a.drop_last() =~= s);
    assert(has_idle_end(a, either));
    assert(without_end(a, either) == without_end(s, either));
    let b = a.push('.');
    assert(b.drop_last() =~= a);
    assert(b[b.len() - 2] == '/');
    assert(without_end(b, either) == without_end(a, either));
    let c = s.push('\\');
    assert(c.drop_last() =~= s);
    if either {
        assert(without_end(c, either) == without_end(s, either));
    }
}

/// A path that ends in the root or in the place above has no last part.
pub proof fn the_root_and_the_place_above_are_no_part(dir: Seq<char>, either: bool)
    ensures
        last_part(Seq::empty(), either) is None,
        last_part("/"@, either) is None,
        last_part(dir.push('/') + ".."@, either) is None,
{
    reveal_strlit("/");
    reveal_strlit("..");
    let s = dir.push('/') + ".."@;
    lemma_after(dir.push('/'), ".."@, either);
    assert(s.last() == '.' && s[s.len() - 2] == '.');
    assert("/"@.drop_last() =~= Seq::<char>::empty());
    reveal_with_fuel(without_end, 3);
}

/// What a log states, its path states: the server of the name behind the last slash.
pub proof fn a_path_states_what_its_name_states(dir: Seq<char>, name: Seq<char>)
    requires
        is_part(name, false),
    ensures
        stated_server(name) == named_server(name),
        stated_server(dir.push('/') + name) == named_server(name),
{
    the_last_part_stands_behind_the_last_separator(Seq::empty(), name, false);
    assert(Seq::<char>::empty() + name =~= name);
    the_last_part_stands_behind_the_last_separator(dir.push('/'), name, false);
}

/// A bucket is the character and the server in small letters with an underscore between them, the server
/// empty where none is stated; a log of no character is filed under `log`.
pub proof fn a_bucket_is_the_character_and_the_server(name: Seq<char>, server: Seq<char>, any: Option<Seq<char>>)
    ensures
        bucket(Some(name), Some(server)) == lower(name + "_"@ + server),
        bucket(Some(name), None) == lower(name + "_"@),
        bucket(None, any) == "log"@,
{
    assert(name + "_"@ + Seq::<char>::empty() =~= name + "_"@);
}

// ---- signals and instants --------------------------------------------------------------------

/// A signal is the module's own count, nought where that is under nought, and keeps its order.
pub proof fn a_signal_is_the_modules_count(a: i64, b: i64)
    ensures
        a >= 0 ==> signal_of(a) == a,
        a < 0 ==> signal_of(a) == 0,
        a <= b ==> signal_of(a) <= signal_of(b),
        opt_signal(None) is None,
        opt_signal(Some(a)) == Some(signal_of(a)),
{
}

/// A source has a signal exactly where its rows have somewhere to be read from: where each of its modules is
/// registered, or for the meter where there is a combat engine.
pub proof fn a_source_has_a_signal_where_it_has_rows(
    s: SinkState,
    source: SourceId,
    m: ModuleSignals,
    wall_ms: i64,
    last_ts: i64,
)
    ensures
        s.revision(source, m) is Some <==> s.rows_from(source, m, wall_ms, last_ts) is Some,
        s.revision(source, m) is Some <==> {
            ||| source is LootLedger && m.loot is Some
            ||| source is BuffsActive && m.buffs is Some
            ||| source is TimersRows && m.buffs is Some && m.buff_timers is Some
            ||| source is RespawnWatches && m.respawn is Some
            ||| source is KillsRecent && m.progression is Some
            ||| source is ProgressionRecent && m.progression is Some
            ||| source is EventFeedRecent && m.event_feed is Some
            ||| source is CombatLive && s.combat
        },
{
}

/// The signal of a source is its module's, each source with its own: of two modules the larger, of the
/// meter the sum of what was folded and of the beats, as far as a counter goes.
pub proof fn a_sources_signal_is_its_modules(s: SinkState, m: ModuleSignals)
    ensures
        s.revision(SourceId::LootLedger, m) == m.loot,
        m.buffs matches Some(b) ==> b >= 0 ==> s.revision(SourceId::BuffsActive, m) == Some(b as u64),
        m.respawn matches Some(b) ==> b >= 0 ==> s.revision(SourceId::RespawnWatches, m) == Some(b as u64),
        m.progression matches Some(b) ==> b >= 0 ==> s.revision(SourceId::KillsRecent, m) == Some(b as u64)
            && s.revision(SourceId::ProgressionRecent, m) == Some(b as u64),
        m.event_feed matches Some(b) ==> b >= 0 ==> s.revision(SourceId::EventFeedRecent, m) == Some(
            b as u64,
        ),
        s.revision(SourceId::TimersRows, m) matches Some(r) ==> {
            &&& signal_of(m.buffs->0) <= r && signal_of(m.buff_timers->0) <= r
            &&& r == signal_of(m.buffs->0) || r == signal_of(m.buff_timers->0)
        },
        s.combat && m.events + s.beats <= u64::MAX ==> (s.revision(SourceId::CombatLive, m) matches Some(r)
            && r == m.events + s.beats),
        s.combat && m.events + s.beats > u64::MAX ==> s.revision(SourceId::CombatLive, m) == Some(u64::MAX),
        s.revision(SourceId::Other, m) is None,
{
}

/// The rows of a source are read from its own module, and the meter's at the instant that this world is
/// entitled to.
pub proof fn a_sources_rows_are_its_modules(
    s: SinkState,
    source: SourceId,
    m: ModuleSignals,
    wall_ms: i64,
    last_ts: i64,
)
    ensures
        s.rows_from(source, m, wall_ms, last_ts) matches Some(from) ==> {
            &&& from is Loot <==> source is LootLedger
            &&& from is Buffs <==> source is BuffsActive
            &&& from is BuffsAndTimers <==> source is TimersRows
            &&& from is Respawn <==> source is RespawnWatches
            &&& from is Kills <==> source is KillsRecent
            &&& from is Progression <==> source is ProgressionRecent
            &&& from is EventFeed <==> source is EventFeedRecent
            &&& from is CombatSelected <==> source is CombatLive
            &&& from matches RowsFrom::CombatSelected { now } ==> now == (if s.live {
                wall_ms
            } else {
                last_ts
            })
        },
{
}

/// A live world is asked at the wall clock whatever the log says, and a replay at the log's whatever the
/// wall says.
pub proof fn a_replay_never_sees_the_wall(s: SinkState, wall: i64, other: i64, last: i64, later: i64)
    ensures
        s.live ==> s.now(wall, last) == wall && s.now(wall, last) == s.now(wall, later),
        !s.live ==> s.now(wall, last) == last && s.now(wall, last) == s.now(other, last),
{
}

/// A beat is one more than the one before it, for as long as beats can be counted.
pub proof fn a_beat_is_one_more(s: SinkState)
    ensures
        s.beats < u64::MAX ==> s.next_beats() == s.beats + 1,
        s.beats == u64::MAX ==> s.next_beats() == s.beats,
{
}

/// Of any minute of beats one is a write, and one only.
pub proof fn one_beat_of_a_minute_writes(beats: u64)
    ensures
        exists|k: int| 0 < k <= 60 && #[trigger] ((beats + k) % (WRITE_EVERY_BEATS as int)) == 0,
        forall|k: int, l: int|
            0 < k < l <= 60 && #[trigger] ((beats + k) % (WRITE_EVERY_BEATS as int)) == 0 ==> #[trigger] ((beats
                + l) % (WRITE_EVERY_BEATS as int)) != 0,
{
    let k = 60 - beats as int % 60;
    assert((beats + k) % 60 == 0);
    assert((beats + k) % (WRITE_EVERY_BEATS as int) == 0);
}

/// A creature has a row exactly where it has a level: in the order they were named, each under its name.
pub proof fn whoever_has_a_level_has_a_row<T>(names: Seq<Seq<char>>, levels: Seq<Option<T>>)
    requires
        names.len() == levels.len(),
    ensures
        levelled(names, levels) == names.zip_with(levels).filter(
            |p: (Seq<char>, Option<T>)| p.1 is Some,
        ).map_values(|p: (Seq<char>, Option<T>)| (p.0, p.1->0)),
    decreases names.len(),
{
    reveal(Seq::filter);
    let p = |p: (Seq<char>, Option<T>)| p.1 is Some;
    let f = |p: (Seq<char>, Option<T>)| (p.0, p.1->0);
    let z = names.zip_with(levels);
    if names.len() == 0 {
        assert(z.filter(p).map_values(f) =~= Seq::empty());
    } else {
        whoever_has_a_level_has_a_row(names.drop_last(), levels.drop_last());
        let g = names.drop_last().zip_with(levels.drop_last());
        assert(z.drop_last() =~= g);
        assert(z.last() == (names.last(), levels.last()));
        if p(z.last()) {
            assert(g.filter(p).push(z.last()).map_values(f) =~= g.filter(p).map_values(f).push(f(z.last())));
        }
    }
}

} // verus!
