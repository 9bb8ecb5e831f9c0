//! The tracker's bookkeeping: closing sessions, keeping the session history
//! bounded, recovering sessions left open by a crash, and one polling step.

use vstd::prelude::*;
use crate::keyed::{StrMap, has_key, key_index_of, keys_distinct};
use crate::models::{Game, Session, SessionLog, State, log_view};
use crate::sorting::{insert_pos, sort_by_key, lemma_insert_is_insert, lemma_sort_multiset, lemma_sort_sorted};
use crate::time::{Timestamp, duration_secs, is_before, session_duration};

verus! {

/// At most this many sessions are kept per game.
pub const MAX_SESSIONS_PER_GAME: usize = 100;

/// A pause between polling steps longer than this many seconds is a gap
/// (the machine slept or the tracker stalled) and is not counted as play.
pub const GAP_SECS: u64 = 600;

/// The order key of a session: its start instant.
pub open spec fn start_key() -> spec_fn(Session) -> int {
    |s: Session| s.start.key()
}

/// Sessions from newest to oldest start; among equal starts, later entries
/// first.
pub open spec fn newest_first(s: Seq<Session>) -> Seq<Session> {
    sort_by_key(s, start_key()).reverse()
}

/// The sessions kept of one game: unchanged up to the limit, otherwise the
/// newest ones, newest first.
pub open spec fn pruned(s: Seq<Session>) -> Seq<Session> {
    if s.len() > MAX_SESSIONS_PER_GAME {
        newest_first(s).take(MAX_SESSIONS_PER_GAME as int)
    } else {
        s
    }
}

/// A whole log with every game's sessions pruned.
pub open spec fn pruned_log(lv: Seq<(Seq<char>, Seq<Session>)>) -> Seq<(Seq<char>, Seq<Session>)> {
    lv.map_values(|e: (Seq<char>, Seq<Session>)| (e.0, pruned(e.1)))
}

/// A session ended at `end`.
pub open spec fn closed_at(s: Session, end: Timestamp) -> Session {
    Session { start: s.start, end: Some(end), duration_secs: duration_secs(s.start, end) as u64 }
}

/// A session opened at `start`.
pub open spec fn opened_at(start: Timestamp) -> Session {
    Session { start, end: None, duration_secs: 0 }
}

/// `s` appended to the sessions of key `k`, creating the key if needed.
pub open spec fn push_session_spec(lv: Seq<(Seq<char>, Seq<Session>)>, k: Seq<char>, s: Session) -> Seq<(Seq<char>, Seq<Session>)> {
    if has_key(lv, k) {
        let i = key_index_of(lv, k);
        lv.update(i, (k, lv[i].1.push(s)))
    } else {
        lv.push((k, seq![s]))
    }
}

/// Each session of `items` appended, in order, under its key.
pub open spec fn push_all(lv: Seq<(Seq<char>, Seq<Session>)>, items: Seq<(Seq<char>, Session)>) -> Seq<(Seq<char>, Seq<Session>)>
    decreases items.len(),
{
    if items.len() == 0 {
        lv
    } else {
        let prev = push_all(lv, items.drop_last());
        push_session_spec(prev, items.last().0, items.last().1)
    }
}

fn session_is_before(a: &Session, b: &Session) -> (r: bool)
    ensures
        r == (a.start.key() < b.start.key()),
{
    is_before(a.start, b.start)
}

/// Stable sort of sessions by start, oldest first.
fn sort_by_start(v: Vec<Session>) -> (r: Vec<Session>)
    ensures
        r@ == sort_by_key(v@, start_key()),
{
    let mut out: Vec<Session> = Vec::new();
    let mut i: usize = 0;
    assert(v@.take(0) =~= Seq::<Session>::empty());
    while i < v.len()
        invariant
            i <= v@.len(),
            out@ == sort_by_key(v@.take(i as int), start_key()),
        decreases v@.len() - i,
    {
        let e = v[i];
        let mut j: usize = out.len();
        proof {
            assert(out@.subrange(0, j as int) =~= out@);
        }
        while j > 0 && session_is_before(&e, &out[j - 1])
            invariant
                j <= out@.len(),
                insert_pos(out@.subrange(0, j as int), e, start_key()) == insert_pos(out@, e, start_key()),
                forall|k: int| j <= k < out@.len() ==> start_key()(#[trigger] out@[k]) > start_key()(e),
            decreases j,
        {
            proof {
                let t = out@.subrange(0, j as int);
                assert(t.drop_last() =~= out@.subrange(0, j - 1));
                assert(t.last() == out@[j - 1]);
            }
            j = j - 1;
        }
        proof {
            let t = out@.subrange(0, j as int);
            if j > 0 {
                assert(t.last() == out@[j - 1]);
            }
            assert(insert_pos(t, e, start_key()) == j);
            lemma_insert_is_insert(out@, e, start_key());
            assert(v@.take(i + 1).drop_last() =~= v@.take(i as int));
            assert(v@.take(i + 1).last() == e);
        }
        out.insert(j, e);
        i = i + 1;
    }
    assert(v@.take(v@.len() as int) =~= v@);
    out
}

fn reversed(v: Vec<Session>) -> (r: Vec<Session>)
    ensures
        r@ == v@.reverse(),
{
    let mut out: Vec<Session> = Vec::new();
    let mut i: usize = v.len();
    while i > 0
        invariant
            i <= v@.len(),
            out@ =~= v@.subrange(i as int, v@.len() as int).reverse(),
        decreases i,
    {
        i = i - 1;
        out.push(v[i]);
    }
    assert(v@.subrange(0, v@.len() as int) =~= v@);
    out
}

/// Keeps at most `MAX_SESSIONS_PER_GAME` sessions per game: a game with more
/// keeps its newest ones, newest first; the others are left as they are.
pub fn prune_sessions(sessions: &mut SessionLog)
    ensures
        log_view(final(sessions)) == pruned_log(log_view(old(sessions))),
        log_view(final(sessions)).len() == log_view(old(sessions)).len(),
        forall|k: int| 0 <= k < log_view(old(sessions)).len() && log_view(old(sessions))[k].1.len() <= MAX_SESSIONS_PER_GAME
            ==> #[trigger] log_view(final(sessions))[k] == log_view(old(sessions))[k],
{
    let n = sessions.len();
    let mut i: usize = 0;
    while i < n
        invariant
            n == old(sessions).pairs().len(),
            sessions.pairs().len() == n,
            i <= n,
            forall|k: int| 0 <= k < n ==> (#[trigger] sessions.pairs()[k]).0 == old(sessions).pairs()[k].0,
            forall|k: int| 0 <= k < i ==> (#[trigger] sessions.pairs()[k]).1@ == pruned(old(sessions).pairs()[k].1@),
            forall|k: int| i <= k < n ==> (#[trigger] sessions.pairs()[k]).1 == old(sessions).pairs()[k].1,
        decreases n - i,
    {
        if sessions.value_at(i).len() > MAX_SESSIONS_PER_GAME {
            let list = sessions.replace_at(i, Vec::new());
            let sorted = sort_by_start(list);
            let mut newest = reversed(sorted);
            newest.truncate(MAX_SESSIONS_PER_GAME);
            proof {
                lemma_sort_multiset(list@, start_key());
            }
            sessions.replace_at(i, newest);
        }
        i = i + 1;
    }
    assert(log_view(sessions) =~= pruned_log(log_view(old(sessions))));
    proof {
        lemma_pruned_log_leaves_small_games(log_view(old(sessions)));
    }
}

/// The session ended at `end`, its length recomputed.
pub fn close_session(s: Session, end: Timestamp) -> (r: Session)
    requires
        s.start.valid(),
        end.valid(),
    ensures
        r == closed_at(s, end),
{
    Session { start: s.start, end: Some(end), duration_secs: session_duration(s.start, end) }
}

/// Appends a session under key `k`, creating the key if needed.
pub fn push_session(log: &mut SessionLog, k: String, s: Session)
    ensures
        log_view(final(log)) == push_session_spec(log_view(old(log)), k@, s),
{
    proof {
        use_type_invariant(&*log);
    }
    match log.position(k.as_str()) {
        Some(i) => {
            proof {
                assert(log_view(log)[i as int].0 == k@);
                assert(has_key(log_view(log), k@));
                let j = key_index_of(log_view(log), k@);
                assert(log.pairs()[j].0 == k@);
                assert(i == j);
            }
            let mut list = log.replace_at(i, Vec::new());
            list.push(s);
            log.replace_at(i, list);
            assert(log_view(log) =~= push_session_spec(log_view(old(log)), k@, s));
        },
        None => {
            proof {
                assert forall|j: int| 0 <= j < log_view(log).len() implies #[trigger] log_view(log)[j].0 != k@ by {
                    assert(log_view(log)[j].0 == log.pairs()[j].0);
                }
            }
            let mut list: Vec<Session> = Vec::new();
            list.push(s);
            let ghost kv = k@;
            proof {
                log.lemma_position_spec(k@);
            }
            log.insert(k, list);
            assert(log_view(log) =~= push_session_spec(log_view(old(log)), kv, s));
        },
    }
}

/// The instant at which sessions left open are closed on recovery: the last
/// instant the tracker saw a game running, else `now`.
pub open spec fn recovery_end(state: &State, now: Timestamp) -> Timestamp {
    match state.last_seen {
        Some(t) => t,
        None => now,
    }
}

/// Every open session, closed at `end`, under its game.
pub open spec fn closed_all(a: Seq<(Seq<char>, Session)>, end: Timestamp) -> Seq<(Seq<char>, Session)> {
    a.map_values(|e: (Seq<char>, Session)| (e.0, closed_at(e.1, end)))
}

/// Closes the sessions that a previous run left open.  Returns whether any
/// was open; if so, the log is first pruned and then receives each open
/// session, closed at the last instant a game was seen running (or at
/// `now` when none was recorded).  Afterwards the caller stores an empty
/// state.
pub fn recover_pending_sessions(state: &State, sessions: &mut SessionLog, now: Timestamp) -> (recovered: bool)
    requires
        state.valid(),
        now.valid(),
    ensures
        recovered == (state.active_sessions.pairs().len() > 0),
        !recovered ==> log_view(final(sessions)) == log_view(old(sessions)),
        recovered ==> log_view(final(sessions)) == push_all(
            pruned_log(log_view(old(sessions))),
            closed_all(state.active_sessions.pairs(), recovery_end(state, now)),
        ),
{
    if state.active_sessions.is_empty() {
        return false;
    }
    prune_sessions(sessions);
    let end = match state.last_seen {
        Some(t) => t,
        None => now,
    };
    let ghost base = log_view(sessions);
    let ghost items = closed_all(state.active_sessions.pairs(), end);
    let n = state.active_sessions.len();
    let mut i: usize = 0;
    assert(items.take(0) =~= Seq::<(Seq<char>, Session)>::empty());
    while i < n
        invariant
            n == state.active_sessions.pairs().len(),
            items == closed_all(state.active_sessions.pairs(), end),
            state.valid(),
            end.valid(),
            i <= n,
            log_view(sessions) == push_all(base, items.take(i as int)),
        decreases n - i,
    {
        let k = state.active_sessions.key_at(i).clone();
        let open = *state.active_sessions.value_at(i);
        assert(state.active_sessions.pairs()[i as int].1.valid());
        let c = close_session(open, end);
        push_session(sessions, k, c);
        proof {
            assert(items.take(i + 1).drop_last() =~= items.take(i as int));
            assert(items.take(i + 1).last() == items[i as int]);
        }
        i = i + 1;
    }
    assert(items.take(n as int) =~= items);
    true
}

/// The instant at which a gap began, when there is one: the last instant a
/// game was seen running, if more than `GAP_SECS` whole seconds lie between
/// it and `now`.
pub open spec fn gap_start(last_seen: Option<Timestamp>, now: Timestamp) -> Option<Timestamp> {
    match last_seen {
        Some(t) => if duration_secs(t, now) > GAP_SECS { Some(t) } else { None },
        None => None,
    }
}

/// The open sessions left after a gap check, and those it closed: after a
/// gap every open session is closed at the gap's start; otherwise nothing
/// changes.
pub open spec fn after_gap(a: Seq<(Seq<char>, Session)>, last_seen: Option<Timestamp>, now: Timestamp) -> (Seq<(Seq<char>, Session)>, Seq<(Seq<char>, Session)>) {
    match gap_start(last_seen, now) {
        Some(t) => (Seq::empty(), closed_all(a, t)),
        None => (a, Seq::empty()),
    }
}

/// Every open session, closed at `end`, with its game's identifier.
fn close_all_sessions(active: &StrMap<Session>, end: Timestamp) -> (closed: Vec<(String, Session)>)
    requires
        forall|i: int| 0 <= i < active.pairs().len() ==> (#[trigger] active.pairs()[i]).1.valid(),
        end.valid(),
    ensures
        closed@.map_values(|e: (String, Session)| (e.0@, e.1)) == closed_all(active.pairs(), end),
{
    let ghost items = closed_all(active.pairs(), end);
    let n = active.len();
    let mut closed: Vec<(String, Session)> = Vec::new();
    let mut i: usize = 0;
    while i < n
        invariant
            n == active.pairs().len(),
            items == closed_all(active.pairs(), end),
            forall|j: int| 0 <= j < active.pairs().len() ==> (#[trigger] active.pairs()[j]).1.valid(),
            end.valid(),
            i <= n,
            closed@.map_values(|e: (String, Session)| (e.0@, e.1)) == items.take(i as int),
        decreases n - i,
    {
        let k = active.key_at(i).clone();
        let open = *active.value_at(i);
        assert(active.pairs()[i as int].1.valid());
        let c = close_session(open, end);
        let ghost cv = closed@.map_values(|e: (String, Session)| (e.0@, e.1));
        closed.push((k, c));
        assert(closed@.map_values(|e: (String, Session)| (e.0@, e.1)) =~= cv.push((k@, c)));
        assert(items.take(i + 1) =~= items.take(i as int).push(items[i as int]));
        i = i + 1;
    }
    assert(items.take(n as int) =~= items);
    closed
}

/// Per game, in order: a running game without an open session gets one
/// opened at `now`; a stopped game with an open session has it closed at
/// `now`.  The result is the open sessions, the closed sessions in the
/// order they were closed, and whether any session was opened.
pub open spec fn step_games(
    a: Seq<(Seq<char>, Session)>,
    ids: Seq<Seq<char>>,
    running: Seq<bool>,
    now: Timestamp,
) -> (Seq<(Seq<char>, Session)>, Seq<(Seq<char>, Session)>, bool)
    decreases ids.len(),
{
    if ids.len() == 0 {
        (a, Seq::empty(), false)
    } else {
        let prev = step_games(a, ids.drop_last(), running.drop_last(), now);
        let id = ids.last();
        if running.last() && !has_key(prev.0, id) {
            (prev.0.push((id, opened_at(now))), prev.1, true)
        } else if !running.last() && has_key(prev.0, id) {
            let k = key_index_of(prev.0, id);
            (prev.0.remove(k), prev.1.push((id, closed_at(prev.0[k].1, now))), prev.2)
        } else {
            prev
        }
    }
}

/// Open sessions of games that are no longer configured are closed at
/// `now`; the result is the sessions kept and those closed, each in stored
/// order.
pub open spec fn drop_zombies(a: Seq<(Seq<char>, Session)>, ids: Seq<Seq<char>>, now: Timestamp) -> (Seq<(Seq<char>, Session)>, Seq<(Seq<char>, Session)>)
    decreases a.len(),
{
    if a.len() == 0 {
        (a, Seq::empty())
    } else {
        let prev = drop_zombies(a.drop_last(), ids, now);
        let e = a.last();
        if ids.contains(e.0) {
            (prev.0.push(e), prev.1)
        } else {
            (prev.0, prev.1.push((e.0, closed_at(e.1, now))))
        }
    }
}

/// The identifiers of a list of games.
pub open spec fn game_ids(games: Seq<Game>) -> Seq<Seq<char>> {
    games.map_values(|g: Game| g.id@)
}

/// What one polling step did: the sessions it closed (to be appended to the
/// log, under their games), whether the state must be written, and whether
/// the log must be written.
pub struct TickOutcome {
    pub closed: Vec<(String, Session)>,
    pub state_changed: bool,
    pub sessions_changed: bool,
}

impl TickOutcome {
    /// The closed sessions as plain values.
    pub open spec fn closed_view(&self) -> Seq<(Seq<char>, Session)> {
        self.closed@.map_values(|e: (String, Session)| (e.0@, e.1))
    }
}

/// Whether some game has identifier `id`.
pub fn has_game_id(games: &[Game], id: &str) -> (r: bool)
    ensures
        r == game_ids(games@).contains(id@),
{
    let mut i: usize = 0;
    while i < games.len()
        invariant
            i <= games@.len(),
            forall|j: int| 0 <= j < i ==> games@[j].id@ != id@,
        decreases games@.len() - i,
    {
        if crate::keyed::str_eq(games[i].id.as_str(), id) {
            assert(game_ids(games@)[i as int] == id@);
            return true;
        }
        i = i + 1;
    }
    assert forall|j: int| 0 <= j < game_ids(games@).len() implies game_ids(games@)[j] != id@ by {
        assert(game_ids(games@)[j] == games@[j].id@);
    }
    false
}

proof fn lemma_zombies_kept_from<V>(a: Seq<(Seq<char>, Session)>, ids: Seq<Seq<char>>, now: Timestamp)
    ensures
        forall|t: int| 0 <= t < drop_zombies(a, ids, now).0.len() ==>
            exists|m: int| 0 <= m < a.len() && a[m] == #[trigger] drop_zombies(a, ids, now).0[t],
    decreases a.len(),
{
    if a.len() > 0 {
        lemma_zombies_kept_from::<V>(a.drop_last(), ids, now);
        let prev = drop_zombies(a.drop_last(), ids, now);
        assert forall|t: int| 0 <= t < drop_zombies(a, ids, now).0.len() implies
            exists|m: int| 0 <= m < a.len() && a[m] == #[trigger] drop_zombies(a, ids, now).0[t] by {
            if t < prev.0.len() {
                let m = choose|m: int| 0 <= m < a.drop_last().len() && a.drop_last()[m] == prev.0[t];
                assert(a[m] == a.drop_last()[m]);
            } else {
                assert(a[a.len() - 1] == a.last());
            }
        }
    }
}

/// One polling step of the tracker over the configured games, given for
/// each game whether its executable is running now.  First, after a gap of
/// more than `GAP_SECS` seconds since a game was last seen running, every
/// open session is closed at that last instant, so the pause is not
/// counted.  Then it opens and closes sessions per game, closes the open
/// sessions of games no longer configured, and records `now` as last seen
/// while any session is open.
pub fn poll_step(state: &mut State, games: &[Game], running: &[bool], now: Timestamp) -> (out: TickOutcome)
    requires
        old(state).valid(),
        now.valid(),
        games@.len() == running@.len(),
    ensures
        ({
            let h = after_gap(old(state).active_sessions.pairs(), old(state).last_seen, now);
            let g = step_games(h.0, game_ids(games@), running@, now);
            let z = drop_zombies(g.0, game_ids(games@), now);
            &&& final(state).active_sessions.pairs() == z.0
            &&& out.closed_view() == h.1 + g.1 + z.1
            &&& final(state).last_seen == (if z.0.len() > 0 { Some(now) } else { old(state).last_seen })
            &&& out.sessions_changed == (h.1.len() + g.1.len() + z.1.len() > 0)
            &&& out.state_changed == (g.2 || h.1.len() + g.1.len() + z.1.len() > 0 || z.0.len() > 0)
        }),
        final(state).valid(),
{
    let ghost h = after_gap(old(state).active_sessions.pairs(), old(state).last_seen, now);
    let gap = match state.last_seen {
        Some(t) => session_duration(t, now) > GAP_SECS,
        None => false,
    };
    let mut closed: Vec<(String, Session)> = Vec::new();
    if gap {
        match state.last_seen {
            Some(t) => {
                closed = close_all_sessions(&state.active_sessions, t);
                state.active_sessions = StrMap::new();
            },
            None => {},
        }
    }
    assert(state.active_sessions.pairs() =~= h.0);
    assert(closed@.map_values(|e: (String, Session)| (e.0@, e.1)) =~= h.1);
    let ghost a0 = state.active_sessions.pairs();
    let ghost c0 = h.1;
    let ghost ids = game_ids(games@);
    let mut opened = false;
    let mut i: usize = 0;
    assert(ids.take(0) =~= Seq::<Seq<char>>::empty());
    assert(running@.take(0) =~= Seq::<bool>::empty());
    assert(c0 + Seq::<(Seq<char>, Session)>::empty() =~= c0);
    while i < games.len()
        invariant
            games@.len() == running@.len(),
            ids == game_ids(games@),
            i <= games@.len(),
            state.valid(),
            now.valid(),
            h == after_gap(old(state).active_sessions.pairs(), old(state).last_seen, now),
            a0 == h.0,
            c0 == h.1,
            state.last_seen == old(state).last_seen,
            ({
                let g = step_games(a0, ids.take(i as int), running@.take(i as int), now);
                &&& state.active_sessions.pairs() == g.0
                &&& closed@.map_values(|e: (String, Session)| (e.0@, e.1)) == c0 + g.1
                &&& opened == g.2
            }),
        decreases games@.len() - i,
    {
        proof {
            assert(ids.take(i + 1).drop_last() =~= ids.take(i as int));
            assert(running@.take(i + 1).drop_last() =~= running@.take(i as int));
            assert(ids.take(i + 1).last() == games@[i as int].id@);
            assert(running@.take(i + 1).last() == running@[i as int]);
            use_type_invariant(&state.active_sessions);
            state.active_sessions.lemma_position_spec(games@[i as int].id@);
        }
        let id = &games[i].id;
        let is_active = state.active_sessions.contains_key(id.as_str());
        if running[i] && !is_active {
            state.active_sessions.insert(id.clone(), Session { start: now, end: None, duration_secs: 0 });
            opened = true;
        } else if !running[i] && is_active {
            let ghost before = state.active_sessions.pairs();
            let removed = state.active_sessions.remove(id.as_str());
            match removed {
                Some(s) => {
                    proof {
                        let k = key_index_of(before, id@);
                        assert(before[k].0 == id@);
                    }
                    assert(s.valid());
                    let c = close_session(s, now);
                    let ghost cv = closed@.map_values(|e: (String, Session)| (e.0@, e.1));
                    closed.push((id.clone(), c));
                    assert(closed@.map_values(|e: (String, Session)| (e.0@, e.1)) =~= cv.push((id@, c)));
                    proof {
                        let gp = step_games(a0, ids.take(i as int), running@.take(i as int), now);
                        assert((c0 + gp.1).push((id@, c)) =~= c0 + gp.1.push((id@, c)));
                    }
                },
                None => {},
            }
        }
        i = i + 1;
    }
    assert(ids.take(games@.len() as int) =~= ids);
    assert(running@.take(running@.len() as int) =~= running@);
    let ghost g = step_games(a0, ids, running@, now);
    let ghost a1 = state.active_sessions.pairs();
    let ghost c1 = closed@.map_values(|e: (String, Session)| (e.0@, e.1));
    proof {
        use_type_invariant(&state.active_sessions);
    }
    let mut kept: StrMap<Session> = StrMap::new();
    let n = state.active_sessions.len();
    let mut j: usize = 0;
    assert(a1.take(0) =~= Seq::<(Seq<char>, Session)>::empty());
    while j < n
        invariant
            n == a1.len(),
            a1 == state.active_sessions.pairs(),
            keys_distinct(a1),
            g == step_games(a0, ids, running@, now),
            h == after_gap(old(state).active_sessions.pairs(), old(state).last_seen, now),
            a0 == h.0,
            c0 == h.1,
            ids == game_ids(games@),
            a1 == g.0,
            c1 == c0 + g.1,
            opened == g.2,
            state.last_seen == old(state).last_seen,
            forall|t: int| 0 <= t < kept.pairs().len() ==> (#[trigger] kept.pairs()[t]).1.valid(),
            j <= n,
            now.valid(),
            state.valid(),
            ({
                let z = drop_zombies(a1.take(j as int), ids, now);
                &&& kept.pairs() == z.0
                &&& closed@.map_values(|e: (String, Session)| (e.0@, e.1)) == c1 + z.1
            }),
        decreases n - j,
    {
        let key = state.active_sessions.key_at(j);
        let value = *state.active_sessions.value_at(j);
        proof {
            assert(a1.take(j + 1).drop_last() =~= a1.take(j as int));
            assert(a1.take(j + 1).last() == a1[j as int]);
            lemma_zombies_kept_from::<Session>(a1.take(j as int), ids, now);
        }
        if has_game_id(games, key.as_str()) {
            proof {
                assert(!has_key(kept.pairs(), key@)) by {
                    if has_key(kept.pairs(), key@) {
                        let t = choose|t: int| 0 <= t < kept.pairs().len() && #[trigger] kept.pairs()[t].0 == key@;
                        let m = choose|m: int| 0 <= m < a1.take(j as int).len() && a1.take(j as int)[m] == #[trigger] drop_zombies(a1.take(j as int), ids, now).0[t];
                        assert(a1[m].0 == a1[j as int].0);
                    }
                }
                use_type_invariant(&kept);
                kept.lemma_position_spec(key@);
            }
            let ghost kp = kept.pairs();
            kept.insert(key.clone(), value);
            proof {
                assert(kept.pairs() == kp.push((key@, value)));
                assert(a1[j as int] == (key@, value));
            }
        } else {
            assert(value.valid());
            let c = close_session(value, now);
            let ghost cv = closed@.map_values(|e: (String, Session)| (e.0@, e.1));
            closed.push((key.clone(), c));
            assert(closed@.map_values(|e: (String, Session)| (e.0@, e.1)) =~= cv.push((key@, c)));
            proof {
                let zp = drop_zombies(a1.take(j as int), ids, now).1;
                assert((c1 + zp).push((key@, c)) =~= c1 + zp.push((key@, c)));
                assert(a1[j as int] == (key@, value));
            }
        }
        j = j + 1;
    }
    assert(a1.take(n as int) =~= a1);
    state.active_sessions = kept;
    if !state.active_sessions.is_empty() {
        state.last_seen = Some(now);
    }
    let sessions_changed = closed.len() > 0;
    let state_changed = opened || sessions_changed || !state.active_sessions.is_empty();
    TickOutcome { closed, state_changed, sessions_changed }
}

/// Appends the sessions a polling step closed, each under its game.
pub fn record_closed_sessions(log: &mut SessionLog, closed: &Vec<(String, Session)>)
    ensures
        log_view(final(log)) == push_all(log_view(old(log)), closed@.map_values(|e: (String, Session)| (e.0@, e.1))),
{
    let ghost items = closed@.map_values(|e: (String, Session)| (e.0@, e.1));
    let ghost base = log_view(log);
    let mut i: usize = 0;
    assert(items.take(0) =~= Seq::<(Seq<char>, Session)>::empty());
    while i < closed.len()
        invariant
            i <= closed@.len(),
            items == closed@.map_values(|e: (String, Session)| (e.0@, e.1)),
            base == log_view(old(log)),
            log_view(log) == push_all(base, items.take(i as int)),
        decreases closed@.len() - i,
    {
        let k = closed[i].0.clone();
        let s = closed[i].1;
        proof {
            assert(items.take(i + 1).drop_last() =~= items.take(i as int));
            assert(items.take(i + 1).last() == items[i as int]);
        }
        push_session(log, k, s);
        i = i + 1;
    }
    assert(items.take(closed@.len() as int) =~= items);
}

/// The game of each index: `ids[i]` is configured and running if `running[i]`.
pub open spec fn running_ids(ids: Seq<Seq<char>>, running: Seq<bool>, k: Seq<char>) -> bool {
    exists|i: int| 0 <= i < ids.len() && #[trigger] ids[i] == k && running[i]
}

proof fn lemma_step_games_keys(a: Seq<(Seq<char>, Session)>, ids: Seq<Seq<char>>, running: Seq<bool>, now: Timestamp, k: Seq<char>)
    requires
        keys_distinct(a),
        ids.no_duplicates(),
        ids.len() == running.len(),
    ensures
        keys_distinct(step_games(a, ids, running, now).0),
        ids.contains(k) ==> (has_key(step_games(a, ids, running, now).0, k) <==> running_ids(ids, running, k)),
        !ids.contains(k) ==> (has_key(step_games(a, ids, running, now).0, k) <==> has_key(a, k)),
    decreases ids.len(),
{
    if ids.len() > 0 {
        let ids0 = ids.drop_last();
        let r0 = running.drop_last();
        lemma_step_games_keys(a, ids0, r0, now, k);
        lemma_step_games_keys(a, ids0, r0, now, ids.last());
        let prev = step_games(a, ids0, r0, now);
        let id = ids.last();
        assert(ids0.no_duplicates());
        if running.last() && !has_key(prev.0, id) {
            let np = prev.0.push((id, opened_at(now)));
            assert forall|x: int, y: int| 0 <= x < np.len() && 0 <= y < np.len() && x != y implies #[trigger] np[x].0 != #[trigger] np[y].0 by {
                if x < prev.0.len() && y < prev.0.len() {
                } else if x < prev.0.len() {
                    assert(np[x].0 == prev.0[x].0);
                } else {
                    assert(np[y].0 == prev.0[y].0);
                }
            }
            if has_key(np, k) && k != id {
                let t = choose|t: int| 0 <= t < np.len() && #[trigger] np[t].0 == k;
                assert(prev.0[t].0 == k);
            }
            if k != id && has_key(prev.0, k) {
                let t = choose|t: int| 0 <= t < prev.0.len() && #[trigger] prev.0[t].0 == k;
                assert(np[t].0 == k);
            }
            assert(np[prev.0.len() as int].0 == id);
        } else if !running.last() && has_key(prev.0, id) {
            let ki = key_index_of(prev.0, id);
            let np = prev.0.remove(ki);
            assert forall|x: int, y: int| 0 <= x < np.len() && 0 <= y < np.len() && x != y implies #[trigger] np[x].0 != #[trigger] np[y].0 by {
                let ox = if x < ki { x } else { x + 1 };
                let oy = if y < ki { y } else { y + 1 };
                assert(np[x] == prev.0[ox]);
                assert(np[y] == prev.0[oy]);
            }
            if has_key(np, k) {
                let t = choose|t: int| 0 <= t < np.len() && #[trigger] np[t].0 == k;
                let ot = if t < ki { t } else { t + 1 };
                assert(np[t] == prev.0[ot]);
            }
            if k != id && has_key(prev.0, k) {
                let t = choose|t: int| 0 <= t < prev.0.len() && #[trigger] prev.0[t].0 == k;
                assert(t != ki);
                let nt = if t < ki { t } else { t - 1 };
                assert(np[nt] == prev.0[t]);
            }
        }
        if k == id {
            assert(ids[ids.len() - 1] == k);
            if running_ids(ids0, r0, k) {
                let i = choose|i: int| 0 <= i < ids0.len() && #[trigger] ids0[i] == k && r0[i];
                assert(ids[i] == ids[ids.len() - 1]);
            }
            if running.last() {
                assert(running_ids(ids, running, k));
            } else if running_ids(ids, running, k) {
                let i = choose|i: int| 0 <= i < ids.len() && #[trigger] ids[i] == k && running[i];
                assert(ids[i] == ids[ids.len() - 1]);
            }
        } else {
            assert(ids.contains(k) <==> ids0.contains(k)) by {
                if ids.contains(k) {
                    let i = choose|i: int| 0 <= i < ids.len() && ids[i] == k;
                    assert(ids0[i] == k);
                }
                if ids0.contains(k) {
                    let i = choose|i: int| 0 <= i < ids0.len() && ids0[i] == k;
                    assert(ids[i] == k);
                }
            }
            if running_ids(ids, running, k) {
                let i = choose|i: int| 0 <= i < ids.len() && #[trigger] ids[i] == k && running[i];
                assert(ids0[i] == k && r0[i]);
            }
            if running_ids(ids0, r0, k) {
                let i = choose|i: int| 0 <= i < ids0.len() && #[trigger] ids0[i] == k && r0[i];
                assert(ids[i] == k && running[i]);
            }
        }
    }
}

proof fn lemma_drop_zombies_keys(a: Seq<(Seq<char>, Session)>, ids: Seq<Seq<char>>, now: Timestamp, k: Seq<char>)
    ensures
        has_key(drop_zombies(a, ids, now).0, k) <==> (has_key(a, k) && ids.contains(k)),
    decreases a.len(),
{
    if a.len() > 0 {
        let a0 = a.drop_last();
        lemma_drop_zombies_keys(a0, ids, now, k);
        let prev = drop_zombies(a0, ids, now);
        let z = drop_zombies(a, ids, now);
        if has_key(a, k) && ids.contains(k) {
            let t = choose|t: int| 0 <= t < a.len() && #[trigger] a[t].0 == k;
            if t < a0.len() {
                assert(a0[t].0 == k);
                let u = choose|u: int| 0 <= u < prev.0.len() && #[trigger] prev.0[u].0 == k;
                assert(z.0[u].0 == k);
            } else {
                assert(z.0[z.0.len() - 1].0 == k);
            }
        }
        if has_key(z.0, k) {
            let u = choose|u: int| 0 <= u < z.0.len() && #[trigger] z.0[u].0 == k;
            if u < prev.0.len() && z.0[u] == prev.0[u] {
                let t = choose|t: int| 0 <= t < a0.len() && #[trigger] a0[t].0 == k;
                assert(a[t].0 == k);
            } else {
                assert(a[a.len() - 1].0 == k);
            }
        }
    }
}

/// After a polling step over games with distinct identifiers, a game has an
/// open session exactly when it is configured and its executable is
/// running: sessions of stopped games and of removed games are closed,
/// whether or not a gap was detected.
pub proof fn lemma_poll_step_tracks_running(
    a: Seq<(Seq<char>, Session)>,
    last_seen: Option<Timestamp>,
    games: Seq<Game>,
    running: Seq<bool>,
    now: Timestamp,
    k: Seq<char>,
)
    requires
        keys_distinct(a),
        game_ids(games).no_duplicates(),
        games.len() == running.len(),
    ensures
        ({
            let h = after_gap(a, last_seen, now);
            let g = step_games(h.0, game_ids(games), running, now);
            has_key(drop_zombies(g.0, game_ids(games), now).0, k) <==> running_ids(game_ids(games), running, k)
        }),
{
    let ids = game_ids(games);
    let h = after_gap(a, last_seen, now);
    assert(keys_distinct(h.0));
    lemma_step_games_keys(h.0, ids, running, now, k);
    let g = step_games(h.0, ids, running, now);
    lemma_drop_zombies_keys(g.0, ids, now, k);
    if running_ids(ids, running, k) {
        let i = choose|i: int| 0 <= i < ids.len() && #[trigger] ids[i] == k && running[i];
        assert(ids.contains(k));
    }
}

/// No session is lost by a polling step: after a gap, each session that was
/// open is among the closed sessions, ended at the gap's start; otherwise
/// it is either still open, unchanged, under its game, or among the closed
/// sessions, ended at `now`.
pub proof fn lemma_poll_step_keeps_sessions(
    a: Seq<(Seq<char>, Session)>,
    last_seen: Option<Timestamp>,
    ids: Seq<Seq<char>>,
    running: Seq<bool>,
    now: Timestamp,
    t: int,
)
    requires
        keys_distinct(a),
        ids.len() == running.len(),
        0 <= t < a.len(),
    ensures
        ({
            let h = after_gap(a, last_seen, now);
            let g = step_games(h.0, ids, running, now);
            let z = drop_zombies(g.0, ids, now);
            match gap_start(last_seen, now) {
                Some(e) => (h.1 + g.1 + z.1).contains((a[t].0, closed_at(a[t].1, e))),
                None => z.0.contains(a[t]) || (h.1 + g.1 + z.1).contains((a[t].0, closed_at(a[t].1, now))),
            }
        }),
{
    let h = after_gap(a, last_seen, now);
    let g = step_games(h.0, ids, running, now);
    let z = drop_zombies(g.0, ids, now);
    match gap_start(last_seen, now) {
        Some(e) => {
            assert(h.1[t] == (a[t].0, closed_at(a[t].1, e)));
            assert((h.1 + g.1 + z.1)[t] == h.1[t]);
        },
        None => {
            assert(h.1.len() == 0);
            assert(h.1 + g.1 + z.1 =~= g.1 + z.1);
            lemma_step_keeps_without_gap(a, ids, running, now, t);
        },
    }
}

proof fn lemma_step_keeps_without_gap(
    a: Seq<(Seq<char>, Session)>,
    ids: Seq<Seq<char>>,
    running: Seq<bool>,
    now: Timestamp,
    t: int,
)
    requires
        keys_distinct(a),
        ids.len() == running.len(),
        0 <= t < a.len(),
    ensures
        ({
            let g = step_games(a, ids, running, now);
            let z = drop_zombies(g.0, ids, now);
            z.0.contains(a[t]) || (g.1 + z.1).contains((a[t].0, closed_at(a[t].1, now)))
        }),
{
    lemma_step_games_keeps(a, ids, running, now, t);
    let g = step_games(a, ids, running, now);
    let c = (a[t].0, closed_at(a[t].1, now));
    if g.0.contains(a[t]) {
        let u = choose|u: int| 0 <= u < g.0.len() && g.0[u] == a[t];
        lemma_drop_zombies_keeps(g.0, ids, now, u);
        let z = drop_zombies(g.0, ids, now);
        if z.1.contains(c) {
            let w = choose|w: int| 0 <= w < z.1.len() && z.1[w] == c;
            assert((g.1 + z.1)[g.1.len() + w] == c);
        }
    } else {
        let z = drop_zombies(g.0, ids, now);
        let w = choose|w: int| 0 <= w < g.1.len() && g.1[w] == c;
        assert((g.1 + z.1)[w] == c);
    }
}

/// A gap is not counted as play: when a polling step detects a gap, the
/// sessions it closes for the gap end at the gap's start, and every session
/// left open after the step started at `now`.
pub proof fn lemma_gap_not_counted(
    a: Seq<(Seq<char>, Session)>,
    last_seen: Option<Timestamp>,
    ids: Seq<Seq<char>>,
    running: Seq<bool>,
    now: Timestamp,
)
    requires
        gap_start(last_seen, now) is Some,
        ids.len() == running.len(),
    ensures
        ({
            let e = gap_start(last_seen, now)->0;
            let h = after_gap(a, last_seen, now);
            let g = step_games(h.0, ids, running, now);
            let z = drop_zombies(g.0, ids, now);
            &&& h.1.len() == a.len()
            &&& forall|i: int| 0 <= i < h.1.len() ==> (#[trigger] h.1[i]).1.end == Some(e)
            &&& forall|u: int| 0 <= u < z.0.len() ==> (#[trigger] z.0[u]).1 == opened_at(now)
        }),
{
    let h = after_gap(a, last_seen, now);
    let g = step_games(h.0, ids, running, now);
    lemma_step_games_from(h.0, ids, running, now);
    lemma_zombies_kept_from::<Session>(g.0, ids, now);
    let z = drop_zombies(g.0, ids, now);
    assert forall|u: int| 0 <= u < z.0.len() implies (#[trigger] z.0[u]).1 == opened_at(now) by {
        let m = choose|m: int| 0 <= m < g.0.len() && g.0[m] == #[trigger] drop_zombies(g.0, ids, now).0[u];
        assert(!h.0.contains(g.0[m]));
    }
}

proof fn lemma_step_games_from(a: Seq<(Seq<char>, Session)>, ids: Seq<Seq<char>>, running: Seq<bool>, now: Timestamp)
    requires
        ids.len() == running.len(),
    ensures
        forall|u: int| 0 <= u < step_games(a, ids, running, now).0.len() ==>
            a.contains(#[trigger] step_games(a, ids, running, now).0[u]) || step_games(a, ids, running, now).0[u].1 == opened_at(now),
    decreases ids.len(),
{
    if ids.len() > 0 {
        let ids0 = ids.drop_last();
        let r0 = running.drop_last();
        lemma_step_games_from(a, ids0, r0, now);
        let prev = step_games(a, ids0, r0, now);
        let g = step_games(a, ids, running, now);
        let id = ids.last();
        if running.last() && !has_key(prev.0, id) {
            assert forall|u: int| 0 <= u < g.0.len() implies a.contains(#[trigger] g.0[u]) || g.0[u].1 == opened_at(now) by {
                if u < prev.0.len() {
                    assert(g.0[u] == prev.0[u]);
                }
            }
        } else if !running.last() && has_key(prev.0, id) {
            let ki = key_index_of(prev.0, id);
            assert forall|u: int| 0 <= u < g.0.len() implies a.contains(#[trigger] g.0[u]) || g.0[u].1 == opened_at(now) by {
                let ou = if u < ki { u } else { u + 1 };
                assert(g.0[u] == prev.0[ou]);
            }
        }
    }
}

proof fn lemma_step_games_keeps(a: Seq<(Seq<char>, Session)>, ids: Seq<Seq<char>>, running: Seq<bool>, now: Timestamp, t: int)
    requires
        keys_distinct(a),
        ids.len() == running.len(),
        0 <= t < a.len(),
    ensures
        step_games(a, ids, running, now).0.contains(a[t])
            || step_games(a, ids, running, now).1.contains((a[t].0, closed_at(a[t].1, now))),
        keys_distinct(step_games(a, ids, running, now).0),
    decreases ids.len(),
{
    if ids.len() > 0 {
        let ids0 = ids.drop_last();
        let r0 = running.drop_last();
        lemma_step_games_keeps(a, ids0, r0, now, t);
        let prev = step_games(a, ids0, r0, now);
        let g = step_games(a, ids, running, now);
        let id = ids.last();
        let c = (a[t].0, closed_at(a[t].1, now));
        if running.last() && !has_key(prev.0, id) {
            let np = prev.0.push((id, opened_at(now)));
            assert forall|x: int, y: int| 0 <= x < np.len() && 0 <= y < np.len() && x != y implies #[trigger] np[x].0 != #[trigger] np[y].0 by {
                if x < prev.0.len() && y < prev.0.len() {
                } else if x < prev.0.len() {
                    assert(np[x].0 == prev.0[x].0);
                } else {
                    assert(np[y].0 == prev.0[y].0);
                }
            }
            if prev.0.contains(a[t]) {
                let u = choose|u: int| 0 <= u < prev.0.len() && prev.0[u] == a[t];
                assert(np[u] == a[t]);
            } else {
                let w = choose|w: int| 0 <= w < prev.1.len() && prev.1[w] == c;
                assert(g.1[w] == c);
            }
        } else if !running.last() && has_key(prev.0, id) {
            let ki = key_index_of(prev.0, id);
            let np = prev.0.remove(ki);
            assert forall|x: int, y: int| 0 <= x < np.len() && 0 <= y < np.len() && x != y implies #[trigger] np[x].0 != #[trigger] np[y].0 by {
                let ox = if x < ki { x } else { x + 1 };
                let oy = if y < ki { y } else { y + 1 };
                assert(np[x] == prev.0[ox]);
                assert(np[y] == prev.0[oy]);
            }
            if prev.0.contains(a[t]) {
                let u = choose|u: int| 0 <= u < prev.0.len() && prev.0[u] == a[t];
                if u == ki {
                    assert(g.1[g.1.len() - 1] == (id, closed_at(prev.0[ki].1, now)));
                    assert(prev.0[ki].0 == id);
                } else {
                    let nu = if u < ki { u } else { u - 1 };
                    assert(np[nu] == a[t]);
                }
            } else {
                let w = choose|w: int| 0 <= w < prev.1.len() && prev.1[w] == c;
                assert(g.1[w] == c);
            }
        }
    }
}

proof fn lemma_drop_zombies_keeps(a: Seq<(Seq<char>, Session)>, ids: Seq<Seq<char>>, now: Timestamp, u: int)
    requires
        0 <= u < a.len(),
    ensures
        drop_zombies(a, ids, now).0.contains(a[u])
            || drop_zombies(a, ids, now).1.contains((a[u].0, closed_at(a[u].1, now))),
    decreases a.len(),
{
    let a0 = a.drop_last();
    let z = drop_zombies(a, ids, now);
    if u < a0.len() {
        lemma_drop_zombies_keeps(a0, ids, now, u);
        let prev = drop_zombies(a0, ids, now);
        assert(a0[u] == a[u]);
        if prev.0.contains(a[u]) {
            let x = choose|x: int| 0 <= x < prev.0.len() && prev.0[x] == a[u];
            assert(z.0[x] == a[u]);
        } else {
            let x = choose|x: int| 0 <= x < prev.1.len() && prev.1[x] == (a[u].0, closed_at(a[u].1, now));
            assert(z.1[x] == (a[u].0, closed_at(a[u].1, now)));
        }
    } else {
        if ids.contains(a.last().0) {
            assert(z.0[z.0.len() - 1] == a[u]);
        } else {
            assert(z.1[z.1.len() - 1] == (a[u].0, closed_at(a[u].1, now)));
        }
    }
}

/// The sessions a log holds for key `k`; none when the key is absent.
pub open spec fn sessions_of(lv: Seq<(Seq<char>, Seq<Session>)>, k: Seq<char>) -> Seq<Session> {
    if has_key(lv, k) {
        lv[key_index_of(lv, k)].1
    } else {
        Seq::empty()
    }
}

proof fn lemma_key_index_unique<V>(s: Seq<(Seq<char>, V)>, k: Seq<char>, i: int)
    requires
        keys_distinct(s),
        0 <= i < s.len(),
        s[i].0 == k,
    ensures
        has_key(s, k),
        key_index_of(s, k) == i,
{
    assert(s[i].0 == k);
    let j = key_index_of(s, k);
    assert(s[j].0 == k);
}

/// Appending a session under `k` extends the sessions of `k` by it and
/// leaves every other key's sessions as they were.
pub proof fn lemma_push_session_effect(lv: Seq<(Seq<char>, Seq<Session>)>, k: Seq<char>, s: Session, other: Seq<char>)
    requires
        keys_distinct(lv),
    ensures
        keys_distinct(push_session_spec(lv, k, s)),
        sessions_of(push_session_spec(lv, k, s), k) == sessions_of(lv, k).push(s),
        other != k ==> sessions_of(push_session_spec(lv, k, s), other) == sessions_of(lv, other),
        has_key(push_session_spec(lv, k, s), other) <==> (has_key(lv, other) || other == k),
{
    let r = push_session_spec(lv, k, s);
    if has_key(lv, k) {
        let i = key_index_of(lv, k);
        assert(lv[i].0 == k);
        assert forall|x: int, y: int| 0 <= x < r.len() && 0 <= y < r.len() && x != y implies #[trigger] r[x].0 != #[trigger] r[y].0 by {
            assert(r[x].0 == lv[x].0);
            assert(r[y].0 == lv[y].0);
        }
        lemma_key_index_unique(r, k, i);
        if has_key(lv, other) {
            let j = key_index_of(lv, other);
            assert(lv[j].0 == other);
            assert(r[j].0 == other);
            lemma_key_index_unique(r, other, j);
        }
        if has_key(r, other) {
            let j = choose|j: int| 0 <= j < r.len() && #[trigger] r[j].0 == other;
            assert(lv[j].0 == other);
        }
    } else {
        assert forall|x: int, y: int| 0 <= x < r.len() && 0 <= y < r.len() && x != y implies #[trigger] r[x].0 != #[trigger] r[y].0 by {
            if x < lv.len() && y < lv.len() {
                assert(r[x].0 == lv[x].0 && r[y].0 == lv[y].0);
            } else if x < lv.len() {
                assert(r[x].0 == lv[x].0);
            } else {
                assert(r[y].0 == lv[y].0);
            }
        }
        lemma_key_index_unique(r, k, lv.len() as int);
        assert(r[lv.len() as int].1 =~= Seq::<Session>::empty().push(s));
        if has_key(lv, other) {
            let j = key_index_of(lv, other);
            assert(lv[j].0 == other);
            assert(r[j].0 == other);
            lemma_key_index_unique(r, other, j);
        }
        if has_key(r, other) && other != k {
            let j = choose|j: int| 0 <= j < r.len() && #[trigger] r[j].0 == other;
            assert(j < lv.len());
            assert(lv[j].0 == other);
        }
    }
}

/// Appending sessions with distinct keys: each key of `items` gets its
/// session appended once, and every other key keeps its sessions.
pub proof fn lemma_push_all_effect(lv: Seq<(Seq<char>, Seq<Session>)>, items: Seq<(Seq<char>, Session)>, k: Seq<char>)
    requires
        keys_distinct(lv),
        keys_distinct(items),
    ensures
        keys_distinct(push_all(lv, items)),
        !has_key(items, k) ==> sessions_of(push_all(lv, items), k) == sessions_of(lv, k),
        forall|t: int| 0 <= t < items.len() && #[trigger] items[t].0 == k ==>
            sessions_of(push_all(lv, items), k) == sessions_of(lv, k).push(items[t].1),
    decreases items.len(),
{
    if items.len() > 0 {
        let i0 = items.drop_last();
        assert forall|x: int, y: int| 0 <= x < i0.len() && 0 <= y < i0.len() && x != y implies #[trigger] i0[x].0 != #[trigger] i0[y].0 by {
            assert(i0[x] == items[x] && i0[y] == items[y]);
        }
        lemma_push_all_effect(lv, i0, k);
        let prev = push_all(lv, i0);
        lemma_push_session_effect(prev, items.last().0, items.last().1, k);
        if has_key(i0, k) {
            let t = choose|t: int| 0 <= t < i0.len() && #[trigger] i0[t].0 == k;
            assert(items[t].0 == k);
        }
        assert forall|t: int| 0 <= t < items.len() && #[trigger] items[t].0 == k implies
            sessions_of(push_all(lv, items), k) == sessions_of(lv, k).push(items[t].1) by {
            if t < i0.len() {
                assert(i0[t].0 == k);
                assert(items.last().0 != k);
            } else {
                assert(!has_key(i0, k)) by {
                    if has_key(i0, k) {
                        let u = choose|u: int| 0 <= u < i0.len() && #[trigger] i0[u].0 == k;
                        assert(items[u].0 == k);
                    }
                }
            }
        }
        if !has_key(items, k) {
            assert(items.last().0 != k) by {
                if items.last().0 == k {
                    assert(items[items.len() - 1].0 == k);
                }
            }
            assert(!has_key(i0, k)) by {
                if has_key(i0, k) {
                    let u = choose|u: int| 0 <= u < i0.len() && #[trigger] i0[u].0 == k;
                    assert(items[u].0 == k);
                }
            }
        }
    }
}

/// Crash recovery loses no session: after recovery, the log holds, for each
/// game that had an open session, its pruned sessions followed by that
/// session closed at the recovery instant; other games keep their pruned
/// sessions.
pub proof fn lemma_recovery_keeps_every_session(
    lv: Seq<(Seq<char>, Seq<Session>)>,
    active: Seq<(Seq<char>, Session)>,
    end: Timestamp,
    k: Seq<char>,
)
    requires
        keys_distinct(lv),
        keys_distinct(active),
    ensures
        forall|t: int| 0 <= t < active.len() && #[trigger] active[t].0 == k ==>
            sessions_of(push_all(pruned_log(lv), closed_all(active, end)), k)
                == sessions_of(pruned_log(lv), k).push(closed_at(active[t].1, end)),
        !has_key(active, k) ==> sessions_of(push_all(pruned_log(lv), closed_all(active, end)), k)
            == sessions_of(pruned_log(lv), k),
{
    let p = pruned_log(lv);
    let items = closed_all(active, end);
    assert forall|x: int, y: int| 0 <= x < p.len() && 0 <= y < p.len() && x != y implies #[trigger] p[x].0 != #[trigger] p[y].0 by {
        assert(p[x].0 == lv[x].0 && p[y].0 == lv[y].0);
    }
    assert forall|x: int, y: int| 0 <= x < items.len() && 0 <= y < items.len() && x != y implies #[trigger] items[x].0 != #[trigger] items[y].0 by {
        assert(items[x].0 == active[x].0 && items[y].0 == active[y].0);
    }
    lemma_push_all_effect(p, items, k);
    assert forall|t: int| 0 <= t < active.len() && #[trigger] active[t].0 == k implies
        sessions_of(push_all(p, items), k) == sessions_of(p, k).push(closed_at(active[t].1, end)) by {
        assert(items[t].0 == k);
    }
    if !has_key(active, k) && has_key(items, k) {
        let t = choose|t: int| 0 <= t < items.len() && #[trigger] items[t].0 == k;
        assert(active[t].0 == k);
    }
}

/// Pruning keeps at most the limit, only sessions of the game, and when it
/// drops any, it keeps the newest: the kept ones are sorted newest first,
/// the full newest-first order is a rearrangement of the sessions, and
/// every dropped session starts no later than every kept one.
pub proof fn lemma_prune_keeps_newest(s: Seq<Session>)
    ensures
        pruned(s).len() <= s.len(),
        pruned(s).len() <= MAX_SESSIONS_PER_GAME || pruned(s) == s,
        s.len() > MAX_SESSIONS_PER_GAME ==> {
            &&& pruned(s).len() == MAX_SESSIONS_PER_GAME
            &&& newest_first(s).to_multiset() == s.to_multiset()
            &&& pruned(s) == newest_first(s).take(MAX_SESSIONS_PER_GAME as int)
            &&& forall|i: int, j: int| 0 <= i <= j < newest_first(s).len() ==>
                (#[trigger] newest_first(s)[i]).start.key() >= (#[trigger] newest_first(s)[j]).start.key()
        },
{
    if s.len() > MAX_SESSIONS_PER_GAME {
        let srt = sort_by_key(s, start_key());
        lemma_sort_multiset(s, start_key());
        lemma_sort_sorted(s, start_key());
        srt.lemma_reverse_to_multiset();
        let n = newest_first(s);
        assert forall|i: int, j: int| 0 <= i <= j < n.len() implies
            (#[trigger] n[i]).start.key() >= (#[trigger] n[j]).start.key() by {
            let a = srt.len() - 1 - j;
            let b = srt.len() - 1 - i;
            assert(n[i] == srt[b]);
            assert(n[j] == srt[a]);
            assert(start_key()(srt[a]) <= start_key()(srt[b]));
        }
    }
}


/// Pruning leaves a game with at most `MAX_SESSIONS_PER_GAME` sessions
/// exactly as it is; a game with more keeps exactly that many.
pub proof fn lemma_prune_leaves_small_games(s: Seq<Session>)
    ensures
        s.len() <= MAX_SESSIONS_PER_GAME ==> pruned(s) == s,
        s.len() > MAX_SESSIONS_PER_GAME ==> pruned(s).len() == MAX_SESSIONS_PER_GAME,
{
    lemma_prune_keeps_newest(s);
}

/// Pruning a log keeps every key in place and leaves the sessions of each
/// game with at most `MAX_SESSIONS_PER_GAME` of them untouched.
pub proof fn lemma_pruned_log_leaves_small_games(lv: Seq<(Seq<char>, Seq<Session>)>)
    ensures
        pruned_log(lv).len() == lv.len(),
        forall|k: int| 0 <= k < lv.len() ==> (#[trigger] pruned_log(lv)[k]).0 == lv[k].0,
        forall|k: int| 0 <= k < lv.len() && lv[k].1.len() <= MAX_SESSIONS_PER_GAME ==> #[trigger] pruned_log(lv)[k] == lv[k],
{
    assert forall|k: int| 0 <= k < lv.len() && lv[k].1.len() <= MAX_SESSIONS_PER_GAME implies #[trigger] pruned_log(lv)[k] == lv[k] by {
        lemma_prune_leaves_small_games(lv[k].1);
    }
}

/// Crash recovery closes every session left open under its game, keeping
/// its start: at the last instant a game was seen running when one was
/// recorded, so the time after it (a machine shut down while a game ran) is
/// not counted, and at `now` only when none was recorded.
pub proof fn lemma_recovery_ends_at_last_seen(state: &State, now: Timestamp)
    ensures
        closed_all(state.active_sessions.pairs(), recovery_end(state, now)).len() == state.active_sessions.pairs().len(),
        forall|i: int| 0 <= i < state.active_sessions.pairs().len() ==> {
            let open = #[trigger] state.active_sessions.pairs()[i];
            let c = closed_all(state.active_sessions.pairs(), recovery_end(state, now))[i];
            &&& c.0 == open.0
            &&& c.1.start == open.1.start
            &&& (state.last_seen matches Some(t) ==>
                    c.1.end == Some(t) && c.1.duration_secs == duration_secs(open.1.start, t) as u64)
            &&& (state.last_seen is None ==>
                    c.1.end == Some(now) && c.1.duration_secs == duration_secs(open.1.start, now) as u64)
        },
{
}
} // verus!
