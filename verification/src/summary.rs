//! What the management window shows and accepts: total play time per game
//! and the short form for adding a game.

use vstd::prelude::*;
use crate::models::{Game, Session, game_id_of};
use crate::commands::id_taken;
use crate::text::{str_trim, trim, chars_of};
use crate::time::{Timestamp, duration_secs, session_duration};

verus! {

/// Sum of the recorded lengths of sessions.
pub open spec fn total_recorded(s: Seq<Session>) -> int
    decreases s.len(),
{
    if s.len() == 0 {
        0
    } else {
        total_recorded(s.drop_last()) + s.last().duration_secs
    }
}

/// Total play time of a game: its recorded sessions, plus the running
/// session's time so far.
pub open spec fn total_play_time(s: Seq<Session>, active: Option<Session>, now: Timestamp) -> int {
    total_recorded(s) + match active {
        Some(a) => duration_secs(a.start, now),
        None => 0,
    }
}

/// Total play time of a game, in seconds.  The sum must fit in 64 bits.
pub fn total_play_secs(sessions: &[Session], active: Option<&Session>, now: Timestamp) -> (t: u64)
    requires
        now.valid(),
        active matches Some(a) ==> a.start.valid(),
        total_play_time(sessions@, match active { Some(a) => Some(*a), None => None }, now) <= u64::MAX,
    ensures
        t == total_play_time(sessions@, match active { Some(a) => Some(*a), None => None }, now),
        active matches Some(a) ==> t == total_recorded(sessions@) + duration_secs(a.start, now),
        active is None ==> t == total_recorded(sessions@),
{
    let ghost act = match active { Some(a) => Some(*a), None => None::<Session> };
    let mut total: u64 = 0;
    let mut i: usize = 0;
    proof {
        lemma_total_monotone(sessions@, 0);
    }
    while i < sessions.len()
        invariant
            i <= sessions@.len(),
            total == total_recorded(sessions@.take(i as int)),
            total_play_time(sessions@, act, now) <= u64::MAX,
            act == (match active { Some(a) => Some(*a), None => None::<Session> }),
            forall|j: int| 0 <= j <= sessions@.len() ==> total_recorded(#[trigger] sessions@.take(j)) <= total_recorded(sessions@),
            now.valid(),
        decreases sessions@.len() - i,
    {
        proof {
            assert(sessions@.take(i + 1).drop_last() =~= sessions@.take(i as int));
            assert(sessions@.take(i + 1).last() == sessions@[i as int]);
            assert(total_recorded(sessions@.take(i + 1)) <= total_recorded(sessions@));
            assert(total_recorded(sessions@) <= total_play_time(sessions@, act, now)) by {
                match act {
                    Some(a) => {},
                    None => {},
                }
            }
        }
        total = total + sessions[i].duration_secs;
        i = i + 1;
    }
    assert(sessions@.take(sessions@.len() as int) =~= sessions@);
    match active {
        Some(a) => total + session_duration(a.start, now),
        None => total,
    }
}

/// Total play time is the recorded lengths plus, while a session runs, the
/// whole seconds since it started, whatever the history (the empty history
/// included); the recorded total adds up session by session, from zero.
pub proof fn lemma_play_time_counts_running_session(s: Seq<Session>, a: Session, now: Timestamp)
    ensures
        total_play_time(s, Some(a), now) == total_recorded(s) + duration_secs(a.start, now),
        total_play_time(s, None, now) == total_recorded(s),
        total_play_time(Seq::<Session>::empty(), Some(a), now) == duration_secs(a.start, now),
        total_recorded(Seq::<Session>::empty()) == 0,
        forall|x: Session| #[trigger] total_recorded(s.push(x)) == total_recorded(s) + x.duration_secs,
{
    assert forall|x: Session| #[trigger] total_recorded(s.push(x)) == total_recorded(s) + x.duration_secs by {
        assert(s.push(x).drop_last() =~= s);
    }
}

/// The recorded total of two histories one after the other is the sum of
/// their totals.
pub proof fn lemma_total_recorded_append(a: Seq<Session>, b: Seq<Session>)
    ensures
        total_recorded(a + b) == total_recorded(a) + total_recorded(b),
    decreases b.len(),
{
    if b.len() == 0 {
        assert(a + b =~= a);
    } else {
        lemma_total_recorded_append(a, b.drop_last());
        assert((a + b).drop_last() =~= a + b.drop_last());
        assert((a + b).last() == b.last());
    }
}

proof fn lemma_total_monotone(s: Seq<Session>, unused: int)
    ensures
        forall|j: int| 0 <= j <= s.len() ==> total_recorded(#[trigger] s.take(j)) <= total_recorded(s),
    decreases s.len(),
{
    if s.len() > 0 {
        lemma_total_monotone(s.drop_last(), 0);
        assert forall|j: int| 0 <= j <= s.len() implies total_recorded(#[trigger] s.take(j)) <= total_recorded(s) by {
            if j == s.len() {
                assert(s.take(j) =~= s);
            } else {
                assert(s.take(j) =~= s.drop_last().take(j));
            }
        }
    }
}

/// Whole hours and remaining whole minutes of a number of seconds.
pub fn hours_minutes(total_secs: u64) -> (hm: (u64, u64))
    ensures
        hm.0 == total_secs / 3600,
        hm.1 == (total_secs % 3600) / 60,
{
    (total_secs / 3600, (total_secs % 3600) / 60)
}

/// Why the window's short form refuses to add a game, if it does: empty
/// fields, an identifier without any character, or a taken identifier.
pub open spec fn form_add_error(games: Seq<Game>, name: Seq<char>, executable: Seq<char>) -> Option<Seq<char>> {
    let tn = str_trim(name);
    let te = str_trim(executable);
    if tn.len() == 0 || te.len() == 0 {
        Some("All fields must be filled out."@)
    } else if game_id_of(tn).len() == 0 {
        Some("Game name must contain at least one alphanumeric character."@)
    } else if id_taken(games, game_id_of(tn)) {
        Some("Game already exists."@)
    } else {
        None
    }
}

/// Adds a game from the window's short form: the trimmed name and
/// executable, the identifier derived from the name.
pub fn form_add_game(games: &mut Vec<Game>, name: &str, executable: &str) -> (r: Result<(), String>)
    ensures
        match form_add_error(old(games)@, name@, executable@) {
            Some(m) => r matches Err(e) && e@ == m && final(games)@ == old(games)@,
            None => r is Ok && final(games)@.len() == old(games)@.len() + 1
                && final(games)@.subrange(0, old(games)@.len() as int) == old(games)@
                && final(games)@.last().id@ == game_id_of(str_trim(name@))
                && final(games)@.last().name@ == str_trim(name@)
                && final(games)@.last().executable@ == str_trim(executable@),
        },
{
    let tn = trim(name);
    let te = trim(executable);
    if chars_of(tn.as_str()).len() == 0 || chars_of(te.as_str()).len() == 0 {
        return Err("All fields must be filled out.".to_owned());
    }
    let id = Game::generate_id(tn.as_str());
    if chars_of(id.as_str()).len() == 0 {
        return Err("Game name must contain at least one alphanumeric character.".to_owned());
    }
    let mut i: usize = 0;
    while i < games.len()
        invariant
            i <= games@.len(),
            games@ == old(games)@,
            id@ == game_id_of(str_trim(name@)),
            str_trim(name@).len() > 0,
            str_trim(executable@).len() > 0,
            id@.len() > 0,
            tn@ == str_trim(name@),
            te@ == str_trim(executable@),
            forall|j: int| 0 <= j < i ==> (#[trigger] games@[j]).id@ != id@,
        decreases games@.len() - i,
    {
        if crate::keyed::str_eq(games[i].id.as_str(), id.as_str()) {
            assert(games@[i as int].id@ == id@);
            return Err("Game already exists.".to_owned());
        }
        i = i + 1;
    }
    games.push(Game { id, name: tn, executable: te });
    assert(games@.subrange(0, old(games)@.len() as int) =~= old(games)@);
    Ok(())
}

} // verus!
