//! The edits the management window makes to the data files: adding,
//! changing and removing games, and adding, changing and deleting sessions.
//! Each works on values already loaded; the caller loads and saves.

use vstd::prelude::*;
use crate::keyed::{StrMap, has_key, key_index_of, keys_distinct};
use crate::models::{Game, Session, SessionLog, State, log_view, game_id_of};
use crate::process::exe_suffix;
use crate::text::{str_trim, str_lowercase, char_alphanumeric, eq_ascii_ci, ends_with, trim, to_lowercase, chars_of, is_alphanumeric, ends_with_chars, contains_any, eq_ignore_ascii_case};
use crate::time::{Timestamp, datetime_parse, duration_secs, parse_timestamp, is_before, session_duration};

verus! {

/// Longest name or executable, in characters.
pub const MAX_FIELD_CHARS: usize = 100;

/// Characters an executable name may not hold.
pub open spec fn invalid_exe_chars() -> Seq<char> {
    seq!['/', '\\', ':', '*', '?', '"', '<', '>', '|']
}

/// Some character of `s` is alphanumeric.
pub open spec fn has_alnum(s: Seq<char>) -> bool {
    exists|i: int| 0 <= i < s.len() && char_alphanumeric(#[trigger] s[i])
}

/// Some character of `s` may not appear in an executable name.
pub open spec fn has_invalid_char(s: Seq<char>) -> bool {
    exists|i: int| 0 <= i < s.len() && invalid_exe_chars().contains(#[trigger] s[i])
}

/// What is wrong with a trimmed name and executable, checked in order:
/// emptiness, lengths, and an alphanumeric character in the name.
pub open spec fn fields_error(tn: Seq<char>, te: Seq<char>) -> Option<Seq<char>> {
    if tn.len() == 0 || te.len() == 0 {
        Some("All fields must be filled out"@)
    } else if tn.len() > MAX_FIELD_CHARS {
        Some("Name must be at most 100 characters"@)
    } else if te.len() > MAX_FIELD_CHARS {
        Some("Executable must be at most 100 characters"@)
    } else if !has_alnum(tn) {
        Some("Name must contain alphanumeric characters"@)
    } else {
        None
    }
}

/// What is wrong with the form of a trimmed executable name: a forbidden
/// character, or no `.exe` extension (in any case).
pub open spec fn exe_form_error(te: Seq<char>) -> Option<Seq<char>> {
    if has_invalid_char(te) {
        Some("Executable name contains invalid characters"@)
    } else if !ends_with(str_lowercase(te), exe_suffix()) {
        Some("Executable must have .exe extension"@)
    } else {
        None
    }
}

/// Some game other than the one at `skip` runs executable `te`, ignoring
/// ASCII case.
pub open spec fn exe_taken(games: Seq<Game>, te: Seq<char>, skip: int) -> bool {
    exists|i: int| 0 <= i < games.len() && i != skip && eq_ascii_ci((#[trigger] games[i]).executable@, te)
}

/// Some game has identifier `id`.
pub open spec fn id_taken(games: Seq<Game>, id: Seq<char>) -> bool {
    exists|i: int| 0 <= i < games.len() && (#[trigger] games[i]).id@ == id
}

/// Why adding a game with this name and executable is refused, if it is.
pub open spec fn add_game_error(games: Seq<Game>, name: Seq<char>, executable: Seq<char>) -> Option<Seq<char>> {
    let tn = str_trim(name);
    let te = str_trim(executable);
    if fields_error(tn, te) is Some {
        fields_error(tn, te)
    } else if game_id_of(tn).len() == 0 {
        Some("Name must contain alphanumeric characters"@)
    } else if id_taken(games, game_id_of(tn)) {
        Some("Game already exists"@)
    } else if exe_taken(games, te, -1) {
        Some("Executable already tracked for another game"@)
    } else {
        exe_form_error(te)
    }
}

fn err(msg: &str) -> (r: Option<String>)
    ensures
        r == Some::<String>(r->0),
        r->0@ == msg@,
{
    Some(msg.to_owned())
}

fn has_alnum_exec(s: &[char]) -> (r: bool)
    ensures
        r == has_alnum(s@),
{
    let mut i: usize = 0;
    while i < s.len()
        invariant
            i <= s@.len(),
            forall|j: int| 0 <= j < i ==> !char_alphanumeric(#[trigger] s@[j]),
        decreases s@.len() - i,
    {
        if is_alphanumeric(s[i]) {
            return true;
        }
        i = i + 1;
    }
    false
}

fn check_fields(tn: &[char], te: &[char]) -> (r: Option<String>)
    ensures
        match fields_error(tn@, te@) {
            Some(m) => r matches Some(e) && e@ == m,
            None => r is None,
        },
{
    if tn.len() == 0 || te.len() == 0 {
        return err("All fields must be filled out");
    }
    if tn.len() > MAX_FIELD_CHARS {
        return err("Name must be at most 100 characters");
    }
    if te.len() > MAX_FIELD_CHARS {
        return err("Executable must be at most 100 characters");
    }
    if !has_alnum_exec(tn) {
        return err("Name must contain alphanumeric characters");
    }
    None
}

fn check_exe_form(te: &str) -> (r: Option<String>)
    ensures
        match exe_form_error(te@) {
            Some(m) => r matches Some(e) && e@ == m,
            None => r is None,
        },
{
    let cs = chars_of(te);
    let bad = ['/', '\\', ':', '*', '?', '"', '<', '>', '|'];
    proof {
        assert(bad@ =~= invalid_exe_chars());
    }
    if contains_any(cs.as_slice(), &bad) {
        return err("Executable name contains invalid characters");
    }
    let lower = to_lowercase(te);
    let lcs = chars_of(lower.as_str());
    let ext = ['.', 'e', 'x', 'e'];
    proof {
        assert(ext@ =~= exe_suffix());
    }
    if !ends_with_chars(lcs.as_slice(), &ext) {
        return err("Executable must have .exe extension");
    }
    None
}

fn exe_taken_exec(games: &[Game], te: &[char], skip: usize, use_skip: bool) -> (r: bool)
    ensures
        r == exe_taken(games@, te@, if use_skip { skip as int } else { -1 }),
{
    let ghost sk: int = if use_skip { skip as int } else { -1 };
    let mut i: usize = 0;
    while i < games.len()
        invariant
            i <= games@.len(),
            sk == (if use_skip { skip as int } else { -1 }),
            forall|j: int| 0 <= j < i && j != sk ==> !eq_ascii_ci((#[trigger] games@[j]).executable@, te@),
        decreases games@.len() - i,
    {
        if !(use_skip && i == skip) {
            let ecs = chars_of(games[i].executable.as_str());
            if eq_ignore_ascii_case(ecs.as_slice(), te) {
                return true;
            }
        }
        i = i + 1;
    }
    false
}

fn id_taken_exec(games: &[Game], id: &str) -> (r: bool)
    ensures
        r == id_taken(games@, id@),
{
    let mut i: usize = 0;
    while i < games.len()
        invariant
            i <= games@.len(),
            forall|j: int| 0 <= j < i ==> (#[trigger] games@[j]).id@ != id@,
        decreases games@.len() - i,
    {
        if crate::keyed::str_eq(games[i].id.as_str(), id) {
            return true;
        }
        i = i + 1;
    }
    false
}

/// Adds a game from the name and executable typed by the user, both
/// trimmed; its identifier is derived from the name.  Refused, with the
/// reason, when a field is empty or longer than 100 characters, the name
/// has no alphanumeric character, the identifier or (ignoring ASCII case)
/// the executable is taken, or the executable is not a plain `.exe` name.
pub fn add_game(games: &mut Vec<Game>, name: &str, executable: &str) -> (r: Result<(), String>)
    ensures
        match add_game_error(old(games)@, name@, executable@) {
            Some(m) => r matches Err(e) && e@ == m && final(games)@ == old(games)@,
            None => r is Ok && final(games)@.len() == old(games)@.len() + 1
                && final(games)@.subrange(0, old(games)@.len() as int) == old(games)@
                && final(games)@.last().id@ == game_id_of(str_trim(name@))
                && final(games)@.last().name@ == str_trim(name@)
                && final(games)@.last().executable@ == str_trim(executable@),
        },
{
    let tn = trim(name);
    let te = trim(executable);
    let tnc = chars_of(tn.as_str());
    let tec = chars_of(te.as_str());
    match check_fields(tnc.as_slice(), tec.as_slice()) {
        Some(e) => return Err(e),
        None => {},
    }
    let id = Game::generate_id(tn.as_str());
    if id.as_str().unicode_len() == 0 {
        return Err("Name must contain alphanumeric characters".to_owned());
    }
    if id_taken_exec(games.as_slice(), id.as_str()) {
        return Err("Game already exists".to_owned());
    }
    if exe_taken_exec(games.as_slice(), tec.as_slice(), 0, false) {
        return Err("Executable already tracked for another game".to_owned());
    }
    match check_exe_form(te.as_str()) {
        Some(e) => return Err(e),
        None => {},
    }
    games.push(Game { id, name: tn, executable: te });
    assert(games@.subrange(0, old(games)@.len() as int) =~= old(games)@);
    Ok(())
}

/// The first game with identifier `id`, if any.
pub open spec fn first_with_id(games: Seq<Game>, id: Seq<char>) -> Option<int> {
    if id_taken(games, id) {
        Some(choose|i: int| 0 <= i < games.len() && (#[trigger] games[i]).id@ == id
            && forall|j: int| 0 <= j < i ==> (#[trigger] games[j]).id@ != id)
    } else {
        None
    }
}

fn position_of_id(games: &[Game], id: &str) -> (r: Option<usize>)
    ensures
        match first_with_id(games@, id@) {
            Some(i) => r matches Some(p) && p as int == i && 0 <= i < games@.len() && games@[i].id@ == id@,
            None => r is None,
        },
{
    let mut i: usize = 0;
    while i < games.len()
        invariant
            i <= games@.len(),
            forall|j: int| 0 <= j < i ==> (#[trigger] games@[j]).id@ != id@,
        decreases games@.len() - i,
    {
        if crate::keyed::str_eq(games[i].id.as_str(), id) {
            proof {
                assert(id_taken(games@, id@));
                let c = choose|c: int| 0 <= c < games@.len() && (#[trigger] games@[c]).id@ == id@
                    && forall|j: int| 0 <= j < c ==> (#[trigger] games@[j]).id@ != id@;
                assert(c == i as int) by {
                    if c < i {
                        assert(games@[c].id@ != id@);
                    } else if c > i {
                        assert(games@[i as int].id@ == id@);
                    }
                }
            }
            return Some(i);
        }
        i = i + 1;
    }
    None
}

/// Why changing the name and executable of game `id` is refused, if it is.
pub open spec fn update_game_error(games: Seq<Game>, id: Seq<char>, name: Seq<char>, executable: Seq<char>) -> Option<Seq<char>> {
    let tn = str_trim(name);
    let te = str_trim(executable);
    match first_with_id(games, id) {
        None => Some("Game not found"@),
        Some(pos) => if fields_error(tn, te) is Some {
            fields_error(tn, te)
        } else if exe_form_error(te) is Some {
            exe_form_error(te)
        } else if exe_taken(games, te, pos) {
            Some("Executable already tracked for another game"@)
        } else {
            None
        },
    }
}

/// Changes the name and executable of the first game with identifier `id`
/// (its identifier stays).  Refused, with the reason, when no game has that
/// identifier, a field is empty or longer than 100 characters, the name has
/// no alphanumeric character, the executable is not a plain `.exe` name, or
/// another game runs it (ignoring ASCII case).
pub fn update_game(games: &mut Vec<Game>, id: &str, name: &str, executable: &str) -> (r: Result<(), String>)
    ensures
        match update_game_error(old(games)@, id@, name@, executable@) {
            Some(m) => r matches Err(e) && e@ == m && final(games)@ == old(games)@,
            None => {
                let pos = first_with_id(old(games)@, id@)->0;
                &&& r is Ok
                &&& final(games)@.len() == old(games)@.len()
                &&& forall|j: int| 0 <= j < old(games)@.len() && j != pos ==> #[trigger] final(games)@[j] == old(games)@[j]
                &&& final(games)@[pos].id == old(games)@[pos].id
                &&& final(games)@[pos].name@ == str_trim(name@)
                &&& final(games)@[pos].executable@ == str_trim(executable@)
            },
        },
{
    let pos = match position_of_id(games.as_slice(), id) {
        Some(p) => p,
        None => return Err("Game not found".to_owned()),
    };
    let tn = trim(name);
    let te = trim(executable);
    let tnc = chars_of(tn.as_str());
    let tec = chars_of(te.as_str());
    match check_fields(tnc.as_slice(), tec.as_slice()) {
        Some(e) => return Err(e),
        None => {},
    }
    match check_exe_form(te.as_str()) {
        Some(e) => return Err(e),
        None => {},
    }
    if exe_taken_exec(games.as_slice(), tec.as_slice(), pos, true) {
        return Err("Executable already tracked for another game".to_owned());
    }
    replace_fields(games, pos, tn, te);
    Ok(())
}

fn replace_fields(games: &mut Vec<Game>, pos: usize, name: String, executable: String)
    requires
        pos < old(games)@.len(),
    ensures
        final(games)@.len() == old(games)@.len(),
        forall|j: int| 0 <= j < old(games)@.len() && j != pos ==> #[trigger] final(games)@[j] == old(games)@[j],
        final(games)@[pos as int].id == old(games)@[pos as int].id,
        final(games)@[pos as int].name == name,
        final(games)@[pos as int].executable == executable,
{
    let old_game = games.remove(pos);
    let Game { id: gid, name: _, executable: _ } = old_game;
    let g = Game { id: gid, name, executable };
    let ghost mid = games@;
    games.insert(pos, g);
    assert(games@ =~= old(games)@.update(pos as int, g));
}

/// The games without those with identifier `id`, in order.
pub open spec fn without_id(games: Seq<Game>, id: Seq<char>) -> Seq<Game>
    decreases games.len(),
{
    if games.len() == 0 {
        games
    } else if games.last().id@ == id {
        without_id(games.drop_last(), id)
    } else {
        without_id(games.drop_last(), id).push(games.last())
    }
}

/// Removes every game with identifier `id`; refused with "Game not found"
/// when there is none.  (The caller then drops the game's sessions with
/// `forget_game_sessions` and its open session with `forget_open_session`.)
pub fn remove_game(games: &mut Vec<Game>, id: &str) -> (r: Result<(), String>)
    ensures
        final(games)@ == without_id(old(games)@, id@),
        r is Ok <==> id_taken(old(games)@, id@),
        r matches Err(e) ==> e@ == "Game not found"@,
{
    let mut kept: Vec<Game> = Vec::new();
    let mut rest: Vec<Game> = Vec::new();
    std::mem::swap(&mut rest, games);
    let ghost orig = rest@;
    let n = rest.len();
    let mut i: usize = 0;
    let mut found = false;
    assert(orig.take(0) =~= Seq::<Game>::empty());
    while rest.len() > 0
        invariant
            i + rest@.len() == n,
            n == orig.len(),
            rest@ =~= orig.subrange(i as int, n as int),
            kept@ == without_id(orig.take(i as int), id@),
            found == id_taken(orig.take(i as int), id@),
        decreases rest@.len(),
    {
        let ghost before = rest@;
        let g = rest.remove(0);
        proof {
            assert(g == orig[i as int]);
            assert(orig.take(i + 1).drop_last() =~= orig.take(i as int));
            assert(orig.take(i + 1).last() == g);
        }
        let same = crate::keyed::str_eq(g.id.as_str(), id);
        proof {
            if id_taken(orig.take(i + 1), id@) && !same {
                let w = choose|w: int| 0 <= w < orig.take(i + 1).len() && (#[trigger] orig.take(i + 1)[w]).id@ == id@;
                assert(orig.take(i as int)[w] == orig.take(i + 1)[w]);
            }
            if id_taken(orig.take(i as int), id@) {
                let w = choose|w: int| 0 <= w < orig.take(i as int).len() && (#[trigger] orig.take(i as int)[w]).id@ == id@;
                assert(orig.take(i + 1)[w] == orig.take(i as int)[w]);
            }
            if same {
                assert(orig.take(i + 1)[i as int].id@ == id@);
            }
        }
        if same {
            found = true;
        } else {
            kept.push(g);
        }
        i = i + 1;
    }
    assert(orig.take(n as int) =~= orig);
    *games = kept;
    if found {
        Ok(())
    } else {
        Err("Game not found".to_owned())
    }
}

/// The message for a text that is not an RFC 3339 instant, given the text
/// of the parse error.
pub open spec fn invalid_datetime_msg(s: Seq<char>, parse_error: Seq<char>) -> Seq<char> {
    "Invalid datetime '"@ + s + "': "@ + parse_error
}

/// A text parsed as an instant, or the message saying why it is not one.
pub open spec fn parsed_instant(s: Seq<char>) -> Result<Timestamp, Seq<char>> {
    match datetime_parse(s) {
        Ok(t) => Ok(Timestamp { secs: t.0, nanos: t.1 }),
        Err(m) => Err(invalid_datetime_msg(s, m)),
    }
}

/// The session typed by the user: a start and an optional end, a blank end
/// meaning none.  Refused when either is not an instant or the end comes
/// before the start; its length is computed from the two.
pub open spec fn session_input(start: Seq<char>, end: Option<Seq<char>>) -> Result<Session, Seq<char>> {
    match parsed_instant(start) {
        Err(m) => Err(m),
        Ok(st) => {
            let end_parsed: Result<Option<Timestamp>, Seq<char>> = match end {
                Some(e) => if str_trim(e).len() > 0 {
                    match parsed_instant(e) {
                        Ok(t) => Ok(Some(t)),
                        Err(m) => Err(m),
                    }
                } else {
                    Ok(None)
                },
                None => Ok(None),
            };
            match end_parsed {
                Err(m) => Err(m),
                Ok(None) => Ok(Session { start: st, end: None, duration_secs: 0 }),
                Ok(Some(en)) => if en.before(st) {
                    Err("End time must be after start time"@)
                } else {
                    Ok(Session { start: st, end: Some(en), duration_secs: duration_secs(st, en) as u64 })
                },
            }
        },
    }
}

/// Parses a date-time typed by the user (RFC 3339).
pub fn parse_session_datetime(s: &str) -> (r: Result<Timestamp, String>)
    ensures
        match parsed_instant(s@) {
            Ok(t) => r == Ok::<Timestamp, String>(t),
            Err(m) => r matches Err(e) && e@ == m,
        },
        r matches Ok(t) ==> t.valid(),
{
    match parse_timestamp(s) {
        Ok(t) => Ok(t),
        Err(m) => {
            let mut msg = "Invalid datetime '".to_owned();
            msg.append(s);
            msg.append("': ");
            msg.append(m.as_str());
            Err(msg)
        },
    }
}

/// Builds a session from the start and optional end typed by the user.
pub fn session_from_input(start: &str, end: Option<&str>) -> (r: Result<Session, String>)
    ensures
        match session_input(start@, match end { Some(e) => Some(e@), None => None }) {
            Ok(x) => r == Ok::<Session, String>(x),
            Err(m) => r matches Err(e) && e@ == m,
        },
        r matches Ok(x) ==> x.valid(),
{
    let st = match parse_session_datetime(start) {
        Ok(t) => t,
        Err(e) => return Err(e),
    };
    let en: Option<Timestamp> = match end {
        Some(e) => {
            let t = trim(e);
            if t.as_str().unicode_len() > 0 {
                match parse_session_datetime(e) {
                    Ok(x) => Some(x),
                    Err(m) => return Err(m),
                }
            } else {
                None
            }
        },
        None => None,
    };
    match en {
        None => Ok(Session { start: st, end: None, duration_secs: 0 }),
        Some(x) => {
            if is_before(x, st) {
                Err("End time must be after start time".to_owned())
            } else {
                Ok(Session { start: st, end: Some(x), duration_secs: session_duration(st, x) })
            }
        },
    }
}

/// Why editing session `index` of game `game_id` is refused, if it is:
/// checked against the log first, then the typed values.
pub open spec fn session_slot_error(lv: Seq<(Seq<char>, Seq<Session>)>, game_id: Seq<char>, index: int) -> Option<Seq<char>> {
    if !has_key(lv, game_id) {
        Some("No sessions for this game"@)
    } else if index >= lv[key_index_of(lv, game_id)].1.len() {
        Some("Session index out of bounds"@)
    } else {
        None
    }
}

fn session_slot(sessions: &SessionLog, game_id: &str, index: usize) -> (r: Result<usize, String>)
    ensures
        match session_slot_error(log_view(sessions), game_id@, index as int) {
            Some(m) => r matches Err(e) && e@ == m,
            None => r matches Ok(p) && p as int == key_index_of(log_view(sessions), game_id@)
                && p < log_view(sessions).len() && log_view(sessions)[p as int].0 == game_id@,
        },
{
    proof {
        use_type_invariant(sessions);
        sessions.lemma_position_spec(game_id@);
    }
    match sessions.position(game_id) {
        None => {
            proof {
                if has_key(log_view(sessions), game_id@) {
                    let t = choose|t: int| 0 <= t < log_view(sessions).len() && #[trigger] log_view(sessions)[t].0 == game_id@;
                    assert(sessions.pairs()[t].0 == game_id@);
                }
            }
            Err("No sessions for this game".to_owned())
        },
        Some(p) => {
            proof {
                assert(log_view(sessions)[p as int].0 == game_id@);
                let k = key_index_of(log_view(sessions), game_id@);
                assert(sessions.pairs()[k].0 == game_id@);
            }
            if index >= sessions.value_at(p).len() {
                Err("Session index out of bounds".to_owned())
            } else {
                Ok(p)
            }
        },
    }
}

/// Replaces session `index` of game `game_id` with the typed start and
/// optional end.  Refused when the game has no sessions, the index is out
/// of range, or the typed values do not make a session.
pub fn update_session(sessions: &mut SessionLog, game_id: &str, index: usize, start: &str, end: Option<&str>) -> (r: Result<(), String>)
    ensures
        ({
            let lv = log_view(old(sessions));
            let input = session_input(start@, match end { Some(e) => Some(e@), None => None });
            match session_slot_error(lv, game_id@, index as int) {
                Some(m) => r matches Err(e) && e@ == m && log_view(final(sessions)) == lv,
                None => match input {
                    Err(m) => r matches Err(e) && e@ == m && log_view(final(sessions)) == lv,
                    Ok(x) => {
                        let k = key_index_of(lv, game_id@);
                        &&& r is Ok
                        &&& log_view(final(sessions)) == lv.update(k, (game_id@, lv[k].1.update(index as int, x)))
                    },
                },
            }
        }),
{
    let p = match session_slot(sessions, game_id, index) {
        Ok(p) => p,
        Err(e) => return Err(e),
    };
    let s = match session_from_input(start, end) {
        Ok(x) => x,
        Err(e) => return Err(e),
    };
    let mut list = sessions.replace_at(p, Vec::new());
    list.set(index, s);
    sessions.replace_at(p, list);
    assert(log_view(sessions) =~= log_view(old(sessions)).update(p as int, (game_id@, log_view(old(sessions))[p as int].1.update(index as int, s))));
    Ok(())
}

/// Deletes session `index` of game `game_id`; a game left without sessions
/// is dropped from the log.  Refused when the game has no sessions or the
/// index is out of range.
pub fn delete_session(sessions: &mut SessionLog, game_id: &str, index: usize) -> (r: Result<(), String>)
    ensures
        ({
            let lv = log_view(old(sessions));
            match session_slot_error(lv, game_id@, index as int) {
                Some(m) => r matches Err(e) && e@ == m && log_view(final(sessions)) == lv,
                None => {
                    let k = key_index_of(lv, game_id@);
                    let rest = lv[k].1.remove(index as int);
                    &&& r is Ok
                    &&& log_view(final(sessions)) == (if rest.len() == 0 { lv.remove(k) } else { lv.update(k, (game_id@, rest)) })
                },
            }
        }),
{
    let p = match session_slot(sessions, game_id, index) {
        Ok(p) => p,
        Err(e) => return Err(e),
    };
    let mut list = sessions.replace_at(p, Vec::new());
    list.remove(index);
    if list.len() == 0 {
        proof {
            use_type_invariant(&*sessions);
            sessions.lemma_position_spec(game_id@);
            assert(sessions.pairs()[p as int].0 == game_id@);
        }
        let _ = sessions.remove(game_id);
        assert(log_view(sessions) =~= log_view(old(sessions)).remove(p as int));
    } else {
        sessions.replace_at(p, list);
        assert(log_view(sessions) =~= log_view(old(sessions)).update(p as int, (game_id@, log_view(old(sessions))[p as int].1.remove(index as int))));
    }
    Ok(())
}

/// Why adding a session to game `game_id` is refused, if it is: the game
/// must be configured, then the typed values must make a session.
pub open spec fn new_session(games: Seq<Game>, game_id: Seq<char>, start: Seq<char>, end: Option<Seq<char>>) -> Result<Session, Seq<char>> {
    if !id_taken(games, game_id) {
        Err("Game not found"@)
    } else {
        session_input(start, end)
    }
}

/// The session to add to a configured game; the caller then appends it to
/// the log with `push_session`.
pub fn prepare_session(games: &[Game], game_id: &str, start: &str, end: Option<&str>) -> (r: Result<Session, String>)
    ensures
        match new_session(games@, game_id@, start@, match end { Some(e) => Some(e@), None => None }) {
            Ok(x) => r == Ok::<Session, String>(x),
            Err(m) => r matches Err(e) && e@ == m,
        },
        r matches Ok(x) ==> x.valid(),
{
    if !id_taken_exec(games, game_id) {
        return Err("Game not found".to_owned());
    }
    session_from_input(start, end)
}

/// Sessions may be deleted only for a game that is no longer configured.
pub fn check_orphaned(games: &[Game], game_id: &str) -> (r: Result<(), String>)
    ensures
        r is Ok <==> !id_taken(games@, game_id@),
        r matches Err(e) ==> e@ == "Cannot delete sessions for an active game — remove the game first"@,
{
    if id_taken_exec(games, game_id) {
        return Err("Cannot delete sessions for an active game — remove the game first".to_owned());
    }
    Ok(())
}

/// Drops all sessions of `game_id`; refused when the log has none.
pub fn remove_orphaned_sessions(sessions: &mut SessionLog, game_id: &str) -> (r: Result<(), String>)
    ensures
        r is Ok <==> has_key(log_view(old(sessions)), game_id@),
        r matches Err(e) ==> e@ == "No orphaned sessions found for this game"@ && log_view(final(sessions)) == log_view(old(sessions)),
        r is Ok ==> log_view(final(sessions)) == log_view(old(sessions)).remove(key_index_of(log_view(old(sessions)), game_id@)),
{
    let ghost lv = log_view(sessions);
    let ghost ps = sessions.pairs();
    proof {
        use_type_invariant(&*sessions);
        sessions.lemma_position_spec(game_id@);
    }
    let ghost pos = sessions.position_spec(game_id@);
    proof {
        if has_key(lv, game_id@) {
            let k = key_index_of(lv, game_id@);
            assert(lv[k].0 == game_id@);
            assert(ps[k].0 == game_id@);
            assert(pos == Some(k));
        } else {
            assert forall|j: int| 0 <= j < ps.len() implies #[trigger] ps[j].0 != game_id@ by {
                assert(lv[j].0 == ps[j].0);
            }
            assert(pos is None);
        }
    }
    match sessions.remove(game_id) {
        Some(_) => {
            assert(log_view(sessions) =~= lv.remove(key_index_of(lv, game_id@)));
            Ok(())
        },
        None => Err("No orphaned sessions found for this game".to_owned()),
    }
}

/// The log entries whose key is not among `ids`, in order.
pub open spec fn orphans(lv: Seq<(Seq<char>, Seq<Session>)>, ids: Seq<Seq<char>>) -> Seq<(Seq<char>, Seq<Session>)>
    decreases lv.len(),
{
    if lv.len() == 0 {
        lv
    } else if ids.contains(lv.last().0) {
        orphans(lv.drop_last(), ids)
    } else {
        orphans(lv.drop_last(), ids).push(lv.last())
    }
}

proof fn lemma_orphans_from(lv: Seq<(Seq<char>, Seq<Session>)>, ids: Seq<Seq<char>>)
    ensures
        forall|t: int| 0 <= t < orphans(lv, ids).len() ==>
            exists|m: int| 0 <= m < lv.len() && lv[m] == #[trigger] orphans(lv, ids)[t],
    decreases lv.len(),
{
    if lv.len() > 0 {
        lemma_orphans_from(lv.drop_last(), ids);
        let prev = orphans(lv.drop_last(), ids);
        assert forall|t: int| 0 <= t < orphans(lv, ids).len() implies
            exists|m: int| 0 <= m < lv.len() && lv[m] == #[trigger] orphans(lv, ids)[t] by {
            if t < prev.len() {
                let m = choose|m: int| 0 <= m < lv.drop_last().len() && lv.drop_last()[m] == prev[t];
                assert(lv[m] == lv.drop_last()[m]);
            } else {
                assert(lv[lv.len() - 1] == lv.last());
            }
        }
    }
}

/// The sessions of games that are no longer configured.
pub fn orphaned_sessions(sessions: SessionLog, games: &[Game]) -> (r: SessionLog)
    ensures
        log_view(&r) == orphans(log_view(&sessions), crate::tracker::game_ids(games@)),
{
    let ghost lv = log_view(&sessions);
    let ghost ids = crate::tracker::game_ids(games@);
    proof {
        use_type_invariant(&sessions);
    }
    let mut rest = sessions.into_entries();
    let n = rest.len();
    let mut out: SessionLog = StrMap::new();
    let mut i: usize = 0;
    assert(lv.take(0) =~= Seq::<(Seq<char>, Seq<Session>)>::empty());
    while rest.len() > 0
        invariant
            i + rest@.len() == n,
            n == lv.len(),
            crate::keyed::keys_distinct(lv),
            ids == crate::tracker::game_ids(games@),
            rest@.map_values(|e: (String, Vec<Session>)| (e.0@, e.1@)) =~= lv.subrange(i as int, n as int),
            log_view(&out) == orphans(lv.take(i as int), ids),
        decreases rest@.len(),
    {
        let ghost before = rest@;
        let e = rest.remove(0);
        proof {
            let rb = before.map_values(|e: (String, Vec<Session>)| (e.0@, e.1@));
            assert(rb =~= lv.subrange(i as int, n as int));
            assert(rb[0] == lv[i as int]);
            let rv = rest@.map_values(|e: (String, Vec<Session>)| (e.0@, e.1@));
            assert forall|k: int| 0 <= k < rv.len() implies #[trigger] rv[k] == lv[i + 1 + k] by {
                assert(rest@[k] == before[k + 1]);
                assert(rb[k + 1] == lv[i + k + 1]);
            }
            assert(lv.take(i + 1).drop_last() =~= lv.take(i as int));
            assert(lv.take(i + 1).last() == lv[i as int]);
        }
        let (k, v) = e;
        if crate::tracker::has_game_id(games, k.as_str()) {
        } else {
            proof {
                use_type_invariant(&out);
                out.lemma_position_spec(k@);
                lemma_orphans_from(lv.take(i as int), ids);
                if has_key(out.pairs(), k@) {
                    let t = choose|t: int| 0 <= t < out.pairs().len() && #[trigger] out.pairs()[t].0 == k@;
                    assert(log_view(&out)[t].0 == k@);
                    let m = choose|m: int| 0 <= m < lv.take(i as int).len() && lv.take(i as int)[m] == #[trigger] orphans(lv.take(i as int), ids)[t];
                    assert(lv[m].0 == lv[i as int].0);
                }
            }
            let ghost ov = log_view(&out);
            let ghost kv = k@;
            let ghost vv = v@;
            out.insert(k, v);
            assert(log_view(&out) =~= ov.push((kv, vv)));
        }
        i = i + 1;
    }
    assert(lv.take(n as int) =~= lv);
    out
}

/// No two games share an identifier.
pub open spec fn ids_distinct(games: Seq<Game>) -> bool {
    forall|i: int, j: int| 0 <= i < games.len() && 0 <= j < games.len() && i != j ==> (#[trigger] games[i]).id@ != (#[trigger] games[j]).id@
}

/// No two games run the same executable, ignoring ASCII case.
pub open spec fn exes_distinct(games: Seq<Game>) -> bool {
    forall|i: int, j: int| 0 <= i < games.len() && 0 <= j < games.len() && i != j
        ==> !eq_ascii_ci((#[trigger] games[i]).executable@, (#[trigger] games[j]).executable@)
}

/// Adding a game keeps identifiers unique and executables unique (ignoring
/// ASCII case): whenever `add_game` accepts a game, the list it leaves has
/// no two games with one identifier or one executable.
pub proof fn lemma_add_game_keeps_games_unique(before: Seq<Game>, after: Seq<Game>, name: Seq<char>, executable: Seq<char>)
    requires
        ids_distinct(before),
        exes_distinct(before),
        add_game_error(before, name, executable) is None,
        after.len() == before.len() + 1,
        after.subrange(0, before.len() as int) == before,
        after.last().id@ == game_id_of(str_trim(name)),
        after.last().executable@ == str_trim(executable),
    ensures
        ids_distinct(after),
        exes_distinct(after),
{
    let n = before.len() as int;
    assert forall|i: int| 0 <= i < n implies #[trigger] after[i] == before[i] by {
        assert(after.subrange(0, n)[i] == after[i]);
    }
    assert forall|i: int, j: int| 0 <= i < after.len() && 0 <= j < after.len() && i != j
        implies (#[trigger] after[i]).id@ != (#[trigger] after[j]).id@ by {
        if i < n && j < n {
        } else if i == n {
            assert(before[j] == after[j]);
        } else {
            assert(before[i] == after[i]);
        }
    }
    assert forall|i: int, j: int| 0 <= i < after.len() && 0 <= j < after.len() && i != j
        implies !eq_ascii_ci((#[trigger] after[i]).executable@, (#[trigger] after[j]).executable@) by {
        if i < n && j < n {
        } else if i == n {
            assert(before[j] == after[j]);
            assert(!eq_ascii_ci(before[j].executable@, str_trim(executable)));
        } else {
            assert(before[i] == after[i]);
            assert(!eq_ascii_ci(before[i].executable@, str_trim(executable)));
        }
    }
}

/// Changing a game keeps identifiers unique and executables unique
/// (ignoring ASCII case): whenever `update_game` accepts a change, the list
/// it leaves has no two games with one identifier or one executable.
pub proof fn lemma_update_game_keeps_games_unique(before: Seq<Game>, after: Seq<Game>, id: Seq<char>, name: Seq<char>, executable: Seq<char>)
    requires
        ids_distinct(before),
        exes_distinct(before),
        update_game_error(before, id, name, executable) is None,
        after.len() == before.len(),
        forall|j: int| 0 <= j < before.len() && j != first_with_id(before, id)->0 ==> #[trigger] after[j] == before[j],
        after[first_with_id(before, id)->0].id == before[first_with_id(before, id)->0].id,
        after[first_with_id(before, id)->0].executable@ == str_trim(executable),
    ensures
        ids_distinct(after),
        exes_distinct(after),
{
    let pos = first_with_id(before, id)->0;
    assert forall|i: int, j: int| 0 <= i < after.len() && 0 <= j < after.len() && i != j
        implies (#[trigger] after[i]).id@ != (#[trigger] after[j]).id@ by {
        if i != pos && j != pos {
            assert(after[i] == before[i] && after[j] == before[j]);
        } else if i == pos {
            assert(after[j] == before[j]);
            assert(before[i].id@ != before[j].id@);
        } else {
            assert(after[i] == before[i]);
            assert(before[i].id@ != before[j].id@);
        }
    }
    assert forall|i: int, j: int| 0 <= i < after.len() && 0 <= j < after.len() && i != j
        implies !eq_ascii_ci((#[trigger] after[i]).executable@, (#[trigger] after[j]).executable@) by {
        if i != pos && j != pos {
            assert(after[i] == before[i] && after[j] == before[j]);
        } else if i == pos {
            assert(after[j] == before[j]);
            assert(!eq_ascii_ci(before[j].executable@, str_trim(executable)));
        } else {
            assert(after[i] == before[i]);
            assert(!eq_ascii_ci(before[i].executable@, str_trim(executable)));
        }
    }
}

/// The entries without the one keyed `k`, if there is one.
pub open spec fn without_key<V>(s: Seq<(Seq<char>, V)>, k: Seq<char>) -> Seq<(Seq<char>, V)> {
    if has_key(s, k) {
        s.remove(key_index_of(s, k))
    } else {
        s
    }
}

proof fn lemma_removed_key<V>(s: Seq<(Seq<char>, V)>, k: Seq<char>, i: int)
    requires
        keys_distinct(s),
        0 <= i < s.len(),
        s[i].0 == k,
    ensures
        has_key(s, k),
        key_index_of(s, k) == i,
        !has_key(s.remove(i), k),
        keys_distinct(s.remove(i)),
{
    assert(s[i].0 == k);
    let j = key_index_of(s, k);
    assert(s[j].0 == k);
    if has_key(s.remove(i), k) {
        let t = choose|t: int| 0 <= t < s.remove(i).len() && #[trigger] s.remove(i)[t].0 == k;
        let ot = if t < i { t } else { t + 1 };
        assert(s.remove(i)[t] == s[ot]);
    }
    assert forall|a: int, b: int| 0 <= a < s.remove(i).len() && 0 <= b < s.remove(i).len() && a != b
        implies #[trigger] s.remove(i)[a].0 != #[trigger] s.remove(i)[b].0 by {
        let oa = if a < i { a } else { a + 1 };
        let ob = if b < i { b } else { b + 1 };
        assert(s.remove(i)[a] == s[oa]);
        assert(s.remove(i)[b] == s[ob]);
    }
}

/// Drops the recorded sessions of a removed game.  Returns whether the log
/// held sessions under `id`, in which case the log must be written; no
/// session is left under `id`, and every other key keeps its sessions.
pub fn forget_game_sessions(log: &mut SessionLog, id: &str) -> (removed: bool)
    ensures
        removed == has_key(log_view(old(log)), id@),
        log_view(final(log)) == without_key(log_view(old(log)), id@),
        !has_key(log_view(final(log)), id@),
{
    proof {
        use_type_invariant(&*log);
        log.lemma_position_spec(id@);
    }
    let ghost before = log.pairs();
    let ghost lv = log_view(log);
    let r = log.remove(id);
    proof {
        if has_key(before, id@) {
            let i = choose|i: int| 0 <= i < before.len() && #[trigger] before[i].0 == id@;
            assert(lv[i].0 == id@);
            assert(keys_distinct(lv)) by {
                assert forall|a: int, b: int| 0 <= a < lv.len() && 0 <= b < lv.len() && a != b
                    implies #[trigger] lv[a].0 != #[trigger] lv[b].0 by {
                    assert(lv[a].0 == before[a].0 && lv[b].0 == before[b].0);
                }
            }
            lemma_removed_key(lv, id@, i);
            assert(log_view(log) =~= lv.remove(i));
        } else {
            if has_key(lv, id@) {
                let i = choose|i: int| 0 <= i < lv.len() && #[trigger] lv[i].0 == id@;
                assert(before[i].0 == id@);
            }
            assert(log_view(log) =~= lv);
        }
    }
    r.is_some()
}

/// Drops the open session of a removed game.  Returns whether the state
/// held one, in which case the state must be written; no open session is
/// left under `id`, the others and the last-seen instant are kept.
pub fn forget_open_session(state: &mut State, id: &str) -> (removed: bool)
    ensures
        removed == has_key(old(state).active_sessions.pairs(), id@),
        final(state).active_sessions.pairs() == without_key(old(state).active_sessions.pairs(), id@),
        !has_key(final(state).active_sessions.pairs(), id@),
        final(state).last_seen == old(state).last_seen,
        old(state).valid() ==> final(state).valid(),
{
    proof {
        use_type_invariant(&state.active_sessions);
        state.active_sessions.lemma_position_spec(id@);
    }
    let ghost before = state.active_sessions.pairs();
    let r = state.active_sessions.remove(id);
    proof {
        if has_key(before, id@) {
            let i = choose|i: int| 0 <= i < before.len() && #[trigger] before[i].0 == id@;
            lemma_removed_key(before, id@, i);
            if old(state).valid() {
                assert forall|t: int| 0 <= t < state.active_sessions.pairs().len()
                    implies (#[trigger] state.active_sessions.pairs()[t]).1.valid() by {
                    let ot = if t < i { t } else { t + 1 };
                    assert(state.active_sessions.pairs()[t] == before[ot]);
                }
            }
        }
    }
    r.is_some()
}

} // verus!
