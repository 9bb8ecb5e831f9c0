//! The data the tracker keeps: games, play sessions and the runtime state.

use vstd::prelude::*;
use crate::keyed::StrMap;
use crate::time::Timestamp;
use crate::text::{str_trim, str_lowercase, char_alphanumeric, trim, to_lowercase, chars_of, is_alphanumeric, string_of, is_ascii_text, ascii_lowercase, is_white_space, trim_start_ws, trim_end_ws};

verus! {

/// A configured game: a slug identifier, a display name and the
/// executable whose process marks the game as running.
#[derive(Debug, Clone)]
pub struct Game {
    pub id: String,
    pub name: String,
    pub executable: String,
}

/// The slug of a display name: each character kept if alphanumeric and
/// replaced by `-` otherwise.
pub open spec fn slug(s: Seq<char>) -> Seq<char> {
    s.map_values(|c: char| if char_alphanumeric(c) { c } else { '-' })
}

/// The most characters an identifier keeps.
pub const MAX_ID_CHARS: usize = 64;

/// The first `MAX_ID_CHARS` characters of a sequence, or all of it when it
/// is shorter.
pub open spec fn truncated_id(s: Seq<char>) -> Seq<char> {
    if s.len() > MAX_ID_CHARS {
        s.subrange(0, MAX_ID_CHARS as int)
    } else {
        s
    }
}

/// The identifier derived from a display name: trimmed, lowercased,
/// slugged, then cut to its first 64 characters.
pub open spec fn game_id_of(name: Seq<char>) -> Seq<char> {
    truncated_id(slug(str_lowercase(str_trim(name))))
}

impl Game {
    /// Derives a game identifier from its display name; identifiers keep at
    /// most 64 characters.
    pub fn generate_id(name: &str) -> (id: String)
        ensures
            id@ == game_id_of(name@),
    {
        let trimmed = trim(name);
        let lower = to_lowercase(trimmed.as_str());
        let cs = chars_of(lower.as_str());
        let mut out: Vec<char> = Vec::new();
        let mut i: usize = 0;
        while i < cs.len() && i < MAX_ID_CHARS
            invariant
                cs@ == str_lowercase(str_trim(name@)),
                i <= cs@.len(),
                i <= MAX_ID_CHARS,
                out@ =~= slug(cs@.subrange(0, i as int)),
            decreases cs@.len() - i,
        {
            let c = cs[i];
            if is_alphanumeric(c) {
                out.push(c);
            } else {
                out.push('-');
            }
            i = i + 1;
        }
        assert(out@ =~= truncated_id(slug(cs@)));
        string_of(out.as_slice())
    }
}


/// A character an identifier made from an ASCII name can hold: a digit, a
/// lowercase letter or `-`.
pub open spec fn ascii_id_char(c: char) -> bool {
    c == '-' || ('0' <= c && c <= '9') || ('a' <= c && c <= 'z')
}

proof fn lemma_trim_start_ascii(s: Seq<char>)
    requires
        is_ascii_text(s),
    ensures
        is_ascii_text(trim_start_ws(s)),
    decreases s.len(),
{
    if s.len() > 0 && is_white_space(s[0]) {
        let t = s.subrange(1, s.len() as int);
        assert forall|i: int| 0 <= i < t.len() implies (#[trigger] t[i] as u32) < 128 by {
            assert(t[i] == s[i + 1]);
        }
        lemma_trim_start_ascii(t);
    }
}

proof fn lemma_trim_end_ascii(s: Seq<char>)
    requires
        is_ascii_text(s),
    ensures
        is_ascii_text(trim_end_ws(s)),
    decreases s.len(),
{
    if s.len() > 0 && is_white_space(s.last()) {
        let t = s.drop_last();
        assert forall|i: int| 0 <= i < t.len() implies (#[trigger] t[i] as u32) < 128 by {
            assert(t[i] == s[i]);
        }
        lemma_trim_end_ascii(t);
    }
}

/// The identifier of an ASCII name holds only digits, lowercase letters and
/// `-`.
proof fn lemma_ascii_id_chars(name: Seq<char>)
    requires
        is_ascii_text(name),
    ensures
        forall|i: int| 0 <= i < game_id_of(name).len() ==> ascii_id_char(#[trigger] game_id_of(name)[i]),
        game_id_of(name).len() <= MAX_ID_CHARS,
{
    let t = str_trim(name);
    lemma_trim_start_ascii(name);
    lemma_trim_end_ascii(trim_start_ws(name));
    let l = str_lowercase(t);
    assert(l == ascii_lowercase(t));
    let sl = slug(l);
    assert forall|i: int| 0 <= i < sl.len() implies ascii_id_char(#[trigger] sl[i]) by {
        assert(l[i] == crate::text::ascii_lower(t[i]));
        assert((t[i] as u32) < 128);
    }
    let id = game_id_of(name);
    assert forall|i: int| 0 <= i < id.len() implies ascii_id_char(#[trigger] id[i]) by {
        assert(id[i] == sl[i]);
    }
}

/// An identifier made from an ASCII name is its own identifier: deriving an
/// identifier from it gives it back unchanged.
pub proof fn lemma_ascii_id_is_its_own_id(name: Seq<char>)
    requires
        is_ascii_text(name),
    ensures
        game_id_of(game_id_of(name)) == game_id_of(name),
{
    lemma_ascii_id_chars(name);
    let id = game_id_of(name);
    assert(is_ascii_text(id)) by {
        assert forall|i: int| 0 <= i < id.len() implies (#[trigger] id[i] as u32) < 128 by {
            assert(ascii_id_char(id[i]));
        }
    }
    assert(trim_start_ws(id) == id) by {
        if id.len() > 0 {
            assert(ascii_id_char(id[0]));
        }
    }
    assert(trim_end_ws(id) == id) by {
        if id.len() > 0 {
            assert(ascii_id_char(id[id.len() - 1]));
        }
    }
    assert(str_trim(id) == id);
    assert(str_lowercase(id) =~= id) by {
        assert forall|i: int| 0 <= i < id.len() implies #[trigger] ascii_lowercase(id)[i] == id[i] by {
            assert(ascii_id_char(id[i]));
        }
    }
    assert(slug(id) =~= id) by {
        assert forall|i: int| 0 <= i < id.len() implies #[trigger] slug(id)[i] == id[i] by {
            assert(ascii_id_char(id[i]));
        }
    }
}
} // verus!

verus! {

/// One play session: when it started, when it ended (none while the game
/// still runs) and its recorded length in whole seconds.
#[derive(Debug, Clone, Copy, PartialEq, Eq, Structural)]
pub struct Session {
    pub start: Timestamp,
    pub end: Option<Timestamp>,
    pub duration_secs: u64,
}

impl Session {
    /// Its instants lie in the representable range.
    pub open spec fn valid(self) -> bool {
        &&& self.start.valid()
        &&& self.end matches Some(e) ==> e.valid()
    }
}

/// Sessions per game identifier.
pub type SessionLog = StrMap<Vec<Session>>;

/// The tracker's runtime state: the open session of each running game and
/// the last instant at which the tracker saw a game running.
pub struct State {
    pub active_sessions: StrMap<Session>,
    pub last_seen: Option<Timestamp>,
}

impl State {
    /// Every open session and the last-seen instant are valid instants.
    pub open spec fn valid(&self) -> bool {
        &&& forall|i: int| 0 <= i < self.active_sessions.pairs().len() ==> (#[trigger] self.active_sessions.pairs()[i]).1.valid()
        &&& self.last_seen matches Some(t) ==> t.valid()
    }
}

impl State {
    /// Whether every open session and the last-seen instant are valid
    /// (see `valid`).
    pub fn is_valid(&self) -> (r: bool)
        ensures
            r == self.valid(),
    {
        match self.last_seen {
            Some(t) => {
                if !t.is_valid() {
                    return false;
                }
            },
            None => {},
        }
        let n = self.active_sessions.len();
        let mut i: usize = 0;
        while i < n
            invariant
                n == self.active_sessions.pairs().len(),
                i <= n,
                self.last_seen matches Some(t) ==> t.valid(),
                forall|j: int| 0 <= j < i ==> (#[trigger] self.active_sessions.pairs()[j]).1.valid(),
            decreases n - i,
        {
            let s = self.active_sessions.value_at(i);
            let ok = s.start.is_valid() && match s.end {
                Some(e) => e.is_valid(),
                None => true,
            };
            if !ok {
                assert(!self.active_sessions.pairs()[i as int].1.valid());
                return false;
            }
            i = i + 1;
        }
        true
    }
}

impl Default for State {
    /// No open session, nothing seen yet.
    fn default() -> (s: Self)
        ensures
            s.active_sessions.pairs().len() == 0,
            s.last_seen.is_none(),
    {
        State { active_sessions: StrMap::new(), last_seen: None }
    }
}

/// A session log as plain values: per key, the sessions in order.
pub open spec fn log_view(log: &SessionLog) -> Seq<(Seq<char>, Seq<Session>)> {
    log.pairs().map_values(|e: (Seq<char>, Vec<Session>)| (e.0, e.1@))
}

} // verus!
