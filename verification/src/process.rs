//! Process detection: matching a game's executable against running
//! processes, and the list of user processes offered when adding a game.

use vstd::prelude::*;
use vstd::multiset::Multiset;
use crate::keyed::{StrMap, has_key, key_index_of};
use crate::sorting::{insert_pos, sort_by_key, lemma_insert_is_insert, lemma_sort_multiset, lemma_sort_contains};
use crate::keyed::keys_distinct;
use crate::text::{is_ascii_text, ascii_lowercase, ascii_uppercase, ascii_upper, eq_ascii_ci, ascii_lower, ascii_lower_exec, str_lowercase, ends_with, starts_with, trim_end_char, to_lowercase, chars_of, string_of, ends_with_chars, starts_with_chars, trim_end_matches};

verus! {

/// `.exe`
pub open spec fn exe_suffix() -> Seq<char> {
    seq!['.', 'e', 'x', 'e']
}

/// The text ends with `.exe` in any mix of upper and lower case.
pub open spec fn ends_with_exe(s: Seq<char>) -> bool {
    s.len() >= 4 && eq_ascii_ci(s.subrange(s.len() - 4, s.len() as int), exe_suffix())
}

/// A process name without a trailing `.exe`, whatever its case.
pub open spec fn without_exe(s: Seq<char>) -> Seq<char> {
    if ends_with_exe(s) {
        s.subrange(0, s.len() - 4)
    } else {
        s
    }
}

/// Whether the characters end with `.exe`, compared ignoring ASCII case.
fn ends_with_exe_chars(cs: &[char]) -> (r: bool)
    ensures
        r == ends_with_exe(cs@),
{
    let n = cs.len();
    if n < 4 {
        return false;
    }
    let a = ascii_lower_exec(cs[n - 4]);
    let b = ascii_lower_exec(cs[n - 3]);
    let c = ascii_lower_exec(cs[n - 2]);
    let d = ascii_lower_exec(cs[n - 1]);
    let r = a == '.' && b == 'e' && c == 'x' && d == 'e';
    proof {
        let sub = cs@.subrange(n - 4, n as int);
        let suf = exe_suffix();
        assert(ascii_lower(suf[0]) == '.' && ascii_lower(suf[1]) == 'e');
        assert(ascii_lower(suf[2]) == 'x' && ascii_lower(suf[3]) == 'e');
        assert(sub[0] == cs@[n - 4] && sub[1] == cs@[n - 3] && sub[2] == cs@[n - 2] && sub[3] == cs@[n - 1]);
        if r {
            assert forall|i: int| 0 <= i < sub.len() implies ascii_lower(#[trigger] sub[i]) == ascii_lower(suf[i]) by {
                if i == 0 {
                } else if i == 1 {
                } else if i == 2 {
                } else {
                    assert(i == 3);
                }
            }
            assert(eq_ascii_ci(sub, suf));
        } else if eq_ascii_ci(sub, suf) {
            assert(ascii_lower(sub[0]) == ascii_lower(suf[0]));
            assert(ascii_lower(sub[1]) == ascii_lower(suf[1]));
            assert(ascii_lower(sub[2]) == ascii_lower(suf[2]));
            assert(ascii_lower(sub[3]) == ascii_lower(suf[3]));
        }
    }
    r
}

/// Strips a `.exe` suffix, whatever its case, from a process name, so that
/// `firefox` and `firefox.exe` (or `Game` and `Game.EXE`) name the same
/// executable.
pub fn strip_exe(name: &str) -> (r: String)
    ensures
        r@ == without_exe(name@),
{
    let cs = chars_of(name);
    if ends_with_exe_chars(cs.as_slice()) {
        let n = cs.len() - 4;
        let mut out: Vec<char> = Vec::new();
        let mut i: usize = 0;
        while i < n
            invariant
                n == cs@.len() - 4,
                n <= cs@.len(),
                i <= n,
                out@ =~= cs@.subrange(0, i as int),
            decreases n - i,
        {
            out.push(cs[i]);
            i = i + 1;
        }
        string_of(out.as_slice())
    } else {
        string_of(cs.as_slice())
    }
}

/// A running process as seen in one snapshot: its name when that is valid
/// UTF-8, its executable path (lossily converted) when known, and its start
/// time in seconds since the epoch.
#[derive(Debug, Clone)]
pub struct ProcessInfo {
    pub name: Option<String>,
    pub exe: Option<String>,
    pub start_time: u64,
}

/// The executable a name matches: lowercased, without `.exe`.
pub open spec fn exe_key(s: Seq<char>) -> Seq<char> {
    without_exe(str_lowercase(s))
}

/// Some process of the snapshot runs `executable`: its lowercased name
/// without `.exe` equals the lowercased target without `.exe`.
pub open spec fn runs_executable(procs: Seq<ProcessInfo>, executable: Seq<char>) -> bool {
    exists|i: int| 0 <= i < procs.len() && process_runs(#[trigger] procs[i], executable)
}

/// The process has a UTF-8 name naming `executable`.
pub open spec fn process_runs(p: ProcessInfo, executable: Seq<char>) -> bool {
    match p.name {
        Some(n) => exe_key(n@) == exe_key(executable),
        None => false,
    }
}

/// Matching ignores case and a `.exe` suffix: targets that agree once
/// lowercased and stripped of `.exe` match exactly the same processes.
pub proof fn lemma_matching_by_exe_key(procs: Seq<ProcessInfo>, a: Seq<char>, b: Seq<char>)
    requires
        exe_key(a) == exe_key(b),
    ensures
        runs_executable(procs, a) == runs_executable(procs, b),
{
    if runs_executable(procs, a) {
        let i = choose|i: int| 0 <= i < procs.len() && process_runs(#[trigger] procs[i], a);
        assert(process_runs(procs[i], b));
    }
    if runs_executable(procs, b) {
        let i = choose|i: int| 0 <= i < procs.len() && process_runs(#[trigger] procs[i], b);
        assert(process_runs(procs[i], a));
    }
}

/// A process runs a target exactly when it has a UTF-8 name whose key (the
/// name lowercased, without `.exe`) equals the target's key: the whole
/// names must agree, so a name that merely ends with the target, such as
/// `LeagueClient.exe` for `Client.exe`, does not run it.
pub proof fn lemma_runs_whole_name(procs: Seq<ProcessInfo>, executable: Seq<char>)
    ensures
        runs_executable(procs, executable) <==> exists|i: int| 0 <= i < procs.len() && (#[trigger] procs[i]).name is Some
            && exe_key(procs[i].name.unwrap()@) == exe_key(executable),
{
    if runs_executable(procs, executable) {
        let i = choose|i: int| 0 <= i < procs.len() && process_runs(#[trigger] procs[i], executable);
        assert(procs[i].name is Some && exe_key(procs[i].name.unwrap()@) == exe_key(executable));
    }
    if exists|i: int| 0 <= i < procs.len() && (#[trigger] procs[i]).name is Some
        && exe_key(procs[i].name.unwrap()@) == exe_key(executable) {
        let i = choose|i: int| 0 <= i < procs.len() && (#[trigger] procs[i]).name is Some
            && exe_key(procs[i].name.unwrap()@) == exe_key(executable);
        assert(process_runs(procs[i], executable));
    }
}

/// Whether a snapshot holds a process of `executable`, compared case
/// insensitively and with or without `.exe`.
pub fn snapshot_runs(procs: &[ProcessInfo], executable: &str) -> (r: bool)
    ensures
        r == runs_executable(procs@, executable@),
        r <==> exists|i: int| 0 <= i < procs@.len() && (#[trigger] procs@[i]).name is Some
            && exe_key(procs@[i].name.unwrap()@) == exe_key(executable@),
{
    proof {
        lemma_runs_whole_name(procs@, executable@);
    }
    let lower = to_lowercase(executable);
    let target = strip_exe(lower.as_str());
    let mut i: usize = 0;
    while i < procs.len()
        invariant
            i <= procs@.len(),
            target@ == exe_key(executable@),
            forall|j: int| 0 <= j < i ==> !process_runs(#[trigger] procs@[j], executable@),
        decreases procs@.len() - i,
    {
        match &procs[i].name {
            Some(n) => {
                let nl = to_lowercase(n.as_str());
                let ns = strip_exe(nl.as_str());
                if crate::keyed::str_eq(ns.as_str(), target.as_str()) {
                    return true;
                }
            },
            None => {},
        }
        i = i + 1;
    }
    false
}

/// `\\?\`, the Win32 long-path prefix.
pub open spec fn long_path_prefix() -> Seq<char> {
    seq!['\\', '\\', '?', '\\']
}

/// A path as compared against the Windows directory: without the long-path
/// prefix, lowercased.
pub open spec fn normalized_path(p: Seq<char>) -> Seq<char> {
    if starts_with(p, long_path_prefix()) {
        str_lowercase(p.subrange(4, p.len() as int))
    } else {
        str_lowercase(p)
    }
}

/// `C:\Windows`, the Windows directory when `WINDIR` is not set.
pub open spec fn default_windir() -> Seq<char> {
    seq!['C', ':', '\\', 'W', 'i', 'n', 'd', 'o', 'w', 's']
}

/// The prefix of paths inside the Windows directory: the directory
/// lowercased, without trailing backslashes, followed by one backslash.
pub open spec fn windir_prefix_of(windir: Option<Seq<char>>) -> Seq<char> {
    let w = match windir {
        Some(w) => w,
        None => default_windir(),
    };
    trim_end_char(str_lowercase(w), '\\').push('\\')
}

/// Computes the Windows-directory prefix from the `WINDIR` value, if set.
pub fn windir_prefix(windir: Option<&str>) -> (r: String)
    ensures
        r@ == windir_prefix_of(match windir { Some(w) => Some(w@), None => None }),
{
    let lower = match windir {
        Some(w) => to_lowercase(w),
        None => {
            let d = string_of(&['C', ':', '\\', 'W', 'i', 'n', 'd', 'o', 'w', 's']);
            proof {
                assert(d@ =~= default_windir());
            }
            to_lowercase(d.as_str())
        },
    };
    let cs = chars_of(lower.as_str());
    let mut t = trim_end_matches(cs.as_slice(), '\\');
    t.push('\\');
    string_of(t.as_slice())
}

/// Which processes the list offers.  On Windows (`windir_prefix` given):
/// only `.exe` processes with a known executable path outside the Windows
/// directory.  Everywhere: only processes with a non-empty UTF-8 name.
pub open spec fn offered(p: ProcessInfo, windir_prefix: Option<Seq<char>>) -> bool {
    match p.name {
        None => false,
        Some(n) => n@.len() > 0 && match windir_prefix {
            None => true,
            Some(w) => ends_with(str_lowercase(n@), exe_suffix()) && match p.exe {
                None => false,
                Some(e) => !(w.len() > 0 && starts_with(normalized_path(e@), w))
                    && !(w.len() > 0 && normalized_path(e@) == trim_end_char(w, '\\')),
            },
        },
    }
}

/// An offered process as an entry: keyed by its lowercased name, holding
/// its name and start time.
pub open spec fn entry_of(p: ProcessInfo) -> (Seq<char>, (Seq<char>, u64)) {
    (str_lowercase(p.name.unwrap()@), (p.name.unwrap()@, p.start_time))
}

/// The offered processes of a snapshot, one entry per lowercased name,
/// in the order names first appear; a later process with the same name
/// replaces the entry when it started strictly later.
pub open spec fn latest_by_name(procs: Seq<ProcessInfo>, windir_prefix: Option<Seq<char>>) -> Seq<(Seq<char>, (Seq<char>, u64))>
    decreases procs.len(),
{
    if procs.len() == 0 {
        Seq::empty()
    } else {
        let d = latest_by_name(procs.drop_last(), windir_prefix);
        let p = procs.last();
        if !offered(p, windir_prefix) {
            d
        } else {
            let e = entry_of(p);
            if has_key(d, e.0) {
                let i = key_index_of(d, e.0);
                if e.1.1 > d[i].1.1 {
                    d.update(i, e)
                } else {
                    d
                }
            } else {
                d.push(e)
            }
        }
    }
}

/// Order key putting the latest start first.
pub open spec fn latest_first() -> spec_fn((Seq<char>, u64)) -> int {
    |e: (Seq<char>, u64)| -(e.1 as int)
}

/// The names a snapshot offers, most recently started first (ties keep
/// the order of first appearance).
pub open spec fn offered_names(procs: Seq<ProcessInfo>, windir_prefix: Option<Seq<char>>) -> Seq<Seq<char>> {
    sort_by_key(
        latest_by_name(procs, windir_prefix).map_values(|e: (Seq<char>, (Seq<char>, u64))| e.1),
        latest_first(),
    ).map_values(|e: (Seq<char>, u64)| e.0)
}

fn is_offered(p: &ProcessInfo, windir_prefix: &Option<String>) -> (r: bool)
    ensures
        r == offered(*p, match windir_prefix { Some(w) => Some(w@), None => None }),
{
    let name = match &p.name {
        Some(n) => n,
        None => return false,
    };
    let ncs = chars_of(name.as_str());
    if ncs.len() == 0 {
        return false;
    }
    match windir_prefix {
        None => true,
        Some(w) => {
            let lower = to_lowercase(name.as_str());
            let lcs = chars_of(lower.as_str());
            if !ends_with_chars(lcs.as_slice(), &['.', 'e', 'x', 'e']) {
                proof {
                    assert(seq!['.', 'e', 'x', 'e'] =~= exe_suffix());
                }
                return false;
            }
            proof {
                assert(seq!['.', 'e', 'x', 'e'] =~= exe_suffix());
            }
            let exe = match &p.exe {
                Some(e) => e,
                None => return false,
            };
            let norm = normalize_for_filter(exe.as_str());
            let wcs = chars_of(w.as_str());
            let ncs2 = chars_of(norm.as_str());
            if wcs.len() > 0 && starts_with_chars(ncs2.as_slice(), wcs.as_slice()) {
                return false;
            }
            let wt = trim_end_matches(wcs.as_slice(), '\\');
            if wcs.len() > 0 && crate::keyed::str_eq(norm.as_str(), string_of(wt.as_slice()).as_str()) {
                return false;
            }
            true
        },
    }
}

/// A path without the long-path prefix, lowercased.
pub fn normalize_for_filter(path: &str) -> (r: String)
    ensures
        r@ == normalized_path(path@),
{
    let cs = chars_of(path);
    if starts_with_chars(cs.as_slice(), &['\\', '\\', '?', '\\']) {
        proof {
            assert(seq!['\\', '\\', '?', '\\'] =~= long_path_prefix());
        }
        let mut rest: Vec<char> = Vec::new();
        let mut i: usize = 4;
        while i < cs.len()
            invariant
                4 <= i <= cs@.len(),
                rest@ =~= cs@.subrange(4, i as int),
            decreases cs@.len() - i,
        {
            rest.push(cs[i]);
            i = i + 1;
        }
        to_lowercase(string_of(rest.as_slice()).as_str())
    } else {
        proof {
            assert(seq!['\\', '\\', '?', '\\'] =~= long_path_prefix());
        }
        to_lowercase(path)
    }
}

fn sort_latest_first(v: Vec<(String, u64)>) -> (r: Vec<(String, u64)>)
    ensures
        r@.map_values(|e: (String, u64)| (e.0@, e.1)) == sort_by_key(
            v@.map_values(|e: (String, u64)| (e.0@, e.1)),
            latest_first(),
        ),
{
    let ghost vv = v@.map_values(|e: (String, u64)| (e.0@, e.1));
    let mut rest = v;
    let mut out: Vec<(String, u64)> = Vec::new();
    let mut i: usize = 0;
    let n = rest.len();
    assert(vv.take(0) =~= Seq::<(Seq<char>, u64)>::empty());
    while rest.len() > 0
        invariant
            i + rest@.len() == n,
            n == vv.len(),
            rest@.map_values(|e: (String, u64)| (e.0@, e.1)) =~= vv.subrange(i as int, n as int),
            out@.map_values(|e: (String, u64)| (e.0@, e.1)) == sort_by_key(vv.take(i as int), latest_first()),
        decreases rest@.len(),
    {
        let ghost rbefore = rest@;
        let e = rest.remove(0);
        let ghost ev = (e.0@, e.1);
        proof {
            assert(rest@ =~= rbefore.subrange(1, rbefore.len() as int));
            assert(rbefore.map_values(|e: (String, u64)| (e.0@, e.1))[0] == ev);
            assert(ev == vv[i as int]);
            let rb = rbefore.map_values(|e: (String, u64)| (e.0@, e.1));
            assert(rb =~= vv.subrange(i as int, n as int));
            let rv = rest@.map_values(|e: (String, u64)| (e.0@, e.1));
            assert forall|k: int| 0 <= k < rv.len() implies #[trigger] rv[k] == vv[i + 1 + k] by {
                assert(rest@[k] == rbefore[k + 1]);
                assert(rb[k + 1] == vv[i + k + 1]);
            }
            assert(rest@.map_values(|e: (String, u64)| (e.0@, e.1)) =~= vv.subrange(i + 1, n as int));
        }
        let ghost ov = out@.map_values(|e: (String, u64)| (e.0@, e.1));
        let mut j: usize = out.len();
        proof {
            assert(ov.subrange(0, j as int) =~= ov);
        }
        while j > 0 && out[j - 1].1 < e.1
            invariant
                j <= out@.len(),
                ov == out@.map_values(|e: (String, u64)| (e.0@, e.1)),
                insert_pos(ov.subrange(0, j as int), ev, latest_first()) == insert_pos(ov, ev, latest_first()),
                ev == (e.0@, e.1),
            decreases j,
        {
            proof {
                let t = ov.subrange(0, j as int);
                assert(t.drop_last() =~= ov.subrange(0, j - 1));
                assert(t.last() == ov[j - 1]);
                assert(ov[j - 1].1 == out@[j - 1].1);
            }
            j = j - 1;
        }
        proof {
            let t = ov.subrange(0, j as int);
            if j > 0 {
                assert(t.last() == ov[j - 1]);
                assert(ov[j - 1].1 == out@[j - 1].1);
            }
            assert(insert_pos(t, ev, latest_first()) == j);
            lemma_insert_is_insert(ov, ev, latest_first());
            assert(vv.take(i + 1).drop_last() =~= vv.take(i as int));
            assert(vv.take(i + 1).last() == ev);
        }
        out.insert(j, e);
        assert(out@.map_values(|e: (String, u64)| (e.0@, e.1)) =~= ov.insert(j as int, ev));
        i = i + 1;
    }
    assert(vv.take(n as int) =~= vv);
    out
}

/// The names offered from a snapshot: deduplicated case-insensitively,
/// keeping the latest start of each name, most recently started first.
/// With a Windows-directory prefix, only user `.exe` processes are kept.
pub fn select_offered(procs: &[ProcessInfo], windir_prefix: &Option<String>) -> (names: Vec<String>)
    ensures
        names@.map_values(|s: String| s@) == offered_names(procs@, match windir_prefix { Some(w) => Some(w@), None => None }),
{
    let ghost wp = match windir_prefix { Some(w) => Some(w@), None => None };
    let mut seen: StrMap<(String, u64)> = StrMap::new();
    let mut i: usize = 0;
    assert(procs@.take(0) =~= Seq::<ProcessInfo>::empty());
    while i < procs.len()
        invariant
            i <= procs@.len(),
            wp == match windir_prefix { Some(w) => Some(w@), None => None::<Seq<char>> },
            seen.pairs().map_values(|e: (Seq<char>, (String, u64))| (e.0, (e.1.0@, e.1.1)))
                == latest_by_name(procs@.take(i as int), wp),
        decreases procs@.len() - i,
    {
        proof {
            assert(procs@.take(i + 1).drop_last() =~= procs@.take(i as int));
            assert(procs@.take(i + 1).last() == procs@[i as int]);
        }
        let p = &procs[i];
        if is_offered(p, windir_prefix) {
            let name = match &p.name {
                Some(n) => n,
                None => { i = i + 1; continue; },
            };
            let lower = to_lowercase(name.as_str());
            let ghost sv = seen.pairs().map_values(|e: (Seq<char>, (String, u64))| (e.0, (e.1.0@, e.1.1)));
            proof {
                use_type_invariant(&seen);
                seen.lemma_position_spec(lower@);
            }
            match seen.position(lower.as_str()) {
                Some(k) => {
                    proof {
                        assert(sv[k as int].0 == lower@);
                        assert(has_key(sv, lower@));
                        let kk = key_index_of(sv, lower@);
                        assert(seen.pairs()[kk].0 == lower@);
                    }
                    if p.start_time > seen.value_at(k).1 {
                        seen.insert(lower, (name.clone(), p.start_time));
                        assert(seen.pairs().map_values(|e: (Seq<char>, (String, u64))| (e.0, (e.1.0@, e.1.1)))
                            =~= sv.update(k as int, entry_of(*p)));
                    }
                },
                None => {
                    proof {
                        assert(!has_key(sv, lower@)) by {
                            if has_key(sv, lower@) {
                                let t = choose|t: int| 0 <= t < sv.len() && #[trigger] sv[t].0 == lower@;
                                assert(seen.pairs()[t].0 == lower@);
                            }
                        }
                    }
                    seen.insert(lower, (name.clone(), p.start_time));
                    assert(seen.pairs().map_values(|e: (Seq<char>, (String, u64))| (e.0, (e.1.0@, e.1.1)))
                        =~= sv.push(entry_of(*p)));
                },
            }
        }
        i = i + 1;
    }
    assert(procs@.take(procs@.len() as int) =~= procs@);
    let ghost dv = seen.pairs().map_values(|e: (Seq<char>, (String, u64))| (e.0, (e.1.0@, e.1.1)));
    let values = seen.into_values();
    assert(values@.map_values(|e: (String, u64)| (e.0@, e.1)) =~= dv.map_values(|e: (Seq<char>, (Seq<char>, u64))| e.1));
    let sorted = sort_latest_first(values);
    let ghost sv = sorted@.map_values(|e: (String, u64)| (e.0@, e.1));
    let mut names: Vec<String> = Vec::new();
    let mut j: usize = 0;
    let total = sorted.len();
    let mut rest = sorted;
    while rest.len() > 0
        invariant
            total == sv.len(),
            j + rest@.len() == sv.len(),
            rest@.map_values(|e: (String, u64)| (e.0@, e.1)) =~= sv.subrange(j as int, sv.len() as int),
            names@.map_values(|s: String| s@) =~= sv.subrange(0, j as int).map_values(|e: (Seq<char>, u64)| e.0),
        decreases rest@.len(),
    {
        let ghost before = rest@;
        let e = rest.remove(0);
        proof {
            assert(rest@ =~= before.subrange(1, before.len() as int));
            let rb = before.map_values(|e: (String, u64)| (e.0@, e.1));
            assert(rb =~= sv.subrange(j as int, sv.len() as int));
            assert(rb[0] == sv[j as int]);
            let rv = rest@.map_values(|e: (String, u64)| (e.0@, e.1));
            assert forall|k: int| 0 <= k < rv.len() implies #[trigger] rv[k] == sv[j + 1 + k] by {
                assert(rest@[k] == before[k + 1]);
                assert(rb[k + 1] == sv[j + k + 1]);
            }
        }
        let ghost nm = names@.map_values(|s: String| s@);
        let ghost ename = e.0@;
        assert(ename == sv[j as int].0);
        names.push(e.0);
        proof {
            assert(names@.map_values(|s: String| s@) =~= nm.push(ename));
            assert(sv.subrange(0, j + 1).map_values(|e: (Seq<char>, u64)| e.0)
                =~= sv.subrange(0, j as int).map_values(|e: (Seq<char>, u64)| e.0).push(sv[j as int].0));
        }
        j = j + 1;
    }
    assert(sv.subrange(0, sv.len() as int) =~= sv);
    names
}

} // verus!

verus! {

proof fn lemma_latest_entries(procs: Seq<ProcessInfo>, wp: Option<Seq<char>>)
    ensures
        keys_distinct(latest_by_name(procs, wp)),
        forall|t: int| 0 <= t < latest_by_name(procs, wp).len() ==> {
            let e = #[trigger] latest_by_name(procs, wp)[t];
            &&& e.0 == str_lowercase(e.1.0)
            &&& (wp is Some ==> ends_with(e.0, exe_suffix()))
        },
    decreases procs.len(),
{
    if procs.len() > 0 {
        lemma_latest_entries(procs.drop_last(), wp);
        let d = latest_by_name(procs.drop_last(), wp);
        let p = procs.last();
        if offered(p, wp) {
            let e = entry_of(p);
            if has_key(d, e.0) {
                let i = key_index_of(d, e.0);
                if e.1.1 > d[i].1.1 {
                    let r = d.update(i, e);
                    assert forall|x: int, y: int| 0 <= x < r.len() && 0 <= y < r.len() && x != y implies #[trigger] r[x].0 != #[trigger] r[y].0 by {
                        assert(r[x].0 == d[x].0 && r[y].0 == d[y].0);
                    }
                }
            } else {
                let r = d.push(e);
                assert forall|x: int, y: int| 0 <= x < r.len() && 0 <= y < r.len() && x != y implies #[trigger] r[x].0 != #[trigger] r[y].0 by {
                    if x < d.len() && y < d.len() {
                    } else if x < d.len() {
                        assert(r[x].0 == d[x].0);
                    } else {
                        assert(r[y].0 == d[y].0);
                    }
                }
            }
        }
    }
}

/// The offered list never names one executable twice: the lowercased names
/// are pairwise distinct.  On Windows every lowercased name ends in `.exe`.
pub proof fn lemma_offered_names_unique(procs: Seq<ProcessInfo>, wp: Option<Seq<char>>)
    ensures
        forall|i: int, j: int| 0 <= i < offered_names(procs, wp).len() && 0 <= j < offered_names(procs, wp).len() && i != j
            ==> str_lowercase(#[trigger] offered_names(procs, wp)[i]) != str_lowercase(#[trigger] offered_names(procs, wp)[j]),
        wp is Some ==> forall|i: int| 0 <= i < offered_names(procs, wp).len()
            ==> ends_with(str_lowercase(#[trigger] offered_names(procs, wp)[i]), exe_suffix()),
{
    lemma_latest_entries(procs, wp);
    let d = latest_by_name(procs, wp);
    let vs = d.map_values(|e: (Seq<char>, (Seq<char>, u64))| e.1);
    let srt = sort_by_key(vs, latest_first());
    let names = offered_names(procs, wp);
    lemma_sort_multiset(vs, latest_first());
    assert forall|t: int| 0 <= t < vs.len() implies str_lowercase((#[trigger] vs[t]).0) == d[t].0 by {
        assert(vs[t] == d[t].1);
    }
    assert(vs.no_duplicates()) by {
        assert forall|x: int, y: int| 0 <= x < vs.len() && 0 <= y < vs.len() && x != y implies vs[x] != vs[y] by {
            assert(str_lowercase(vs[x].0) == d[x].0);
            assert(str_lowercase(vs[y].0) == d[y].0);
        }
    }
    vs.lemma_multiset_has_no_duplicates();
    srt.lemma_multiset_has_no_duplicates_conv();
    assert forall|i: int| 0 <= i < srt.len() implies exists|t: int| 0 <= t < vs.len() && #[trigger] vs[t] == #[trigger] srt[i] by {
        lemma_sort_contains(vs, latest_first(), i);
    }
    assert forall|i: int, j: int| 0 <= i < names.len() && 0 <= j < names.len() && i != j
        implies str_lowercase(#[trigger] names[i]) != str_lowercase(#[trigger] names[j]) by {
        let p = choose|t: int| 0 <= t < vs.len() && #[trigger] vs[t] == srt[i];
        let q = choose|t: int| 0 <= t < vs.len() && #[trigger] vs[t] == srt[j];
        assert(names[i] == srt[i].0 && names[j] == srt[j].0);
        assert(srt[i] != srt[j]);
        assert(p != q);
        assert(d[p].0 != d[q].0);
    }
    if wp is Some {
        assert forall|i: int| 0 <= i < names.len() implies ends_with(str_lowercase(#[trigger] names[i]), exe_suffix()) by {
            let p = choose|t: int| 0 <= t < vs.len() && #[trigger] vs[t] == srt[i];
            assert(names[i] == srt[i].0);
            assert(d[p].0 == str_lowercase(vs[p].0));
        }
    }
}

} // verus!

verus! {

#[verifier::external_type_specification]
#[verifier::external_body]
pub struct ExSystem(sysinfo::System);

/// The process table loaded in a `sysinfo::System` (its `processes` map),
/// each process as its UTF-8 name, lossy executable path and start time.
pub uninterp spec fn loaded_processes(sys: sysinfo::System) -> Multiset<(Option<Seq<char>>, Option<Seq<char>>, u64)>;

/// A process as the table entry it stands for: name and executable path
/// by their views, and the start time.
pub open spec fn process_view(p: ProcessInfo) -> (Option<Seq<char>>, Option<Seq<char>>, u64) {
    (
        match p.name { Some(n) => Some(n@), None => None },
        match p.exe { Some(e) => Some(e@), None => None },
        p.start_time,
    )
}

/// The table entries a snapshot holds, in no order.
pub open spec fn snapshot_contents(procs: Seq<ProcessInfo>) -> Multiset<(Option<Seq<char>>, Option<Seq<char>>, u64)> {
    procs.map_values(|p: ProcessInfo| process_view(p)).to_multiset()
}

/// A table entry has a UTF-8 name naming `executable`.
pub open spec fn entry_runs(v: (Option<Seq<char>>, Option<Seq<char>>, u64), executable: Seq<char>) -> bool {
    match v.0 {
        Some(n) => exe_key(n) == exe_key(executable),
        None => false,
    }
}

/// Some entry of the table runs `executable`.
pub open spec fn table_runs(table: Multiset<(Option<Seq<char>>, Option<Seq<char>>, u64)>, executable: Seq<char>) -> bool {
    exists|v: (Option<Seq<char>>, Option<Seq<char>>, u64)| #[trigger] table.count(v) > 0 && entry_runs(v, executable)
}

/// A snapshot runs `executable` exactly when the entries it holds do.
pub proof fn lemma_snapshot_runs_table(procs: Seq<ProcessInfo>, executable: Seq<char>)
    ensures
        runs_executable(procs, executable) == table_runs(snapshot_contents(procs), executable),
{
    let vs = procs.map_values(|p: ProcessInfo| process_view(p));
    vs.to_multiset_ensures();
    if runs_executable(procs, executable) {
        let i = choose|i: int| 0 <= i < procs.len() && process_runs(#[trigger] procs[i], executable);
        assert(vs[i] == process_view(procs[i]));
        assert(vs.contains(vs[i]));
        assert(snapshot_contents(procs).count(vs[i]) > 0);
        assert(entry_runs(vs[i], executable));
    }
    if table_runs(snapshot_contents(procs), executable) {
        let v = choose|v: (Option<Seq<char>>, Option<Seq<char>>, u64)|
            #[trigger] snapshot_contents(procs).count(v) > 0 && entry_runs(v, executable);
        assert(vs.contains(v));
        let j = choose|j: int| 0 <= j < vs.len() && vs[j] == v;
        assert(vs[j] == process_view(procs[j]));
        assert(process_runs(procs[j], executable));
    }
}

/// An entry of a process table runs a target exactly when it has a name
/// whose key equals the target's key (whole names, not a suffix).
pub proof fn lemma_table_runs_whole_name(
    table: Multiset<(Option<Seq<char>>, Option<Seq<char>>, u64)>,
    executable: Seq<char>,
)
    ensures
        table_runs(table, executable) <==> exists|v: (Option<Seq<char>>, Option<Seq<char>>, u64)|
            #[trigger] table.count(v) > 0 && v.0 is Some && exe_key(v.0.unwrap()) == exe_key(executable),
{
    if table_runs(table, executable) {
        let v = choose|v: (Option<Seq<char>>, Option<Seq<char>>, u64)| #[trigger] table.count(v) > 0 && entry_runs(v, executable);
        assert(v.0 is Some && exe_key(v.0.unwrap()) == exe_key(executable));
    }
    if exists|v: (Option<Seq<char>>, Option<Seq<char>>, u64)|
        #[trigger] table.count(v) > 0 && v.0 is Some && exe_key(v.0.unwrap()) == exe_key(executable) {
        let v = choose|v: (Option<Seq<char>>, Option<Seq<char>>, u64)|
            #[trigger] table.count(v) > 0 && v.0 is Some && exe_key(v.0.unwrap()) == exe_key(executable);
        assert(entry_runs(v, executable));
    }
}

/// Targets that agree once lowercased and stripped of `.exe` are run by the
/// same entries of any process table.
pub proof fn lemma_table_runs_by_exe_key(
    table: Multiset<(Option<Seq<char>>, Option<Seq<char>>, u64)>,
    a: Seq<char>,
    b: Seq<char>,
)
    requires
        exe_key(a) == exe_key(b),
    ensures
        table_runs(table, a) == table_runs(table, b),
{
    if table_runs(table, a) {
        let v = choose|v: (Option<Seq<char>>, Option<Seq<char>>, u64)| #[trigger] table.count(v) > 0 && entry_runs(v, a);
        assert(entry_runs(v, b));
    }
    if table_runs(table, b) {
        let v = choose|v: (Option<Seq<char>>, Option<Seq<char>>, u64)| #[trigger] table.count(v) > 0 && entry_runs(v, b);
        assert(entry_runs(v, a));
    }
}

proof fn lemma_lowercase_keeps_exe_ending(s: Seq<char>)
    ensures
        ends_with_exe(ascii_lowercase(s)) == ends_with_exe(s),
{
    let l = ascii_lowercase(s);
    if s.len() >= 4 {
        let n = s.len();
        let ss = s.subrange(n - 4, n as int);
        let ls = l.subrange(n - 4, n as int);
        assert forall|i: int| 0 <= i < 4 implies ascii_lower(#[trigger] ls[i]) == ascii_lower(ss[i]) by {
            assert(ls[i] == ascii_lower(ss[i]));
        }
        if ends_with_exe(s) {
            assert forall|i: int| 0 <= i < ls.len() implies ascii_lower(#[trigger] ls[i]) == ascii_lower(exe_suffix()[i]) by {
                assert(ascii_lower(ss[i]) == ascii_lower(exe_suffix()[i]));
            }
        }
        if ends_with_exe(l) {
            assert forall|i: int| 0 <= i < ss.len() implies ascii_lower(#[trigger] ss[i]) == ascii_lower(exe_suffix()[i]) by {
                assert(ascii_lower(ls[i]) == ascii_lower(exe_suffix()[i]));
            }
        }
    }
}

/// The key of an ASCII target that ends in `.exe` in no case: the target
/// lowercased.
proof fn lemma_ascii_exe_key(s: Seq<char>)
    requires
        is_ascii_text(s),
        !ends_with_exe(s),
    ensures
        exe_key(s) == ascii_lowercase(s),
{
    lemma_lowercase_keeps_exe_ending(s);
}

/// The key of an ASCII target followed by a `.exe` suffix: the target
/// lowercased, without the suffix.
proof fn lemma_ascii_exe_key_with_suffix(s: Seq<char>, suffix: Seq<char>)
    requires
        is_ascii_text(s),
        suffix.len() == 4,
        eq_ascii_ci(suffix, exe_suffix()),
        is_ascii_text(suffix),
    ensures
        exe_key(s + suffix) == ascii_lowercase(s),
{
    let t = s + suffix;
    assert(is_ascii_text(t)) by {
        assert forall|i: int| 0 <= i < t.len() implies (#[trigger] t[i] as u32) < 128 by {
            if i < s.len() {
                assert(t[i] == s[i]);
            } else {
                assert(t[i] == suffix[i - s.len()]);
            }
        }
    }
    let l = ascii_lowercase(t);
    let n = t.len();
    assert(t.subrange(n - 4, n as int) =~= suffix);
    assert(ends_with_exe(t));
    lemma_lowercase_keeps_exe_ending(t);
    assert(l.subrange(0, n - 4) =~= ascii_lowercase(s));
}

/// Matching ignores ASCII case and a `.exe` suffix: for an ASCII target
/// that does not end in `.exe`, the target in upper case, the target with
/// `.exe` and the upper-case target with `.EXE` are run by exactly the same
/// entries of any process table as the target itself.
pub proof fn lemma_ascii_target_variants(
    table: Multiset<(Option<Seq<char>>, Option<Seq<char>>, u64)>,
    s: Seq<char>,
)
    requires
        is_ascii_text(s),
        !ends_with_exe(s),
    ensures
        table_runs(table, ascii_uppercase(s)) == table_runs(table, s),
        table_runs(table, s + exe_suffix()) == table_runs(table, s),
        table_runs(table, ascii_uppercase(s) + seq!['.', 'E', 'X', 'E']) == table_runs(table, s),
{
    let u = ascii_uppercase(s);
    assert(is_ascii_text(u)) by {
        assert forall|i: int| 0 <= i < u.len() implies (#[trigger] u[i] as u32) < 128 by {
            assert(u[i] == ascii_upper(s[i]));
            assert((s[i] as u32) < 128);
        }
    }
    assert(ascii_lowercase(u) =~= ascii_lowercase(s)) by {
        assert forall|i: int| 0 <= i < s.len() implies #[trigger] ascii_lowercase(u)[i] == ascii_lowercase(s)[i] by {
            assert(u[i] == ascii_upper(s[i]));
        }
    }
    lemma_ascii_exe_key(s);
    lemma_lowercase_keeps_exe_ending(u);
    lemma_lowercase_keeps_exe_ending(s);
    assert(!ends_with_exe(u));
    lemma_ascii_exe_key(u);
    lemma_table_runs_by_exe_key(table, u, s);
    let lower_suffix = exe_suffix();
    let upper_suffix = seq!['.', 'E', 'X', 'E'];
    assert(eq_ascii_ci(lower_suffix, exe_suffix()));
    assert(eq_ascii_ci(upper_suffix, exe_suffix())) by {
        assert forall|i: int| 0 <= i < upper_suffix.len() implies ascii_lower(#[trigger] upper_suffix[i]) == ascii_lower(exe_suffix()[i]) by {
            if i == 0 {
            } else if i == 1 {
            } else if i == 2 {
            } else {
                assert(i == 3);
            }
        }
    }
    assert(is_ascii_text(lower_suffix)) by {
        assert forall|i: int| 0 <= i < lower_suffix.len() implies (#[trigger] lower_suffix[i] as u32) < 128 by {
            if i == 0 {} else if i == 1 {} else if i == 2 {} else { assert(i == 3); }
        }
    }
    assert(is_ascii_text(upper_suffix)) by {
        assert forall|i: int| 0 <= i < upper_suffix.len() implies (#[trigger] upper_suffix[i] as u32) < 128 by {
            if i == 0 {} else if i == 1 {} else if i == 2 {} else { assert(i == 3); }
        }
    }
    lemma_ascii_exe_key_with_suffix(s, lower_suffix);
    lemma_ascii_exe_key_with_suffix(u, upper_suffix);
    lemma_table_runs_by_exe_key(table, s + exe_suffix(), s);
    lemma_table_runs_by_exe_key(table, u + upper_suffix, s);
}

/// Creates an empty `sysinfo::System` (`System::new`, which loads nothing,
/// so its process table is empty).
#[verifier::external_body]
fn new_system() -> (s: sysinfo::System)
    ensures
        loaded_processes(s) == Multiset::<(Option<Seq<char>>, Option<Seq<char>>, u64)>::empty(),
{
    sysinfo::System::new()
}

/// Reloads every process of the machine into the system
/// (`System::refresh_processes(ProcessesToUpdate::All, true)`).  What the
/// machine runs is not stated, so nothing is said of the table afterwards.
#[verifier::external_body]
fn refresh_system(sys: &mut sysinfo::System) {
    sys.refresh_processes(sysinfo::ProcessesToUpdate::All, true);
}

/// The processes loaded in the system (`System::processes`), each as its
/// UTF-8 name (`Process::name`), lossy executable path (`Process::exe`) and
/// start time (`Process::start_time`): exactly the loaded table, in the
/// order of sysinfo's map, which is not stated.
#[verifier::external_body]
fn process_snapshot(sys: &sysinfo::System) -> (v: Vec<ProcessInfo>)
    ensures
        snapshot_contents(v@) == loaded_processes(*sys),
{
    sys.processes()
        .values()
        .map(|p| ProcessInfo {
            name: p.name().to_str().map(|s| s.to_string()),
            exe: p.exe().map(|e| e.to_string_lossy().into_owned()),
            start_time: p.start_time(),
        })
        .collect()
}

/// Watches the machine's processes through a sysinfo snapshot.
pub struct ProcessMonitor {
    sys: sysinfo::System,
}

impl ProcessMonitor {
    /// The process table the monitor last loaded.
    pub closed spec fn processes(&self) -> Multiset<(Option<Seq<char>>, Option<Seq<char>>, u64)> {
        loaded_processes(self.sys)
    }

    /// A monitor with an empty snapshot.
    pub fn new() -> (m: Self)
        ensures
            m.processes() == Multiset::<(Option<Seq<char>>, Option<Seq<char>>, u64)>::empty(),
    {
        ProcessMonitor { sys: new_system() }
    }

    /// Reloads the snapshot once; call before a batch of
    /// `is_running_cached` checks.
    pub fn refresh(&mut self) {
        refresh_system(&mut self.sys);
    }

    /// Reloads the snapshot, then tells whether `executable_name` runs.
    pub fn is_running(&mut self, executable_name: &str) -> (r: bool)
        ensures
            r == table_runs(final(self).processes(), executable_name@),
    {
        self.refresh();
        self.is_running_cached(executable_name)
    }

    /// Whether the current snapshot holds a process of `executable_name`
    /// (case-insensitive, with or without `.exe`); see `snapshot_runs`.
    pub fn is_running_cached(&self, executable_name: &str) -> (r: bool)
        ensures
            r == table_runs(self.processes(), executable_name@),
            r <==> exists|v: (Option<Seq<char>>, Option<Seq<char>>, u64)| #[trigger] self.processes().count(v) > 0
                && v.0 is Some && exe_key(v.0.unwrap()) == exe_key(executable_name@),
    {
        let procs = process_snapshot(&self.sys);
        let r = snapshot_runs(procs.as_slice(), executable_name);
        proof {
            lemma_snapshot_runs_table(procs@, executable_name@);
            lemma_table_runs_whole_name(self.processes(), executable_name@);
        }
        r
    }

    /// Reloads the snapshot and lists the running processes a user may pick
    /// as a game, most recently started first; on Windows only user `.exe`
    /// processes outside the Windows directory (`windir` is the `WINDIR`
    /// setting, if any); see `select_offered`.  The list is that of some
    /// ordering of the reloaded table.
    pub fn list_processes(&mut self, on_windows: bool, windir: Option<&str>) -> (names: Vec<String>)
        ensures
            exists|procs: Seq<ProcessInfo>|
                #[trigger] snapshot_contents(procs) == final(self).processes()
                && names@.map_values(|s: String| s@) == offered_names(
                    procs,
                    if on_windows {
                        Some(windir_prefix_of(match windir { Some(w) => Some(w@), None => None }))
                    } else {
                        None
                    },
                ),
    {
        self.refresh();
        let prefix = if on_windows {
            Some(windir_prefix(windir))
        } else {
            None
        };
        let procs = process_snapshot(&self.sys);
        let names = select_offered(procs.as_slice(), &prefix);
        assert(snapshot_contents(procs@) == self.processes());
        names
    }
}

} // verus!
