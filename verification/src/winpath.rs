//! What the installer does to the user's `PATH` value and to its own
//! executable path: decoding and encoding registry strings, adding and
//! removing the install directory, and the decisions around them.

use vstd::prelude::*;
use crate::text::{str_trim, eq_ascii_ci, trim_end_char, remove_char, starts_with, trim, chars_of, string_of, trim_end_matches, eq_ignore_ascii_case, starts_with_chars};

verus! {

/// The parts of `s` between the separators, as `str::split` yields them.
pub open spec fn split_on(s: Seq<char>, sep: char) -> Seq<Seq<char>>
    decreases s.len(),
{
    if s.len() == 0 {
        seq![Seq::empty()]
    } else {
        let prev = split_on(s.drop_last(), sep);
        if s.last() == sep {
            prev.push(Seq::empty())
        } else {
            prev.update(prev.len() - 1, prev.last().push(s.last()))
        }
    }
}

/// The parts joined with the separator between them (`slice::join`).
pub open spec fn join_with(parts: Seq<Seq<char>>, sep: char) -> Seq<char>
    decreases parts.len(),
{
    if parts.len() == 0 {
        Seq::empty()
    } else if parts.len() == 1 {
        parts[0]
    } else {
        join_with(parts.drop_last(), sep).push(sep) + parts.last()
    }
}

/// A `PATH` entry stays when, without trailing backslashes, it is neither
/// empty nor (ignoring ASCII case) the install directory.
pub open spec fn keeps_entry(entry: Seq<char>, dir: Seq<char>) -> bool {
    trim_end_char(entry, '\\').len() > 0 && !eq_ascii_ci(trim_end_char(entry, '\\'), dir)
}

/// The trimmed `PATH` entries that stay, in order.
pub open spec fn kept_entries(parts: Seq<Seq<char>>, dir: Seq<char>) -> Seq<Seq<char>>
    decreases parts.len(),
{
    if parts.len() == 0 {
        Seq::empty()
    } else {
        let prev = kept_entries(parts.drop_last(), dir);
        let t = str_trim(parts.last());
        if keeps_entry(t, dir) {
            prev.push(t)
        } else {
            prev
        }
    }
}

/// Some entry names the directory, ignoring trailing backslashes and ASCII
/// case.
pub open spec fn names_dir(parts: Seq<Seq<char>>, dir: Seq<char>) -> bool {
    exists|i: int| 0 <= i < parts.len() && eq_ascii_ci(trim_end_char(#[trigger] parts[i], '\\'), dir)
}

/// The `PATH` value with the install directory added once at the end
/// (without trailing backslashes), all other entries trimmed and kept in
/// order, empty entries dropped.
pub open spec fn path_with_dir(current: Seq<char>, dir: Seq<char>) -> Seq<char> {
    let nd = trim_end_char(dir, '\\');
    let parts = kept_entries(split_on(current, ';'), nd);
    join_with(if names_dir(parts, nd) { parts } else { parts.push(nd) }, ';')
}

/// The `PATH` value without the install directory, other entries trimmed,
/// empty entries dropped.
pub open spec fn path_without_dir(current: Seq<char>, dir: Seq<char>) -> Seq<char> {
    join_with(kept_entries(split_on(current, ';'), trim_end_char(dir, '\\')), ';')
}

/// The entries trimmed and without trailing backslashes, empty ones dropped.
pub open spec fn cleaned_entries(parts: Seq<Seq<char>>) -> Seq<Seq<char>>
    decreases parts.len(),
{
    if parts.len() == 0 {
        Seq::empty()
    } else {
        let prev = cleaned_entries(parts.drop_last());
        let t = trim_end_char(str_trim(parts.last()), '\\');
        if t.len() > 0 {
            prev.push(t)
        } else {
            prev
        }
    }
}

/// The `PATH` value as it would be rewritten without any change of entries,
/// used to tell whether removing the directory changed anything.
pub open spec fn path_cleaned(current: Seq<char>) -> Seq<char> {
    join_with(cleaned_entries(split_on(current, ';')), ';')
}

/// Splitting at a separator loses and invents nothing: joining the parts
/// with the separator gives the text back, and no part holds the separator,
/// so the text is cut at its separators and nowhere else (a space inside a
/// `PATH` entry stays in that entry).
pub proof fn lemma_split_join(s: Seq<char>, sep: char)
    ensures
        split_on(s, sep).len() >= 1,
        join_with(split_on(s, sep), sep) == s,
        forall|i: int| 0 <= i < split_on(s, sep).len() ==> !(#[trigger] split_on(s, sep)[i]).contains(sep),
    decreases s.len(),
{
    if s.len() == 0 {
        assert(split_on(s, sep) =~= seq![Seq::<char>::empty()]);
        assert(join_with(split_on(s, sep), sep) =~= s);
    } else {
        let d = s.drop_last();
        let c = s.last();
        lemma_split_join(d, sep);
        let p = split_on(d, sep);
        let q = split_on(s, sep);
        if c == sep {
            assert(q == p.push(Seq::<char>::empty()));
            assert(q.drop_last() =~= p);
            assert(q.last() =~= Seq::<char>::empty());
            assert(join_with(q, sep) =~= join_with(p, sep).push(sep) + Seq::<char>::empty());
            assert(join_with(q, sep) =~= s);
            assert forall|i: int| 0 <= i < q.len() implies !(#[trigger] q[i]).contains(sep) by {
                if i < p.len() {
                    assert(q[i] == p[i]);
                } else {
                    assert(q[i] =~= Seq::<char>::empty());
                }
            }
        } else {
            let n = p.len();
            assert(q == p.update(n - 1, p.last().push(c)));
            if n == 1 {
                assert(join_with(p, sep) == p[0]);
                assert(join_with(q, sep) == q[0]);
                assert(q[0] =~= p[0].push(c));
                assert(join_with(q, sep) =~= s);
            } else {
                assert(q.drop_last() =~= p.drop_last());
                assert(q.last() == p.last().push(c));
                assert(join_with(p, sep) == join_with(p.drop_last(), sep).push(sep) + p.last());
                assert(join_with(q, sep) == join_with(q.drop_last(), sep).push(sep) + q.last());
                assert(join_with(q, sep) =~= (join_with(p.drop_last(), sep).push(sep) + p.last()).push(c));
                assert(join_with(q, sep) =~= s);
            }
            assert forall|i: int| 0 <= i < q.len() implies !(#[trigger] q[i]).contains(sep) by {
                if i < n - 1 {
                    assert(q[i] == p[i]);
                } else {
                    let e = p.last().push(c);
                    assert(q[i] == e);
                    assert(!p[n - 1].contains(sep));
                    if e.contains(sep) {
                        let j = choose|j: int| 0 <= j < e.len() && e[j] == sep;
                        if j < e.len() - 1 {
                            assert(p[n - 1][j] == sep);
                        }
                    }
                }
            }
        }
    }
}

fn split_chars(s: &[char], sep: char) -> (parts: Vec<Vec<char>>)
    ensures
        parts@.map_values(|p: Vec<char>| p@) == split_on(s@, sep),
        parts@.len() >= 1,
{
    let mut parts: Vec<Vec<char>> = Vec::new();
    let mut cur: Vec<char> = Vec::new();
    let mut i: usize = 0;
    assert(s@.take(0) =~= Seq::<char>::empty());
    while i < s.len()
        invariant
            i <= s@.len(),
            parts@.map_values(|p: Vec<char>| p@).push(cur@) == split_on(s@.take(i as int), sep),
        decreases s@.len() - i,
    {
        let c = s[i];
        let ghost pv = parts@.map_values(|p: Vec<char>| p@);
        let ghost cv = cur@;
        proof {
            assert(s@.take(i + 1).drop_last() =~= s@.take(i as int));
            assert(s@.take(i + 1).last() == c);
        }
        if c == sep {
            let mut done: Vec<char> = Vec::new();
            std::mem::swap(&mut done, &mut cur);
            parts.push(done);
            assert(parts@.map_values(|p: Vec<char>| p@).push(cur@) =~= pv.push(cv).push(Seq::empty()));
        } else {
            cur.push(c);
            assert(parts@.map_values(|p: Vec<char>| p@).push(cur@) =~= pv.push(cv).update(pv.len() as int, cv.push(c)));
        }
        i = i + 1;
    }
    assert(s@.take(s@.len() as int) =~= s@);
    let ghost pv = parts@.map_values(|p: Vec<char>| p@);
    parts.push(cur);
    assert(parts@.map_values(|p: Vec<char>| p@) =~= pv.push(parts@.last()@));
    parts
}

fn join_chars(parts: &Vec<Vec<char>>, sep: char) -> (s: Vec<char>)
    ensures
        s@ == join_with(parts@.map_values(|p: Vec<char>| p@), sep),
{
    let ghost pv = parts@.map_values(|p: Vec<char>| p@);
    let mut out: Vec<char> = Vec::new();
    let mut i: usize = 0;
    assert(pv.take(0) =~= Seq::<Seq<char>>::empty());
    while i < parts.len()
        invariant
            i <= parts@.len(),
            pv == parts@.map_values(|p: Vec<char>| p@),
            out@ == join_with(pv.take(i as int), sep),
        decreases parts@.len() - i,
    {
        proof {
            assert(pv.take(i + 1).drop_last() =~= pv.take(i as int));
            assert(pv.take(i + 1).last() == parts@[i as int]@);
        }
        if i > 0 {
            out.push(sep);
        }
        let ghost before = out@;
        let p = &parts[i];
        let mut j: usize = 0;
        while j < p.len()
            invariant
                j <= p@.len(),
                out@ =~= before + p@.subrange(0, j as int),
            decreases p@.len() - j,
        {
            out.push(p[j]);
            j = j + 1;
        }
        proof {
            assert(p@.subrange(0, p@.len() as int) =~= p@);
            if i == 0 {
                assert(pv.take(1) =~= seq![p@]);
                assert(before =~= Seq::<char>::empty());
                assert(out@ =~= p@);
            }
        }
        i = i + 1;
    }
    assert(pv.take(parts@.len() as int) =~= pv);
    out
}

fn trim_chars(p: &Vec<char>) -> (t: Vec<char>)
    ensures
        t@ == str_trim(p@),
{
    let s = string_of(p.as_slice());
    let t = trim(s.as_str());
    chars_of(t.as_str())
}

fn kept_parts(parts: &Vec<Vec<char>>, dir: &[char]) -> (kept: Vec<Vec<char>>)
    ensures
        kept@.map_values(|p: Vec<char>| p@) == kept_entries(parts@.map_values(|p: Vec<char>| p@), dir@),
{
    let ghost pv = parts@.map_values(|p: Vec<char>| p@);
    let mut kept: Vec<Vec<char>> = Vec::new();
    let mut i: usize = 0;
    assert(pv.take(0) =~= Seq::<Seq<char>>::empty());
    while i < parts.len()
        invariant
            i <= parts@.len(),
            pv == parts@.map_values(|p: Vec<char>| p@),
            kept@.map_values(|p: Vec<char>| p@) == kept_entries(pv.take(i as int), dir@),
        decreases parts@.len() - i,
    {
        proof {
            assert(pv.take(i + 1).drop_last() =~= pv.take(i as int));
            assert(pv.take(i + 1).last() == parts@[i as int]@);
        }
        let t = trim_chars(&parts[i]);
        let te = trim_end_matches(t.as_slice(), '\\');
        if te.len() > 0 && !eq_ignore_ascii_case(te.as_slice(), dir) {
            let ghost kv = kept@.map_values(|p: Vec<char>| p@);
            let ghost tv = t@;
            kept.push(t);
            assert(kept@.map_values(|p: Vec<char>| p@) =~= kv.push(tv));
        }
        i = i + 1;
    }
    assert(pv.take(parts@.len() as int) =~= pv);
    kept
}

fn any_names_dir(parts: &Vec<Vec<char>>, dir: &[char]) -> (r: bool)
    ensures
        r == names_dir(parts@.map_values(|p: Vec<char>| p@), dir@),
{
    let ghost pv = parts@.map_values(|p: Vec<char>| p@);
    let mut i: usize = 0;
    while i < parts.len()
        invariant
            i <= parts@.len(),
            pv == parts@.map_values(|p: Vec<char>| p@),
            forall|j: int| 0 <= j < i ==> !eq_ascii_ci(trim_end_char(#[trigger] pv[j], '\\'), dir@),
        decreases parts@.len() - i,
    {
        let te = trim_end_matches(parts[i].as_slice(), '\\');
        if eq_ignore_ascii_case(te.as_slice(), dir) {
            assert(pv[i as int] == parts@[i as int]@);
            return true;
        }
        assert(pv[i as int] == parts@[i as int]@);
        i = i + 1;
    }
    false
}

/// The `PATH` value with the install directory added (see
/// `path_with_dir`).
pub fn add_dir_to_path(current: &str, dir: &str) -> (r: String)
    ensures
        r@ == path_with_dir(current@, dir@),
{
    let dcs = chars_of(dir);
    let nd = trim_end_matches(dcs.as_slice(), '\\');
    let ccs = chars_of(current);
    let parts = split_chars(ccs.as_slice(), ';');
    let mut kept = kept_parts(&parts, nd.as_slice());
    if !any_names_dir(&kept, nd.as_slice()) {
        let ghost kv = kept@.map_values(|p: Vec<char>| p@);
        let ghost ndv = nd@;
        kept.push(nd);
        assert(kept@.map_values(|p: Vec<char>| p@) =~= kv.push(ndv));
    }
    let joined = join_chars(&kept, ';');
    string_of(joined.as_slice())
}

fn cleaned_parts(parts: &Vec<Vec<char>>) -> (out: Vec<Vec<char>>)
    ensures
        out@.map_values(|p: Vec<char>| p@) == cleaned_entries(parts@.map_values(|p: Vec<char>| p@)),
{
    let ghost pv = parts@.map_values(|p: Vec<char>| p@);
    let mut out: Vec<Vec<char>> = Vec::new();
    let mut i: usize = 0;
    assert(pv.take(0) =~= Seq::<Seq<char>>::empty());
    while i < parts.len()
        invariant
            i <= parts@.len(),
            pv == parts@.map_values(|p: Vec<char>| p@),
            out@.map_values(|p: Vec<char>| p@) == cleaned_entries(pv.take(i as int)),
        decreases parts@.len() - i,
    {
        proof {
            assert(pv.take(i + 1).drop_last() =~= pv.take(i as int));
            assert(pv.take(i + 1).last() == parts@[i as int]@);
        }
        let t = trim_chars(&parts[i]);
        let te = trim_end_matches(t.as_slice(), '\\');
        if te.len() > 0 {
            let ghost ov = out@.map_values(|p: Vec<char>| p@);
            let ghost tv = te@;
            out.push(te);
            assert(out@.map_values(|p: Vec<char>| p@) =~= ov.push(tv));
        }
        i = i + 1;
    }
    assert(pv.take(parts@.len() as int) =~= pv);
    out
}

/// The `PATH` value to write after removing the install directory, or none
/// when removing it changes nothing (compared with the value rewritten
/// without any change).
pub fn remove_dir_from_path(current: &str, dir: &str) -> (r: Option<String>)
    ensures
        match r {
            Some(p) => p@ == path_without_dir(current@, dir@) && path_without_dir(current@, dir@) != path_cleaned(current@),
            None => path_without_dir(current@, dir@) == path_cleaned(current@),
        },
{
    let dcs = chars_of(dir);
    let nd = trim_end_matches(dcs.as_slice(), '\\');
    let ccs = chars_of(current);
    let parts = split_chars(ccs.as_slice(), ';');
    let kept = kept_parts(&parts, nd.as_slice());
    let new_path = join_chars(&kept, ';');
    let cleaned = cleaned_parts(&parts);
    let cleaned_path = join_chars(&cleaned, ';');
    if chars_equal(new_path.as_slice(), cleaned_path.as_slice()) {
        None
    } else {
        Some(string_of(new_path.as_slice()))
    }
}

fn chars_equal(a: &[char], b: &[char]) -> (r: bool)
    ensures
        r == (a@ == b@),
{
    if a.len() != b.len() {
        return false;
    }
    let mut i: usize = 0;
    while i < a.len()
        invariant
            a@.len() == b@.len(),
            i <= a@.len(),
            forall|j: int| 0 <= j < i ==> a@[j] == b@[j],
        decreases a@.len() - i,
    {
        if a[i] != b[i] {
            return false;
        }
        i = i + 1;
    }
    assert(a@ =~= b@);
    true
}

proof fn lemma_kept_never_names_dir(parts: Seq<Seq<char>>, dir: Seq<char>)
    ensures
        forall|i: int| 0 <= i < kept_entries(parts, dir).len() ==> keeps_entry(#[trigger] kept_entries(parts, dir)[i], dir),
    decreases parts.len(),
{
    if parts.len() > 0 {
        lemma_kept_never_names_dir(parts.drop_last(), dir);
        let prev = kept_entries(parts.drop_last(), dir);
        assert forall|i: int| 0 <= i < kept_entries(parts, dir).len() implies keeps_entry(#[trigger] kept_entries(parts, dir)[i], dir) by {
            if i < prev.len() {
                assert(kept_entries(parts, dir)[i] == prev[i]);
            }
        }
    }
}

/// After installing, the install directory is named by exactly one `PATH`
/// entry, the last, and every other entry is kept only when it is not
/// empty and does not name the directory; after uninstalling, no entry
/// names it.  (Entries are compared without trailing backslashes, ignoring
/// ASCII case.)
pub proof fn lemma_path_names_dir_once(current: Seq<char>, dir: Seq<char>)
    ensures
        ({
            let nd = trim_end_char(dir, '\\');
            let kept = kept_entries(split_on(current, ';'), nd);
            &&& !names_dir(kept, nd)
            &&& path_with_dir(current, dir) == join_with(kept.push(nd), ';')
            &&& path_without_dir(current, dir) == join_with(kept, ';')
            &&& forall|i: int| 0 <= i < kept.len() ==> keeps_entry(#[trigger] kept[i], nd)
        }),
{
    let nd = trim_end_char(dir, '\\');
    let kept = kept_entries(split_on(current, ';'), nd);
    lemma_kept_never_names_dir(split_on(current, ';'), nd);
    if names_dir(kept, nd) {
        let i = choose|i: int| 0 <= i < kept.len() && eq_ascii_ci(trim_end_char(#[trigger] kept[i], '\\'), nd);
        assert(keeps_entry(kept[i], nd));
    }
}

/// UTF-16 code units read little-endian from byte pairs; a trailing odd
/// byte is ignored (`chunks_exact(2)` with `u16::from_le_bytes`).
pub open spec fn le_units(bytes: Seq<u8>) -> Seq<u16> {
    Seq::new(bytes.len() / 2, |i: int| (bytes[2 * i] + 256 * bytes[2 * i + 1]) as u16)
}

/// A UTF-16 code unit that opens a surrogate pair.
pub open spec fn is_high_surrogate(u: u16) -> bool {
    0xD800 <= u && u <= 0xDBFF
}

/// A UTF-16 code unit that closes a surrogate pair.
pub open spec fn is_low_surrogate(u: u16) -> bool {
    0xDC00 <= u && u <= 0xDFFF
}

/// UTF-16 decoding with replacement: a unit outside the surrogate range is
/// its own character, a high surrogate followed by a low one is the
/// character of the pair, and any other surrogate becomes U+FFFD, decoding
/// going on with the unit after it.
pub open spec fn utf16_lossy(units: Seq<u16>) -> Seq<char>
    decreases units.len(),
{
    if units.len() == 0 {
        Seq::empty()
    } else {
        let u = units[0];
        if is_high_surrogate(u) && units.len() >= 2 && is_low_surrogate(units[1]) {
            seq![(0x10000 + (u - 0xD800) * 0x400 + (units[1] - 0xDC00)) as char]
                + utf16_lossy(units.subrange(2, units.len() as int))
        } else if is_high_surrogate(u) || is_low_surrogate(u) {
            seq!['\u{FFFD}'] + utf16_lossy(units.subrange(1, units.len() as int))
        } else {
            seq![u as char] + utf16_lossy(units.subrange(1, units.len() as int))
        }
    }
}

/// Calls `String::from_utf16_lossy`, which decodes UTF-16 and replaces each
/// unpaired surrogate by U+FFFD (the standard library's documentation and
/// its example of a lone surrogate followed by a plain unit); the result is
/// `utf16_lossy` of the units.
#[verifier::external_body]
fn from_utf16_lossy(units: &[u16]) -> (s: String)
    ensures
        s@ == utf16_lossy(units@),
{
    String::from_utf16_lossy(units)
}

/// A registry string value as text: the little-endian UTF-16 decoded
/// lossily, trailing NULs trimmed and any other NUL removed.
pub open spec fn decoded_registry_text(bytes: Seq<u8>) -> Seq<char> {
    if bytes.len() == 0 {
        Seq::empty()
    } else {
        remove_char(trim_end_char(utf16_lossy(le_units(bytes)), '\0'), '\0')
    }
}

/// Decodes the bytes of a `REG_SZ` or `REG_EXPAND_SZ` value.
pub fn decode_registry_path_bytes(bytes: &[u8]) -> (s: String)
    ensures
        s@ == decoded_registry_text(bytes@),
{
    if bytes.len() == 0 {
        return string_of(&[]);
    }
    let blen = bytes.len();
    let n = blen / 2;
    let mut units: Vec<u16> = Vec::new();
    let mut i: usize = 0;
    assert(2 * n <= bytes@.len());
    while i < n
        invariant
            n == bytes@.len() / 2,
            blen == bytes@.len(),
            2 * n <= bytes@.len(),
            i <= n,
            units@ =~= le_units(bytes@).subrange(0, i as int),
        decreases n - i,
    {
        assert(2 * i + 1 < bytes@.len());
        let lo = bytes[2 * i] as u16;
        let hi = bytes[2 * i + 1] as u16;
        units.push(lo + 256 * hi);
        i = i + 1;
    }
    assert(le_units(bytes@).subrange(0, n as int) =~= le_units(bytes@));
    let text = from_utf16_lossy(units.as_slice());
    let cs = chars_of(text.as_str());
    let t = trim_end_matches(cs.as_slice(), '\0');
    let mut out: Vec<char> = Vec::new();
    let mut j: usize = 0;
    proof {
        reveal(Seq::filter);
        assert(t@.take(0) =~= Seq::<char>::empty());
        assert(remove_char(t@.take(0), '\0') =~= Seq::<char>::empty());
    }
    while j < t.len()
        invariant
            j <= t@.len(),
            out@ == remove_char(t@.take(j as int), '\0'),
        decreases t@.len() - j,
    {
        proof {
            reveal(Seq::filter);
            assert(t@.take(j + 1).drop_last() =~= t@.take(j as int));
            assert(t@.take(j + 1).last() == t@[j as int]);
        }
        if t[j] != '\0' {
            out.push(t[j]);
        }
        j = j + 1;
    }
    assert(t@.take(t@.len() as int) =~= t@);
    string_of(out.as_slice())
}

/// The UTF-16 code units of one character.
pub open spec fn utf16_of_char(c: char) -> Seq<u16> {
    let v = c as u32;
    if v < 0x10000 {
        seq![v as u16]
    } else {
        seq![(0xD800 + (v - 0x10000) / 0x400) as u16, (0xDC00 + (v - 0x10000) % 0x400) as u16]
    }
}

/// The UTF-16 code units of a text.
pub open spec fn utf16_of(s: Seq<char>) -> Seq<u16>
    decreases s.len(),
{
    if s.len() == 0 {
        Seq::empty()
    } else {
        utf16_of(s.drop_last()) + utf16_of_char(s.last())
    }
}

/// Code units as little-endian bytes.
pub open spec fn le_bytes(units: Seq<u16>) -> Seq<u8>
    decreases units.len(),
{
    if units.len() == 0 {
        Seq::empty()
    } else {
        le_bytes(units.drop_last()) + seq![(units.last() % 256) as u8, (units.last() / 256) as u8]
    }
}

/// The bytes of a registry string value holding `s`: UTF-16 with a
/// terminating NUL, little-endian.
pub open spec fn registry_bytes(s: Seq<char>) -> Seq<u8> {
    le_bytes(utf16_of(s).push(0))
}

fn push_unit(out: &mut Vec<u8>, u: u16)
    ensures
        final(out)@ == old(out)@ + seq![(u % 256) as u8, (u / 256) as u8],
{
    out.push((u % 256) as u8);
    out.push((u / 256) as u8);
    assert(out@ =~= old(out)@ + seq![(u % 256) as u8, (u / 256) as u8]);
}

proof fn lemma_le_bytes_append(a: Seq<u16>, b: Seq<u16>)
    ensures
        le_bytes(a + b) == le_bytes(a) + le_bytes(b),
    decreases b.len(),
{
    if b.len() == 0 {
        assert(a + b =~= a);
        assert(le_bytes(a) + le_bytes(b) =~= le_bytes(a));
    } else {
        lemma_le_bytes_append(a, b.drop_last());
        assert((a + b).drop_last() =~= a + b.drop_last());
        assert((a + b).last() == b.last());
        assert(le_bytes(a) + le_bytes(b) =~= le_bytes(a) + le_bytes(b.drop_last()) + seq![(b.last() % 256) as u8, (b.last() / 256) as u8]);
    }
}

proof fn lemma_utf16_of_prepend(c: char, s: Seq<char>)
    ensures
        utf16_of(seq![c] + s) == utf16_of_char(c) + utf16_of(s),
    decreases s.len(),
{
    if s.len() == 0 {
        assert(seq![c] + s =~= seq![c]);
        assert(seq![c].drop_last() =~= Seq::<char>::empty());
        assert(seq![c].last() == c);
        assert(utf16_of(Seq::<char>::empty()) =~= Seq::<u16>::empty());
        assert(utf16_of(seq![c]) == utf16_of(seq![c].drop_last()) + utf16_of_char(seq![c].last()));
        assert(utf16_of_char(c) + utf16_of(s) =~= utf16_of_char(c));
        assert(Seq::<u16>::empty() + utf16_of_char(c) =~= utf16_of_char(c));
    } else {
        lemma_utf16_of_prepend(c, s.drop_last());
        assert((seq![c] + s).drop_last() =~= seq![c] + s.drop_last());
        assert((seq![c] + s).last() == s.last());
        assert(utf16_of_char(c) + utf16_of(s.drop_last()) + utf16_of_char(s.last())
            =~= utf16_of_char(c) + (utf16_of(s.drop_last()) + utf16_of_char(s.last())));
    }
}

proof fn lemma_decode_char(c: char, rest: Seq<u16>)
    ensures
        utf16_lossy(utf16_of_char(c) + rest) == seq![c] + utf16_lossy(rest),
{
    let v = c as u32;
    let units = utf16_of_char(c) + rest;
    if v < 0x10000 {
        assert(units[0] == v as u16);
        assert(units.subrange(1, units.len() as int) =~= rest);
        assert(((v as u16) as char) == c);
    } else {
        let w = v - 0x10000;
        let hi = (0xD800 + w / 0x400) as u16;
        let lo = (0xDC00 + w % 0x400) as u16;
        assert(w < 0x100000);
        assert(w / 0x400 < 0x400) by {
            vstd::arithmetic::div_mod::lemma_div_is_ordered(w as int, 0xFFFFF, 0x400);
        }
        assert(units[0] == hi && units[1] == lo);
        assert(units.subrange(2, units.len() as int) =~= rest);
        assert((w / 0x400) * 0x400 + w % 0x400 == w) by {
            vstd::arithmetic::div_mod::lemma_fundamental_div_mod(w as int, 0x400);
        }
        assert(0x10000 + (hi - 0xD800) * 0x400 + (lo - 0xDC00) == v);
        assert((v as char) == c);
    }
}

proof fn lemma_decode_text(s: Seq<char>, rest: Seq<u16>)
    ensures
        utf16_lossy(utf16_of(s) + rest) == s + utf16_lossy(rest),
    decreases s.len(),
{
    if s.len() == 0 {
        assert(utf16_of(s) + rest =~= rest);
        assert(s + utf16_lossy(rest) =~= utf16_lossy(rest));
    } else {
        let t = s.drop_first();
        assert(s =~= seq![s[0]] + t);
        lemma_utf16_of_prepend(s[0], t);
        lemma_decode_text(t, rest);
        assert(utf16_of(s) + rest =~= utf16_of_char(s[0]) + (utf16_of(t) + rest));
        lemma_decode_char(s[0], utf16_of(t) + rest);
        assert(seq![s[0]] + (t + utf16_lossy(rest)) =~= s + utf16_lossy(rest));
    }
}

proof fn lemma_le_bytes_shape(u: Seq<u16>)
    ensures
        le_bytes(u).len() == 2 * u.len(),
        forall|i: int| 0 <= i < u.len() ==> le_bytes(u)[2 * i] == (u[i] % 256) as u8
            && le_bytes(u)[2 * i + 1] == (u[i] / 256) as u8,
    decreases u.len(),
{
    if u.len() > 0 {
        lemma_le_bytes_shape(u.drop_last());
        assert forall|i: int| 0 <= i < u.len() implies le_bytes(u)[2 * i] == (u[i] % 256) as u8
            && le_bytes(u)[2 * i + 1] == (u[i] / 256) as u8 by {
            if i < u.len() - 1 {
                assert(u.drop_last()[i] == u[i]);
            }
        }
    }
}

proof fn lemma_le_round_trip(u: Seq<u16>)
    ensures
        le_units(le_bytes(u)) == u,
{
    lemma_le_bytes_shape(u);
    let b = le_bytes(u);
    assert forall|i: int| 0 <= i < u.len() implies #[trigger] le_units(b)[i] == u[i] by {
        assert(b[2 * i] == (u[i] % 256) as u8);
        assert(b[2 * i + 1] == (u[i] / 256) as u8);
        assert(u[i] % 256 + 256 * (u[i] / 256) == u[i]);
    }
    assert(le_units(b) =~= u);
}

proof fn lemma_remove_absent(s: Seq<char>, c: char)
    requires
        !s.contains(c),
    ensures
        remove_char(s, c) == s,
    decreases s.len(),
{
    reveal(Seq::filter);
    if s.len() > 0 {
        assert(!s.drop_last().contains(c)) by {
            if s.drop_last().contains(c) {
                let j = choose|j: int| 0 <= j < s.drop_last().len() && s.drop_last()[j] == c;
                assert(s[j] == c);
            }
        }
        lemma_remove_absent(s.drop_last(), c);
        assert(s.last() != c) by {
            assert(s[s.len() - 1] == s.last());
        }
        assert(s.drop_last().push(s.last()) =~= s);
    }
}

/// A `PATH` value written to the registry reads back as written: decoding
/// the bytes of `registry_bytes(s)` gives `s` with trailing NULs trimmed and
/// other NULs removed, so exactly `s` when it holds no NUL.
pub proof fn lemma_registry_round_trip(s: Seq<char>)
    ensures
        decoded_registry_text(registry_bytes(s)) == remove_char(trim_end_char(s, '\0'), '\0'),
        !s.contains('\0') ==> decoded_registry_text(registry_bytes(s)) == s,
{
    let units = utf16_of(s).push(0);
    lemma_le_round_trip(units);
    lemma_le_bytes_shape(units);
    assert(registry_bytes(s).len() > 0);
    assert(units =~= utf16_of(s) + seq![0u16]);
    lemma_decode_text(s, seq![0u16]);
    assert(seq![0u16].subrange(1, 1) =~= Seq::<u16>::empty());
    assert(utf16_lossy(Seq::<u16>::empty()) =~= Seq::<char>::empty());
    assert((0u16 as char) == '\0');
    assert(utf16_lossy(seq![0u16]) == seq![(0u16 as char)] + utf16_lossy(seq![0u16].subrange(1, 1)));
    assert(utf16_lossy(seq![0u16]) =~= seq!['\0']);
    assert(s + seq!['\0'] =~= s.push('\0'));
    assert(s.push('\0').drop_last() =~= s);
    assert(trim_end_char(s.push('\0'), '\0') == trim_end_char(s, '\0'));
    if !s.contains('\0') {
        if s.len() > 0 {
            assert(s[s.len() - 1] == s.last());
        }
        assert(trim_end_char(s, '\0') == s);
        lemma_remove_absent(s, '\0');
    }
}

/// Encodes a `PATH` value for the registry (see `registry_bytes`).
pub fn encode_registry_path(s: &str) -> (bytes: Vec<u8>)
    ensures
        bytes@ == registry_bytes(s@),
{
    let cs = chars_of(s);
    let mut out: Vec<u8> = Vec::new();
    let mut i: usize = 0;
    let ghost units: Seq<u16> = Seq::empty();
    assert(cs@.take(0) =~= Seq::<char>::empty());
    while i < cs.len()
        invariant
            i <= cs@.len(),
            out@ == le_bytes(utf16_of(cs@.take(i as int))),
        decreases cs@.len() - i,
    {
        let c = cs[i];
        let v: u32 = c as u32;
        let ghost prev = utf16_of(cs@.take(i as int));
        proof {
            assert(cs@.take(i + 1).drop_last() =~= cs@.take(i as int));
            assert(cs@.take(i + 1).last() == c);
        }
        if v < 0x10000 {
            let u: u16 = v as u16;
            push_unit(&mut out, u);
            proof {
                lemma_le_bytes_append(prev, seq![u]);
                assert(le_bytes(seq![u]) =~= seq![(u % 256) as u8, (u / 256) as u8]) by {
                    assert(seq![u].drop_last() =~= Seq::<u16>::empty());
                    assert(le_bytes(Seq::<u16>::empty()) =~= Seq::<u8>::empty());
                    assert(seq![u].last() == u);
                }
            }
        } else {
            let w: u32 = v - 0x10000;
            let hi: u16 = (0xD800 + w / 0x400) as u16;
            let lo: u16 = (0xDC00 + w % 0x400) as u16;
            push_unit(&mut out, hi);
            push_unit(&mut out, lo);
            proof {
                lemma_le_bytes_append(prev, seq![hi, lo]);
                assert(seq![hi, lo].drop_last() =~= seq![hi]);
                assert(seq![hi].drop_last() =~= Seq::<u16>::empty());
                assert(le_bytes(Seq::<u16>::empty()) =~= Seq::<u8>::empty());
                assert(seq![hi].last() == hi);
                assert(seq![hi, lo].last() == lo);
                assert(le_bytes(seq![hi]) =~= seq![(hi % 256) as u8, (hi / 256) as u8]);
                assert(le_bytes(seq![hi, lo]) =~= seq![(hi % 256) as u8, (hi / 256) as u8] + seq![(lo % 256) as u8, (lo / 256) as u8]);
            }
        }
        i = i + 1;
    }
    assert(cs@.take(cs@.len() as int) =~= cs@);
    let ghost body = utf16_of(cs@);
    push_unit(&mut out, 0);
    proof {
        lemma_le_bytes_append(body, seq![0u16]);
        assert(seq![0u16].drop_last() =~= Seq::<u16>::empty());
        assert(le_bytes(Seq::<u16>::empty()) =~= Seq::<u8>::empty());
        assert(seq![0u16].last() == 0u16);
        assert(body.push(0) =~= body + seq![0u16]);
    }
    out
}

/// The kind of a registry string value.
#[derive(Debug, Clone, Copy, PartialEq, Eq, Structural)]
pub enum PathValueKind {
    Sz,
    ExpandSz,
    Other,
}

/// The kind to write `PATH` back as: `REG_SZ` when it was one, otherwise
/// `REG_EXPAND_SZ`.
pub fn kind_to_write(original: PathValueKind) -> (k: PathValueKind)
    ensures
        k == (if original == PathValueKind::Sz { PathValueKind::Sz } else { PathValueKind::ExpandSz }),
{
    match original {
        PathValueKind::Sz => PathValueKind::Sz,
        _ => PathValueKind::ExpandSz,
    }
}

/// The current `PATH` text and kind from the raw registry value, if one
/// could be read; an unreadable value counts as an empty `REG_EXPAND_SZ`.
pub fn current_path_value(raw: Option<(&[u8], PathValueKind)>) -> (r: (String, PathValueKind))
    ensures
        match raw {
            Some((b, k)) => r.0@ == decoded_registry_text(b@) && r.1 == k,
            None => r.0@ == Seq::<char>::empty() && r.1 == PathValueKind::ExpandSz,
        },
{
    match raw {
        Some((b, k)) => (decode_registry_path_bytes(b), k),
        None => (string_of(&[]), PathValueKind::ExpandSz),
    }
}

/// A path without the Win32 long-path prefix `\\?\`.
pub open spec fn without_long_prefix(p: Seq<char>) -> Seq<char> {
    if starts_with(p, crate::process::long_path_prefix()) {
        p.subrange(4, p.len() as int)
    } else {
        p
    }
}

/// Strips the long-path prefix from a path.
pub fn normalize_windows_path(path: &str) -> (r: String)
    ensures
        r@ == without_long_prefix(path@),
{
    let cs = chars_of(path);
    let pre = ['\\', '\\', '?', '\\'];
    proof {
        assert(pre@ =~= crate::process::long_path_prefix());
    }
    if starts_with_chars(cs.as_slice(), &pre) {
        let mut rest: Vec<char> = Vec::new();
        let mut i: usize = 4;
        while i < cs.len()
            invariant
                4 <= i <= cs@.len(),
                rest@ =~= cs@.subrange(4, i as int),
            decreases cs@.len() - i,
        {
            rest.push(cs[i]);
            i = i + 1;
        }
        string_of(rest.as_slice())
    } else {
        string_of(cs.as_slice())
    }
}

/// The running executable and the installed one are the same file path,
/// ignoring the long-path prefix and ASCII case.
pub open spec fn same_install_path(current: Seq<char>, target: Seq<char>) -> bool {
    eq_ascii_ci(without_long_prefix(current), without_long_prefix(target))
}

/// Whether the running executable is the installed one.
pub fn is_installed_copy(current: &str, target: &str) -> (r: bool)
    ensures
        r == same_install_path(current@, target@),
{
    let c = normalize_windows_path(current);
    let t = normalize_windows_path(target);
    let cc = chars_of(c.as_str());
    let tc = chars_of(t.as_str());
    eq_ignore_ascii_case(cc.as_slice(), tc.as_slice())
}

/// What installing must check first.
#[derive(Debug, Clone, Copy, PartialEq, Eq, Structural)]
pub enum InstallCheck {
    /// Nothing is installed yet: copy.
    Copy,
    /// Another file is installed: compare contents by hash.
    CompareHashes,
    /// The running executable is the installed one: keep it.
    Keep,
}

/// The first installation decision: copy when nothing is installed, keep
/// when the running executable is the installed one, otherwise compare.
pub fn install_check(target_exists: bool, current: &str, target: &str) -> (c: InstallCheck)
    ensures
        c == (if !target_exists {
            InstallCheck::Copy
        } else if !same_install_path(current@, target@) {
            InstallCheck::CompareHashes
        } else {
            InstallCheck::Keep
        }),
{
    if !target_exists {
        InstallCheck::Copy
    } else if !is_installed_copy(current, target) {
        InstallCheck::CompareHashes
    } else {
        InstallCheck::Keep
    }
}

/// The `Run` value that starts the installed executable at login: its path
/// without the long-path prefix, in double quotes.
pub fn run_command(target: &str) -> (r: String)
    ensures
        r@ == seq!['"'] + without_long_prefix(target@) + seq!['"'],
{
    let p = normalize_windows_path(target);
    let pc = chars_of(p.as_str());
    let mut out: Vec<char> = Vec::new();
    out.push('"');
    let mut i: usize = 0;
    while i < pc.len()
        invariant
            i <= pc@.len(),
            out@ =~= seq!['"'] + pc@.subrange(0, i as int),
        decreases pc@.len() - i,
    {
        out.push(pc[i]);
        i = i + 1;
    }
    out.push('"');
    assert(out@ =~= seq!['"'] + without_long_prefix(target@) + seq!['"']);
    string_of(out.as_slice())
}

} // verus!
