//! Naming of the temporary files through which data files are replaced
//! atomically.

use vstd::prelude::*;
use crate::text::string_of;

verus! {

/// The decimal digit of a value below 10.
pub open spec fn digit(v: int) -> char {
    (('0' as int) + v) as char
}

/// The decimal notation of a natural number, without leading zeros.
pub open spec fn decimal(n: nat) -> Seq<char>
    decreases n,
{
    if n < 10 {
        seq![digit(n as int)]
    } else {
        decimal(n / 10).push(digit((n % 10) as int))
    }
}

fn digit_exec(v: u128) -> (c: char)
    requires
        v < 10,
    ensures
        c == digit(v as int),
{
    let d: [char; 10] = ['0', '1', '2', '3', '4', '5', '6', '7', '8', '9'];
    d[v as usize]
}

/// The decimal notation of `n`.
pub fn to_decimal(n: u128) -> (s: Vec<char>)
    ensures
        s@ == decimal(n as nat),
    decreases n,
{
    if n < 10 {
        let mut s: Vec<char> = Vec::new();
        s.push(digit_exec(n));
        assert(s@ =~= seq![digit(n as int)]);
        s
    } else {
        let mut s = to_decimal(n / 10);
        s.push(digit_exec(n % 10));
        s
    }
}

fn append_chars(out: &mut Vec<char>, s: &[char])
    ensures
        final(out)@ == old(out)@ + s@,
{
    let mut i: usize = 0;
    while i < s.len()
        invariant
            i <= s@.len(),
            out@ =~= old(out)@ + s@.subrange(0, i as int),
        decreases s@.len() - i,
    {
        out.push(s[i]);
        i = i + 1;
    }
    assert(s@.subrange(0, s@.len() as int) =~= s@);
}

/// The name of the temporary file written before a data file is replaced:
/// the file's name (`data` when it has none), `.tmp.`, the process id, the
/// nanoseconds since the epoch and a per-process counter, joined by `-`.
pub open spec fn temp_name(file_name: Option<Seq<char>>, pid: nat, nanos: nat, counter: nat) -> Seq<char> {
    let base = match file_name {
        Some(f) => f,
        None => seq!['d', 'a', 't', 'a'],
    };
    base + seq!['.', 't', 'm', 'p', '.'] + decimal(pid) + seq!['-'] + decimal(nanos) + seq!['-'] + decimal(counter)
}

/// Builds the temporary file name (see `temp_name`).
pub fn temp_file_name(file_name: Option<&str>, pid: u32, nanos: u128, counter: u64) -> (r: String)
    ensures
        r@ == temp_name(match file_name { Some(f) => Some(f@), None => None }, pid as nat, nanos as nat, counter as nat),
{
    let mut out: Vec<char> = Vec::new();
    match file_name {
        Some(f) => {
            let fc = crate::text::chars_of(f);
            append_chars(&mut out, fc.as_slice());
        },
        None => {
            append_chars(&mut out, &['d', 'a', 't', 'a']);
        },
    }
    append_chars(&mut out, &['.', 't', 'm', 'p', '.']);
    let p = to_decimal(pid as u128);
    append_chars(&mut out, p.as_slice());
    append_chars(&mut out, &['-']);
    let n = to_decimal(nanos);
    append_chars(&mut out, n.as_slice());
    append_chars(&mut out, &['-']);
    let c = to_decimal(counter as u128);
    append_chars(&mut out, c.as_slice());
    string_of(out.as_slice())
}

} // verus!
