//! MD5 digests of files, read piece by piece, as lowercase hex text: how the
//! installer tells whether the installed executable is out of date.

use vstd::prelude::*;
use crate::text::string_of;

verus! {

#[verifier::external_type_specification]
#[verifier::external_body]
pub struct ExMd5Context(md5::Context);

/// The bytes an MD5 context has consumed so far, in order.
pub uninterp spec fn md5_input(ctx: md5::Context) -> Seq<u8>;

/// The 16-byte MD5 digest of a byte sequence.
pub uninterp spec fn md5_of(data: Seq<u8>) -> Seq<u8>;

/// `md5::Context::new`: a context that has consumed nothing.
#[verifier::external_body]
fn md5_new() -> (c: md5::Context)
    ensures
        md5_input(c) == Seq::<u8>::empty(),
{
    md5::Context::new()
}

/// `md5::Context::consume`: the context has consumed `data` after what it
/// had consumed before.
#[verifier::external_body]
fn md5_consume(c: &mut md5::Context, data: &[u8])
    ensures
        md5_input(*final(c)) == md5_input(*old(c)) + data@,
{
    c.consume(data)
}

/// `md5::Context::compute`: the digest of everything consumed.
#[verifier::external_body]
fn md5_compute(c: md5::Context) -> (d: [u8; 16])
    ensures
        d@ == md5_of(md5_input(c)),
{
    c.compute().0
}

/// The lowercase hex digit of a value below 16.
pub open spec fn hex_digit(v: int) -> char {
    if v < 10 {
        (('0' as int) + v) as char
    } else {
        (('a' as int) + v - 10) as char
    }
}

/// Bytes as lowercase hex, two digits per byte (`{:x}` of an MD5 digest).
pub open spec fn hex_lower(bytes: Seq<u8>) -> Seq<char>
    decreases bytes.len(),
{
    if bytes.len() == 0 {
        Seq::empty()
    } else {
        hex_lower(bytes.drop_last()) + seq![hex_digit(bytes.last() as int / 16), hex_digit(bytes.last() as int % 16)]
    }
}

/// A lowercase hex digit: `0`-`9` or `a`-`f`.
pub open spec fn is_hex_char(c: char) -> bool {
    ('0' <= c && c <= '9') || ('a' <= c && c <= 'f')
}

fn hex_digit_exec(v: u8) -> (c: char)
    requires
        v < 16,
    ensures
        c == hex_digit(v as int),
        is_hex_char(c),
{
    let d: [char; 16] = ['0', '1', '2', '3', '4', '5', '6', '7', '8', '9', 'a', 'b', 'c', 'd', 'e', 'f'];
    d[v as usize]
}

/// Streams bytes into an MD5 digest.
pub struct Md5Hasher {
    ctx: md5::Context,
}

impl Md5Hasher {
    /// The bytes consumed so far.
    pub closed spec fn input(&self) -> Seq<u8> {
        md5_input(self.ctx)
    }

    /// A hasher that has consumed nothing.
    pub fn new() -> (h: Self)
        ensures
            h.input() == Seq::<u8>::empty(),
    {
        Md5Hasher { ctx: md5_new() }
    }

    /// Consumes the next piece of data.
    pub fn update(&mut self, data: &[u8])
        ensures
            final(self).input() == old(self).input() + data@,
    {
        md5_consume(&mut self.ctx, data);
    }

    /// The digest of everything consumed, as lowercase hex: the digest has
    /// 16 bytes, so the text has 32 characters, each `0`-`9` or `a`-`f`.
    pub fn finish_hex(self) -> (hex: String)
        ensures
            hex@ == hex_lower(md5_of(self.input())),
            md5_of(self.input()).len() == 16,
            hex@.len() == 32,
            forall|j: int| 0 <= j < hex@.len() ==> is_hex_char(#[trigger] hex@[j]),
    {
        let d = md5_compute(self.ctx);
        let mut out: Vec<char> = Vec::new();
        let mut i: usize = 0;
        assert(d@.take(0) =~= Seq::<u8>::empty());
        while i < 16
            invariant
                i <= 16,
                d@.len() == 16,
                out@ == hex_lower(d@.take(i as int)),
                out@.len() == 2 * i,
                forall|j: int| 0 <= j < out@.len() ==> is_hex_char(#[trigger] out@[j]),
            decreases 16 - i,
        {
            let b = d[i];
            proof {
                assert(d@.take(i + 1).drop_last() =~= d@.take(i as int));
                assert(d@.take(i + 1).last() == b);
            }
            let ghost before = out@;
            out.push(hex_digit_exec(b / 16));
            out.push(hex_digit_exec(b % 16));
            assert(out@ =~= before + seq![hex_digit(b as int / 16), hex_digit(b as int % 16)]);
            i = i + 1;
        }
        assert(d@.take(16) =~= d@);
        string_of(out.as_slice())
    }
}

} // verus!
