//! BLAKE3 digests, and their text form.

use vstd::prelude::*;

verus! {

/// What `blake3::hash` returns for a byte string: its 32-byte digest.
pub uninterp spec fn blake3_digest(data: Seq<u8>) -> Seq<u8>;

/// `blake3::hash`: the digest of `data`, as its 32 bytes.
#[verifier::external_body]
pub(crate) fn blake3_of(data: &[u8]) -> (r: [u8; 32])
    ensures
        r@ == blake3_digest(data@),
{
    *blake3::hash(data).as_bytes()
}

/// `blake3::Hasher`, the incremental form of the same hash.
#[verifier::external_type_specification]
#[verifier::external_body]
pub struct ExBlake3Hasher(blake3::Hasher);

/// A BLAKE3 hash fed piece by piece, with the bytes fed so far.
///
/// For contents too large to hold at once: feeding the pieces in order gives
/// the digest of their concatenation, as `blake3::hash` would.
pub struct Blake3Stream {
    hasher: blake3::Hasher,
    fed: Ghost<Seq<u8>>,
}

impl Blake3Stream {
    /// The bytes fed so far, in order.
    pub closed spec fn seen(&self) -> Seq<u8> {
        self.fed@
    }

    /// A stream that has seen nothing yet.
    pub fn new() -> (s: Blake3Stream)
        ensures
            s.seen() == Seq::<u8>::empty(),
    {
        stream_new()
    }

    /// One block read from a file: a non-empty block is fed and the reading
    /// goes on (`None`); the empty block that marks the end gives the digest
    /// of everything fed.
    pub fn step(&mut self, block: &[u8]) -> (r: Option<[u8; 32]>)
        ensures
            block@.len() == 0 ==> final(self).seen() == old(self).seen() && (r matches Some(h) && h@ == blake3_digest(
                old(self).seen(),
            )),
            block@.len() > 0 ==> final(self).seen() == old(self).seen() + block@ && r is None,
    {
        if block.len() == 0 {
            Some(stream_finish(self))
        } else {
            stream_update(self, block);
            None
        }
    }
}

/// `blake3::Hasher::new`: a stream that has seen nothing.
#[verifier::external_body]
pub(crate) fn stream_new() -> (s: Blake3Stream)
    ensures
        s.seen() == Seq::<u8>::empty(),
{
    Blake3Stream { hasher: blake3::Hasher::new(), fed: Ghost(Seq::empty()) }
}

/// `blake3::Hasher::update`: feed `b` after what the stream has seen.
#[verifier::external_body]
pub(crate) fn stream_update(s: &mut Blake3Stream, b: &[u8])
    ensures
        final(s).seen() == old(s).seen() + b@,
{
    s.hasher.update(b);
}

/// `blake3::Hasher::finalize`: the digest of everything fed, which is the
/// digest `blake3::hash` gives for those bytes taken at once.
#[verifier::external_body]
pub(crate) fn stream_finish(s: &Blake3Stream) -> (r: [u8; 32])
    ensures
        r@ == blake3_digest(s.seen()),
{
    *s.hasher.finalize().as_bytes()
}

/// Lowercase hexadecimal digit for `n` (below 16).
pub open spec fn hex_digit(n: u8) -> char {
    if n < 10 { (48 + n) as char } else { (97 + n - 10) as char }
}

/// Lowercase hexadecimal of a byte string, two digits a byte, high first.
pub open spec fn hex_lower(b: Seq<u8>) -> Seq<char>
    decreases b.len(),
{
    if b.len() == 0 {
        Seq::empty()
    } else {
        hex_lower(b.drop_last()).push(hex_digit(b.last() / 16)).push(hex_digit(b.last() % 16))
    }
}

fn hex_char(n: u8) -> (r: char)
    requires
        n < 16,
    ensures
        r == hex_digit(n),
{
    if n < 10 { ((48u8 + n) as char) } else { ((97u8 + n - 10) as char) }
}

/// The lowercase hexadecimal of the first `n` bytes of `b`.
pub fn hex_prefix(b: &[u8], n: usize) -> (r: Vec<char>)
    requires
        n <= b@.len(),
    ensures
        r@ == hex_lower(b@.subrange(0, n as int)),
{
    let mut out: Vec<char> = Vec::new();
    let mut i: usize = 0;
    while i < n
        invariant
            i <= n,
            n <= b@.len(),
            out@ == hex_lower(b@.subrange(0, i as int)),
        decreases n - i,
    {
        assert(b@.subrange(0, i + 1).drop_last() =~= b@.subrange(0, i as int));
        let x = b[i];
        out.push(hex_char(x / 16));
        out.push(hex_char(x % 16));
        i += 1;
    }
    out
}

/// The little-endian bytes of a 64-bit number.
pub open spec fn le_u64(x: u64) -> Seq<u8> {
    seq![
        (x % 0x100) as u8,
        (x / 0x100 % 0x100) as u8,
        (x / 0x1_0000 % 0x100) as u8,
        (x / 0x100_0000 % 0x100) as u8,
        (x / 0x1_0000_0000 % 0x100) as u8,
        (x / 0x100_0000_0000 % 0x100) as u8,
        (x / 0x1_0000_0000_0000 % 0x100) as u8,
        (x / 0x100_0000_0000_0000 % 0x100) as u8,
    ]
}

/// Append the little-endian bytes of `x`.
pub fn push_le_u64(out: &mut Vec<u8>, x: u64)
    ensures
        final(out)@ == old(out)@ + le_u64(x),
{
    let ghost o = out@;
    out.push((x % 0x100) as u8);
    out.push((x / 0x100 % 0x100) as u8);
    out.push((x / 0x1_0000 % 0x100) as u8);
    out.push((x / 0x100_0000 % 0x100) as u8);
    out.push((x / 0x1_0000_0000 % 0x100) as u8);
    out.push((x / 0x100_0000_0000 % 0x100) as u8);
    out.push((x / 0x1_0000_0000_0000 % 0x100) as u8);
    out.push((x / 0x100_0000_0000_0000 % 0x100) as u8);
    assert(out@ =~= o + le_u64(x));
}

} // verus!
