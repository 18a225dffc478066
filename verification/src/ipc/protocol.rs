//! The `thumb://` protocol: `thumb://localhost/<epoch>_<index>?s=<size>`.
//!
//! The epoch and index are joined by `_`, not `/`: the webview encodes a `/`
//! inside the path, and the request would arrive as one opaque segment.

use vstd::prelude::*;

use crate::parse::{find_char, find_char_from, has_at, parse_u64_chars, parse_unsigned, starts_with_at, sub_vec};
use crate::text::str_chars;

verus! {

/// The URI scheme this handler is registered under.
pub const SCHEME: &'static str = "thumb";

/// Largest thumbnail edge a request may ask for.
pub const MAX_SIZE: u32 = 512;

/// Edge used when the request names none.
pub const DEFAULT_SIZE: u32 = 192;

/// Smallest edge a request may ask for.
pub const MIN_SIZE: u32 = 16;

/// `s` with every leading `/` removed.
pub open spec fn strip_slashes(s: Seq<char>) -> Seq<char>
    decreases s.len(),
{
    if s.len() > 0 && s[0] == '/' {
        strip_slashes(s.drop_first())
    } else {
        s
    }
}

/// The `(epoch, index)` a thumbnail path names: exactly two numbers joined by
/// one `_`, after any leading slashes.
pub open spec fn entry_of(path: Seq<char>) -> Option<(u64, usize)> {
    let t = strip_slashes(path);
    match find_char(t, '_') {
        None => None,
        Some(k) => {
            let rest = t.subrange(k + 1, t.len() as int);
            if find_char(rest, '_') is Some {
                None
            } else {
                match (parse_unsigned(t.subrange(0, k), u64::MAX as nat), parse_unsigned(rest, usize::MAX as nat)) {
                    (Some(e), Some(i)) => Some((e as u64, i as usize)),
                    _ => None,
                }
            }
        },
    }
}

proof fn lemma_strip_from(s: Seq<char>, i: int)
    requires
        0 <= i < s.len(),
        s[i] == '/',
    ensures
        strip_slashes(s.subrange(i, s.len() as int)) == strip_slashes(s.subrange(i + 1, s.len() as int)),
{
    assert(s.subrange(i, s.len() as int).drop_first() =~= s.subrange(i + 1, s.len() as int));
}

/// Read `<epoch>_<index>` out of a request path.
pub fn parse_entry(path: &str) -> (r: Option<(u64, usize)>)
    ensures
        r == entry_of(path@),
{
    let cs = str_chars(path);
    let mut i: usize = 0;
    assert(cs@.subrange(0, cs@.len() as int) =~= cs@);
    while i < cs.len() && cs[i] == '/'
        invariant
            i <= cs@.len(),
            strip_slashes(cs@) == strip_slashes(cs@.subrange(i as int, cs@.len() as int)),
        decreases cs@.len() - i,
    {
        proof {
            lemma_strip_from(cs@, i as int);
        }
        i += 1;
    }
    let t = sub_vec(&cs, i, cs.len());
    proof {
        if t@.len() > 0 {
            assert(t@[0] == cs@[i as int]);
        }
        assert(strip_slashes(t@) == t@);
    }
    assert(t@.subrange(0, t@.len() as int) =~= t@);
    let k = match find_char_from(&t, '_', 0) {
        Some(k) => k,
        None => return None,
    };
    proof {
        crate::parse::lemma_find_char(t@, '_');
    }
    let rest = sub_vec(&t, k + 1, t.len());
    assert(rest@.subrange(0, rest@.len() as int) =~= rest@);
    if find_char_from(&rest, '_', 0).is_some() {
        return None;
    }
    let head = sub_vec(&t, 0, k);
    assert(head@.subrange(0, head@.len() as int) =~= head@);
    let epoch = match parse_u64_chars(&head, 0, u64::MAX) {
        Some(e) => e,
        None => return None,
    };
    let index = match parse_u64_chars(&rest, 0, usize::MAX as u64) {
        Some(x) => x as usize,
        None => return None,
    };
    Some((epoch, index))
}

/// The value of the first `s=` pair in a query string, if any.
pub open spec fn size_field(q: Seq<char>) -> Option<Seq<char>>
    decreases q.len(),
{
    match find_char(q, '&') {
        None => if has_at(q, 0, "s="@) { Some(q.subrange("s="@.len() as int, q.len() as int)) } else { None },
        Some(k) => {
            proof {
                crate::parse::lemma_find_char(q, '&');
            }
            if has_at(q.subrange(0, k), 0, "s="@) {
                Some(q.subrange("s="@.len() as int, k))
            } else {
                size_field(q.subrange(k + 1, q.len() as int))
            }
        },
    }
}

/// The edge a query asks for: the first `s=` pair read as a number, else the
/// default, then held between the smallest and largest allowed.
pub open spec fn size_of(query: Option<Seq<char>>) -> u32 {
    let asked: u32 = match query {
        None => DEFAULT_SIZE,
        Some(q) => match size_field(q) {
            None => DEFAULT_SIZE,
            Some(v) => match parse_unsigned(v, u32::MAX as nat) {
                None => DEFAULT_SIZE,
                Some(n) => n as u32,
            },
        },
    };
    if asked < MIN_SIZE { MIN_SIZE } else if asked > MAX_SIZE { MAX_SIZE } else { asked }
}

/// The value of the first `s=` pair in `q[from..]`.
fn size_field_from(q: &Vec<char>, from: usize) -> (r: Option<Vec<char>>)
    requires
        from <= q@.len(),
    ensures
        match size_field(q@.subrange(from as int, q@.len() as int)) {
            Some(v) => r matches Some(x) && x@ == v,
            None => r is None,
        },
    decreases q@.len() - from,
{
    proof {
        reveal_strlit("s=");
    }
    let ghost t = q@.subrange(from as int, q@.len() as int);
    proof {
        crate::parse::lemma_find_char(t, '&');
    }
    let n = q.len();
    match find_char_from(q, '&', from) {
        None => {
            if starts_with_at(q, from, "s=") {
                assert(q@.subrange(from as int, from + 2) =~= t.subrange(0, 2));
                let v = sub_vec(q, from + 2, n);
                assert(v@ =~= t.subrange(2, t.len() as int));
                Some(v)
            } else {
                proof {
                    if has_at(t, 0, "s="@) {
                        assert(q@.subrange(from as int, from + 2) =~= t.subrange(0, 2));
                    }
                }
                None
            }
        },
        Some(k) => {
            let piece = sub_vec(q, from, k);
            assert(piece@ =~= t.subrange(0, k - from));
            if starts_with_at(&piece, 0, "s=") {
                let v = sub_vec(&piece, 2, piece.len());
                assert(v@ =~= t.subrange(2, k - from));
                Some(v)
            } else {
                let r = size_field_from(q, k + 1);
                assert(q@.subrange(k + 1, n as int) =~= t.subrange(k - from + 1, t.len() as int));
                r
            }
        },
    }
}

/// The thumbnail edge a query string asks for.
pub fn parse_size(query: Option<&str>) -> (r: u32)
    ensures
        r == size_of(match query {
            Some(q) => Some(q@),
            None => None,
        }),
{
    let asked: u32 = match query {
        None => DEFAULT_SIZE,
        Some(q) => {
            let cs = str_chars(q);
            assert(cs@.subrange(0, cs@.len() as int) =~= cs@);
            match size_field_from(&cs, 0) {
                None => DEFAULT_SIZE,
                Some(v) => {
                    assert(v@.subrange(0, v@.len() as int) =~= v@);
                    match parse_u64_chars(&v, 0, u32::MAX as u64) {
                        None => DEFAULT_SIZE,
                        Some(n) => n as u32,
                    }
                },
            }
        },
    };
    if asked < MIN_SIZE {
        MIN_SIZE
    } else if asked > MAX_SIZE {
        MAX_SIZE
    } else {
        asked
    }
}

} // verus!
