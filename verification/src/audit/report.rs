//! The figures of a journal audit: the deletions the change journal still
//! remembers, counted by hour, by extension and by folder, with the folders
//! that were deleted whole.
//!
//! An index says what is on a drive now, never what used to be; the journal
//! recorded every deletion as it happened. Folders are named from the index
//! (folders that survived) and from the deleted folder records themselves
//! (folders that went too), walking up at most 64 levels.

use std::collections::HashMap;

use vstd::prelude::*;
use vstd::utf8::encode_utf8;

use crate::index::model::{volume_of_text, Index, IndexView};

use crate::text::{
    bytes_lt, lemma_bytes_lt_irreflexive, lemma_bytes_lt_total, lemma_bytes_lt_transitive,
    lower_chars, same_text, str_chars, string_from_chars, text_before, to_lower_char,
    to_upper_char, upper_byte, upper_char, chars_equal,
};

verus! {

broadcast use vstd::std_specs::hash::group_hash_axioms;

/// The texts of some strings.
pub open spec fn views(v: Seq<String>) -> Seq<Seq<char>> {
    v.map_values(|s: String| s@)
}

// ---------------------------------------------------------------------------
// The drive letter on the command line
// ---------------------------------------------------------------------------

/// The argument right after the first `flag`, if there is one.
pub open spec fn after_flag(args: Seq<Seq<char>>, flag: Seq<char>) -> Option<Seq<char>>
    decreases args.len(),
{
    if args.len() == 0 {
        None
    } else if args[0] == flag {
        if args.len() >= 2 {
            Some(args[1])
        } else {
            None
        }
    } else {
        after_flag(args.drop_first(), flag)
    }
}

/// The drive a command is limited to: the first character of the argument
/// after `flag`, in ASCII upper case; every drive when there is none.
pub open spec fn letter_after_of(args: Seq<Seq<char>>, flag: Seq<char>) -> Option<char> {
    match after_flag(args, flag) {
        Some(a) => if a.len() > 0 {
            Some(upper_char(a[0]))
        } else {
            None
        },
        None => None,
    }
}

/// Which drive `mediafinder --audit D` (or `--watch D`) asks about.
pub fn letter_after(args: &[String], flag: &str) -> (r: Option<char>)
    ensures
        r == letter_after_of(views(args@), flag@),
{
    let want = str_chars(flag);
    let ghost all = views(args@);
    let mut i: usize = 0;
    assert(all.subrange(0, all.len() as int) =~= all);
    while i < args.len()
        invariant
            i <= args@.len(),
            all == views(args@),
            want@ == flag@,
            after_flag(all, flag@) == after_flag(all.subrange(i as int, all.len() as int), flag@),
        decreases args@.len() - i,
    {
        let a = str_chars(args[i].as_str());
        let ghost rest = all.subrange(i as int, all.len() as int);
        assert(rest[0] == args@[i as int]@);
        if chars_equal(a.as_slice(), want.as_slice()) {
            if i + 1 < args.len() {
                assert(rest[1] == args@[i + 1]@);
                let b = str_chars(args[i + 1].as_str());
                if b.len() > 0 {
                    return Some(to_upper_char(b[0]));
                }
                return None;
            }
            return None;
        }
        assert(rest.drop_first() =~= all.subrange(i + 1, all.len() as int));
        i += 1;
    }
    None
}

// ---------------------------------------------------------------------------
// Extensions
// ---------------------------------------------------------------------------

/// The position of the last `.` in `s`.
pub open spec fn last_dot(s: Seq<char>) -> Option<int>
    decreases s.len(),
{
    if s.len() == 0 {
        None
    } else if s.last() == '.' {
        Some(s.len() - 1)
    } else {
        last_dot(s.drop_last())
    }
}

proof fn lemma_last_dot(s: Seq<char>)
    ensures
        last_dot(s) matches Some(i) ==> 0 <= i < s.len() && s[i] == '.',
    decreases s.len(),
{
    if s.len() > 0 && s.last() != '.' {
        lemma_last_dot(s.drop_last());
    }
}

/// How the audit names the kind of a deleted file: what follows the last
/// `.` of its name, in ASCII lower case; nothing when there is no `.`.
pub open spec fn ext_label(name: Seq<char>) -> Seq<char> {
    match last_dot(name) {
        Some(i) => lower_chars(name.subrange(i + 1, name.len() as int)),
        None => Seq::empty(),
    }
}

/// The extension of a deleted file's name, for counting by kind.
pub fn ext_of_name(name: &str) -> (r: String)
    ensures
        r@ == ext_label(name@),
{
    let c = str_chars(name);
    let mut k: usize = c.len();
    assert(c@.subrange(0, k as int) =~= c@);
    while k > 0
        invariant
            k <= c@.len(),
            c@ == name@,
            last_dot(name@) == last_dot(c@.subrange(0, k as int)),
        decreases k,
    {
        if c[k - 1] == '.' {
            let mut out: Vec<char> = Vec::new();
            let mut j: usize = k;
            while j < c.len()
                invariant
                    k <= j <= c@.len(),
                    out@ == lower_chars(c@.subrange(k as int, j as int)),
                decreases c@.len() - j,
            {
                out.push(to_lower_char(c[j]));
                assert(lower_chars(c@.subrange(k as int, j + 1)) =~= lower_chars(
                    c@.subrange(k as int, j as int),
                ).push(crate::text::lower_char(c@[j as int])));
                j += 1;
            }
            return string_from_chars(out.as_slice());
        }
        assert(c@.subrange(0, k as int).drop_last() =~= c@.subrange(0, k - 1));
        k -= 1;
    }
    string_from_chars(&[])
}

// ---------------------------------------------------------------------------
// Counting by key
// ---------------------------------------------------------------------------

/// The order of `BTreeMap<String, _>` keys: byte-wise.
pub open spec fn key_lt(a: Seq<char>, b: Seq<char>) -> bool {
    bytes_lt(encode_utf8(a), encode_utf8(b))
}

/// How many times `k` occurs in `keys`.
pub open spec fn count_of(keys: Seq<Seq<char>>, k: Seq<char>) -> nat
    decreases keys.len(),
{
    if keys.len() == 0 {
        0
    } else {
        count_of(keys.drop_last(), k) + if keys.last() == k {
            1nat
        } else {
            0nat
        }
    }
}

proof fn lemma_count_push(keys: Seq<Seq<char>>, x: Seq<char>, k: Seq<char>)
    ensures
        count_of(keys.push(x), k) == count_of(keys, k) + if x == k {
            1nat
        } else {
            0nat
        },
{
    assert(keys.push(x).drop_last() =~= keys);
}

proof fn lemma_count_bounds(keys: Seq<Seq<char>>, k: Seq<char>)
    ensures
        count_of(keys, k) <= keys.len(),
        count_of(keys, k) > 0 ==> exists|j: int| 0 <= j < keys.len() && keys[j] == k,
    decreases keys.len(),
{
    if keys.len() > 0 {
        lemma_count_bounds(keys.drop_last(), k);
        if count_of(keys.drop_last(), k) > 0 {
            let j = choose|j: int| 0 <= j < keys.drop_last().len() && keys.drop_last()[j] == k;
            assert(keys[j] == k);
        }
    }
}

/// The order of the key/count pairs of a tally.
pub open spec fn pair_key_lt(a: (String, usize), b: (String, usize)) -> bool {
    key_lt(a.0@, b.0@)
}

/// `s` is in strictly increasing `lt` order.
pub open spec fn sorted_by<T>(s: Seq<T>, lt: spec_fn(T, T) -> bool) -> bool {
    forall|a: int, b: int| 0 <= a < b < s.len() ==> lt(#[trigger] s[a], #[trigger] s[b])
}

/// Inserting `x` where everything before is smaller and the next is larger
/// keeps a sequence sorted.
proof fn lemma_insert_sorted<T>(s: Seq<T>, p: int, x: T, lt: spec_fn(T, T) -> bool)
    requires
        sorted_by(s, lt),
        0 <= p <= s.len(),
        forall|q: int| 0 <= q < p ==> lt(#[trigger] s[q], x),
        p < s.len() ==> lt(x, s[p]),
        forall|a: T, b: T, c: T| #[trigger] lt(a, b) && #[trigger] lt(b, c) ==> lt(a, c),
    ensures
        sorted_by(s.insert(p, x), lt),
{
    let t = s.insert(p, x);
    assert forall|a: int, b: int| 0 <= a < b < t.len() implies lt(#[trigger] t[a], #[trigger] t[b]) by {
        if b < p {
            assert(t[a] == s[a] && t[b] == s[b]);
        } else if b == p {
            assert(t[a] == s[a]);
        } else if a < p {
            assert(t[a] == s[a] && t[b] == s[b - 1]);
            assert(lt(s[a], x));
            if b - 1 > p {
                assert(lt(s[p], s[b - 1]));
            }
        } else if a == p {
            assert(t[b] == s[b - 1]);
            if b - 1 > p {
                assert(lt(s[p], s[b - 1]));
            }
        } else {
            assert(t[a] == s[a - 1] && t[b] == s[b - 1]);
        }
    }
}

proof fn lemma_key_order()
    ensures
        forall|a: (String, usize), b: (String, usize), c: (String, usize)|
            #[trigger] pair_key_lt(a, b) && #[trigger] pair_key_lt(b, c) ==> pair_key_lt(a, c),
{
    assert forall|a: (String, usize), b: (String, usize), c: (String, usize)|
        #[trigger] pair_key_lt(a, b) && #[trigger] pair_key_lt(b, c) implies pair_key_lt(a, c) by {
        lemma_bytes_lt_transitive(encode_utf8(a.0@), encode_utf8(b.0@), encode_utf8(c.0@));
    }
}

/// `t` counts `keys`: each distinct key once, in key order, with the number
/// of times it occurs.
pub open spec fn tallies(keys: Seq<Seq<char>>, t: Seq<(String, usize)>) -> bool {
    &&& sorted_by(t, |a: (String, usize), b: (String, usize)| pair_key_lt(a, b))
    &&& forall|p: int| 0 <= p < t.len() ==> (#[trigger] t[p]).1 == count_of(keys, t[p].0@) && t[p].1 >= 1
    &&& forall|j: int| 0 <= j < keys.len() ==> has_key(t, #[trigger] keys[j])
}

/// Some pair of `t` has key `k`.
pub open spec fn has_key(t: Seq<(String, usize)>, k: Seq<char>) -> bool {
    exists|p: int| 0 <= p < t.len() && t[p].0@ == k
}

/// The keys, counted: what a `BTreeMap<String, usize>` filled with `+= 1`
/// per key holds, in its order.
pub fn tally(keys: &Vec<String>) -> (t: Vec<(String, usize)>)
    ensures
        tallies(views(keys@), t@),
{
    let ghost ks = views(keys@);
    let ghost lt = |a: (String, usize), b: (String, usize)| pair_key_lt(a, b);
    proof {
        lemma_key_order();
    }
    let mut t: Vec<(String, usize)> = Vec::new();
    let mut i: usize = 0;
    while i < keys.len()
        invariant
            i <= keys@.len(),
            ks == views(keys@),
            lt == (|a: (String, usize), b: (String, usize)| pair_key_lt(a, b)),
            forall|a: (String, usize), b: (String, usize), c: (String, usize)|
                #[trigger] pair_key_lt(a, b) && #[trigger] pair_key_lt(b, c) ==> pair_key_lt(a, c),
            tallies(ks.take(i as int), t@),
        decreases keys@.len() - i,
    {
        let k = &keys[i];
        let ghost pre = ks.take(i as int);
        let ghost t0 = t@;
        assert(ks.take(i + 1) =~= pre.push(k@));
        let mut p: usize = 0;
        while p < t.len() && text_before(t[p].0.as_str(), k.as_str())
            invariant
                p <= t@.len(),
                t@ == t0,
                forall|q: int| 0 <= q < p ==> key_lt(#[trigger] t@[q].0@, k@),
            decreases t@.len() - p,
        {
            p += 1;
        }
        proof {
            lemma_count_bounds(pre, k@);
            assert forall|q: int| 0 <= q < p implies t0[q].0@ != k@ by {
                lemma_bytes_lt_irreflexive(encode_utf8(k@));
            }
        }
        if p < t.len() && same_text(t[p].0.as_str(), k.as_str()) {
            let key = t[p].0.clone();
            let c = t[p].1;
            proof {
                assert(c <= pre.len());
            }
            t.set(p, (key, c + 1));
            proof {
                lemma_count_push(pre, k@, k@);
                assert forall|q: int| 0 <= q < t@.len() implies (#[trigger] t@[q]).1 == count_of(
                    ks.take(i + 1),
                    t@[q].0@,
                ) && t@[q].1 >= 1 by {
                    lemma_count_push(pre, k@, t@[q].0@);
                    if q != p {
                        assert(t@[q] == t0[q]);
                        if q < p {
                            assert(pair_key_lt(t0[q], t0[p as int]));
                        } else {
                            assert(pair_key_lt(t0[p as int], t0[q]));
                        }
                        lemma_bytes_lt_irreflexive(encode_utf8(k@));
                    }
                }
                assert forall|a: int, b: int| 0 <= a < b < t@.len() implies lt(#[trigger] t@[a], #[trigger] t@[b]) by {
                    assert(t0[a].0@ == t@[a].0@ && t0[b].0@ == t@[b].0@);
                    assert(lt(t0[a], t0[b]));
                }
                assert forall|j: int| 0 <= j < i + 1 implies has_key(t@, #[trigger] ks.take(i + 1)[j]) by {
                    if j < i {
                        assert(ks.take(i + 1)[j] == pre[j]);
                        assert(has_key(t0, pre[j]));
                        let q = choose|q: int| 0 <= q < t0.len() && t0[q].0@ == pre[j];
                        assert(t@[q].0@ == t0[q].0@);
                    } else {
                        assert(t@[p as int].0@ == k@);
                    }
                }
            }
        } else {
            let x = (k.clone(), 1usize);
            proof {
                // `k` is new: the keys before `p` are smaller, the one at `p`
                // larger, and so are all after it.
                if p < t0.len() {
                    assert(!key_lt(t0[p as int].0@, k@));
                    assert(t0[p as int].0@ != k@);
                    if encode_utf8(t0[p as int].0@) == encode_utf8(k@) {
                        crate::text::lemma_encode_injective(t0[p as int].0@, k@);
                    }
                    lemma_bytes_lt_total(encode_utf8(t0[p as int].0@), encode_utf8(k@));
                    assert(lt(x, t0[p as int]));
                }
                assert forall|q: int| 0 <= q < t0.len() implies t0[q].0@ != k@ by {
                    lemma_bytes_lt_irreflexive(encode_utf8(k@));
                    if q > p {
                        assert(lt(t0[p as int], t0[q]));
                    }
                }
                if count_of(pre, k@) > 0 {
                    let j = choose|j: int| 0 <= j < pre.len() && pre[j] == k@;
                    assert(has_key(t0, pre[j]));
                        let q = choose|q: int| 0 <= q < t0.len() && t0[q].0@ == pre[j];
                    assert(false);
                }
                assert forall|q: int| 0 <= q < p implies lt(#[trigger] t0[q], x) by {
                    assert(key_lt(t0[q].0@, k@));
                }
                lemma_insert_sorted(t0, p as int, x, lt);
            }
            t.insert(p, x);
            proof {
                assert(t@ == t0.insert(p as int, x));
                lemma_count_push(pre, k@, k@);
                assert forall|q: int| 0 <= q < t@.len() implies (#[trigger] t@[q]).1 == count_of(
                    ks.take(i + 1),
                    t@[q].0@,
                ) && t@[q].1 >= 1 by {
                    lemma_count_push(pre, k@, t@[q].0@);
                    if q < p {
                        assert(t@[q] == t0[q]);
                    } else if q > p {
                        assert(t@[q] == t0[q - 1]);
                    }
                }
                assert forall|j: int| 0 <= j < i + 1 implies has_key(t@, #[trigger] ks.take(i + 1)[j]) by {
                    if j < i {
                        assert(ks.take(i + 1)[j] == pre[j]);
                        assert(has_key(t0, pre[j]));
                        let q = choose|q: int| 0 <= q < t0.len() && t0[q].0@ == pre[j];
                        if q < p {
                            assert(t@[q] == t0[q]);
                        } else {
                            assert(t@[q + 1] == t0[q]);
                        }
                    } else {
                        assert(t@[p as int] == x);
                    }
                }
            }
        }
        i += 1;
    }
    assert(ks.take(keys@.len() as int) =~= ks);
    t
}

// ---------------------------------------------------------------------------
// Ranking by count
// ---------------------------------------------------------------------------

/// The order of a ranking: more first, then by key.
pub open spec fn ranks_before(a: (String, usize), b: (String, usize)) -> bool {
    a.1 > b.1 || (a.1 == b.1 && key_lt(a.0@, b.0@))
}

/// `r` counts `keys` (each distinct key once, with the number of times it
/// occurs), most frequent first, ties in key order: a tally sorted by
/// `Reverse(count)`, which keeps the key order among equals.
pub open spec fn ranked_tally(keys: Seq<Seq<char>>, r: Seq<(String, usize)>) -> bool {
    &&& sorted_by(r, |a: (String, usize), b: (String, usize)| ranks_before(a, b))
    &&& forall|p: int, q: int| 0 <= p < q < r.len() ==> (#[trigger] r[p]).0@ != (#[trigger] r[q]).0@
    &&& forall|p: int| 0 <= p < r.len() ==> (#[trigger] r[p]).1 == count_of(keys, r[p].0@) && r[p].1 >= 1
    &&& forall|j: int| 0 <= j < keys.len() ==> has_key(r, #[trigger] keys[j])
}

proof fn lemma_rank_order()
    ensures
        forall|a: (String, usize), b: (String, usize), c: (String, usize)|
            #[trigger] ranks_before(a, b) && #[trigger] ranks_before(b, c) ==> ranks_before(a, c),
{
    assert forall|a: (String, usize), b: (String, usize), c: (String, usize)|
        #[trigger] ranks_before(a, b) && #[trigger] ranks_before(b, c) implies ranks_before(a, c) by {
        if a.1 == b.1 && b.1 == c.1 {
            lemma_bytes_lt_transitive(encode_utf8(a.0@), encode_utf8(b.0@), encode_utf8(c.0@));
        }
    }
}

fn ranks_first(a: &(String, usize), b: &(String, usize)) -> (r: bool)
    ensures
        r == ranks_before(*a, *b),
{
    a.1 > b.1 || (a.1 == b.1 && text_before(a.0.as_str(), b.0.as_str()))
}

/// A tally, most frequent first.
fn rank(t: &Vec<(String, usize)>, Ghost(keys): Ghost<Seq<Seq<char>>>) -> (r: Vec<(String, usize)>)
    requires
        tallies(keys, t@),
    ensures
        ranked_tally(keys, r@),
{
    let ghost lt = |a: (String, usize), b: (String, usize)| ranks_before(a, b);
    proof {
        lemma_rank_order();
    }
    let mut r: Vec<(String, usize)> = Vec::new();
    let mut i: usize = 0;
    while i < t.len()
        invariant
            i <= t@.len(),
            tallies(keys, t@),
            lt == (|a: (String, usize), b: (String, usize)| ranks_before(a, b)),
            forall|a: (String, usize), b: (String, usize), c: (String, usize)|
                #[trigger] ranks_before(a, b) && #[trigger] ranks_before(b, c) ==> ranks_before(a, c),
            sorted_by(r@, lt),
            forall|p: int| 0 <= p < r@.len() ==> exists|q: int| 0 <= q < i && (#[trigger] r@[p]).0@ == t@[q].0@,
            forall|p: int, q: int| 0 <= p < q < r@.len() ==> (#[trigger] r@[p]).0@ != (#[trigger] r@[q]).0@,
            forall|p: int| 0 <= p < r@.len() ==> (#[trigger] r@[p]).1 == count_of(keys, r@[p].0@) && r@[p].1 >= 1,
            forall|q: int| 0 <= q < i ==> has_key(r@, #[trigger] t@[q].0@),
        decreases t@.len() - i,
    {
        let x = (t[i].0.clone(), t[i].1);
        let ghost r0 = r@;
        proof {
            assert(x.0@ == t@[i as int].0@);
            // Every key placed so far came earlier in `t`, so differs from `x`'s.
            assert forall|p: int| 0 <= p < r0.len() implies (#[trigger] r0[p]).0@ != x.0@ by {
                let q = choose|q: int| 0 <= q < i && (#[trigger] r0[p]).0@ == t@[q].0@;
                assert(pair_key_lt(t@[q], t@[i as int]));
                lemma_bytes_lt_irreflexive(encode_utf8(x.0@));
            }
        }
        let mut p: usize = 0;
        while p < r.len() && !ranks_first(&x, &r[p])
            invariant
                p <= r@.len(),
                r@ == r0,
                forall|q: int| 0 <= q < p ==> !ranks_before(x, #[trigger] r@[q]),
            decreases r@.len() - p,
        {
            p += 1;
        }
        proof {
            assert forall|q: int| 0 <= q < p implies lt(#[trigger] r0[q], x) by {
                assert(!ranks_before(x, r0[q]));
                assert(r0[q].0@ != x.0@);
                if encode_utf8(r0[q].0@) == encode_utf8(x.0@) {
                    crate::text::lemma_encode_injective(r0[q].0@, x.0@);
                }
                lemma_bytes_lt_total(encode_utf8(r0[q].0@), encode_utf8(x.0@));
            }
            lemma_insert_sorted(r0, p as int, x, lt);
        }
        r.insert(p, x);
        proof {
            assert(r@ == r0.insert(p as int, x));
            assert forall|a: int| 0 <= a < r@.len() implies exists|q: int|
                0 <= q < i + 1 && (#[trigger] r@[a]).0@ == t@[q].0@ by {
                if a < p {
                    assert(r@[a] == r0[a]);
                    let q = choose|q: int| 0 <= q < i && (#[trigger] r0[a]).0@ == t@[q].0@;
                } else if a > p {
                    assert(r@[a] == r0[a - 1]);
                    let q = choose|q: int| 0 <= q < i && (#[trigger] r0[a - 1]).0@ == t@[q].0@;
                } else {
                    assert(r@[a].0@ == t@[i as int].0@);
                }
            }
            assert forall|a: int, b: int| 0 <= a < b < r@.len() implies (#[trigger] r@[a]).0@ != (
            #[trigger] r@[b]).0@ by {
                if a < p && b < p {
                    assert(r@[a] == r0[a] && r@[b] == r0[b]);
                } else if a < p && b == p {
                    assert(r@[a] == r0[a]);
                } else if a < p {
                    assert(r@[a] == r0[a] && r@[b] == r0[b - 1]);
                } else if a == p {
                    assert(r@[b] == r0[b - 1]);
                } else {
                    assert(r@[a] == r0[a - 1] && r@[b] == r0[b - 1]);
                }
            }
            assert forall|a: int| 0 <= a < r@.len() implies (#[trigger] r@[a]).1 == count_of(keys, r@[a].0@)
                && r@[a].1 >= 1 by {
                if a < p {
                    assert(r@[a] == r0[a]);
                } else if a > p {
                    assert(r@[a] == r0[a - 1]);
                } else {
                    assert(r@[a] == x);
                    assert(t@[i as int].1 == count_of(keys, t@[i as int].0@));
                }
            }
            assert forall|q: int| 0 <= q < i + 1 implies has_key(r@, #[trigger] t@[q].0@) by {
                if q < i {
                    assert(has_key(r0, t@[q].0@));
                    let a = choose|a: int| 0 <= a < r0.len() && r0[a].0@ == t@[q].0@;
                    if a < p {
                        assert(r@[a] == r0[a]);
                    } else {
                        assert(r@[a + 1] == r0[a]);
                    }
                } else {
                    assert(r@[p as int] == x);
                }
            }
        }
        i += 1;
    }
    proof {
        assert forall|j: int| 0 <= j < keys.len() implies has_key(r@, #[trigger] keys[j]) by {
            assert(has_key(t@, keys[j]));
            let q = choose|q: int| 0 <= q < t@.len() && t@[q].0@ == keys[j];
            assert(has_key(r@, t@[q].0@));
        }
    }
    r
}

// ---------------------------------------------------------------------------
// What was deleted
// ---------------------------------------------------------------------------

/// One deletion the change journal remembers.
pub struct Deletion {
    /// The File Reference Number the deleted item had.
    pub frn: u64,
    /// The FRN of the folder it was in.
    pub parent_frn: u64,
    pub name: String,
    pub is_dir: bool,
    /// When it was deleted (Windows FILETIME).
    pub filetime: i64,
}

/// How many of the deletions were files.
pub open spec fn file_count(dels: Seq<Deletion>) -> nat
    decreases dels.len(),
{
    if dels.len() == 0 {
        0
    } else {
        file_count(dels.drop_last()) + if dels.last().is_dir {
            0nat
        } else {
            1nat
        }
    }
}

/// The hour of each deleted file, in journal order.
pub open spec fn file_hours(dels: Seq<Deletion>) -> Seq<Seq<char>>
    decreases dels.len(),
{
    if dels.len() == 0 {
        Seq::empty()
    } else if dels.last().is_dir {
        file_hours(dels.drop_last())
    } else {
        file_hours(dels.drop_last()).push(crate::audit::filetime_label(dels.last().filetime))
    }
}

/// The extension of each deleted file, in journal order.
pub open spec fn file_exts(dels: Seq<Deletion>) -> Seq<Seq<char>>
    decreases dels.len(),
{
    if dels.len() == 0 {
        Seq::empty()
    } else if dels.last().is_dir {
        file_exts(dels.drop_last())
    } else {
        file_exts(dels.drop_last()).push(ext_label(dels.last().name@))
    }
}

/// The name of each deleted file, in journal order.
pub open spec fn file_names(dels: Seq<Deletion>) -> Seq<Seq<char>>
    decreases dels.len(),
{
    if dels.len() == 0 {
        Seq::empty()
    } else if dels.last().is_dir {
        file_names(dels.drop_last())
    } else {
        file_names(dels.drop_last()).push(dels.last().name@)
    }
}

/// How many extensions the audit lists.
pub const TOP_EXTS: usize = 12;

/// How many folders, and deleted trees, the audit lists.
pub const TOP_DIRS: usize = 25;

/// How many deleted files the audit shows as examples.
pub const EXAMPLES: usize = 8;

/// What the journal says was deleted on one drive.
pub struct AuditSummary {
    /// Deleted media files.
    pub files: usize,
    /// Deleted folders.
    pub dirs: usize,
    /// Files deleted per hour, in time order: a mass deletion shows as a
    /// spike rather than a wall of lines.
    pub per_hour: Vec<(String, usize)>,
    /// The most common extensions among them, most first.
    pub per_ext: Vec<(String, usize)>,
    /// The first few files: name and hour.
    pub examples: Vec<(String, String)>,
}

/// The figures the audit prints for a drive's deletions, before folders.
pub fn summarize(dels: &[Deletion]) -> (r: AuditSummary)
    ensures
        r.files == file_count(dels@),
        r.dirs == dels@.len() - file_count(dels@),
        tallies(file_hours(dels@), r.per_hour@),
        exists|full: Seq<(String, usize)>|
            ranked_tally(file_exts(dels@), full) && r.per_ext@ == full.take(
                if full.len() < TOP_EXTS {
                    full.len() as int
                } else {
                    TOP_EXTS as int
                },
            ),
        r.examples@.len() == if file_count(dels@) < EXAMPLES {
            file_count(dels@) as int
        } else {
            EXAMPLES as int
        },
        forall|k: int|
            0 <= k < r.examples@.len() ==> (#[trigger] r.examples@[k]).0@ == file_names(dels@)[k]
                && r.examples@[k].1@ == file_hours(dels@)[k],
{
    let mut files: usize = 0;
    let mut hours: Vec<String> = Vec::new();
    let mut exts: Vec<String> = Vec::new();
    let mut examples: Vec<(String, String)> = Vec::new();
    let ghost mut names: Seq<Seq<char>> = Seq::empty();
    let mut i: usize = 0;
    while i < dels.len()
        invariant
            i <= dels@.len(),
            files == file_count(dels@.take(i as int)),
            files <= i,
            views(hours@) == file_hours(dels@.take(i as int)),
            views(exts@) == file_exts(dels@.take(i as int)),
            names == file_names(dels@.take(i as int)),
            names.len() == files,
            hours@.len() == files,
            examples@.len() == if files < EXAMPLES {
                files as int
            } else {
                EXAMPLES as int
            },
            forall|k: int|
                0 <= k < examples@.len() ==> (#[trigger] examples@[k]).0@ == names[k] && examples@[k].1@
                    == views(hours@)[k],
        decreases dels@.len() - i,
    {
        let d = &dels[i];
        let ghost pre = dels@.take(i as int);
        assert(dels@.take(i + 1).drop_last() =~= pre);
        assert(dels@.take(i + 1).last() == *d);
        if !d.is_dir {
            let hour = crate::audit::filetime_day(d.filetime);
            let ext = ext_of_name(d.name.as_str());
            let ghost h0 = hours@;
            let ghost e0 = exts@;
            let ghost x0 = examples@;
            if examples.len() < EXAMPLES {
                let h2 = hour.clone();
                examples.push((d.name.clone(), h2));
            }
            hours.push(hour);
            exts.push(ext);
            proof {
                assert(views(hours@) =~= views(h0).push(hours@[hours@.len() - 1]@));
                assert(views(exts@) =~= views(e0).push(exts@[exts@.len() - 1]@));
                names = names.push(d.name@);
                assert forall|k: int| 0 <= k < examples@.len() implies (#[trigger] examples@[k]).0@ == names[k]
                    && examples@[k].1@ == views(hours@)[k] by {
                    if k < x0.len() {
                        assert(examples@[k] == x0[k]);
                        assert(views(hours@)[k] == views(h0)[k]);
                    } else {
                        assert(k == h0.len());
                    }
                }
            }
            files += 1;
        }
        i += 1;
    }
    assert(dels@.take(dels@.len() as int) =~= dels@);
    let per_hour = tally(&hours);
    let by_ext = tally(&exts);
    let mut per_ext = rank(&by_ext, Ghost(views(exts@)));
    let ghost full = per_ext@;
    per_ext.truncate(TOP_EXTS);
    proof {
        lemma_file_count_le(dels@);
    }
    AuditSummary { files, dirs: dels.len() - files, per_hour, per_ext, examples }
}

proof fn lemma_file_count_le(dels: Seq<Deletion>)
    ensures
        file_count(dels) <= dels.len(),
    decreases dels.len(),
{
    if dels.len() > 0 {
        lemma_file_count_le(dels.drop_last());
    }
}

// ---------------------------------------------------------------------------
// Which folders lost files
// ---------------------------------------------------------------------------

/// The FRN the index records for directory `i` (0 when it has none).
pub open spec fn dir_frn_at(v: IndexView, i: int) -> u64 {
    if 0 <= i < v.dir_frns.len() {
        v.dir_frns[i]
    } else {
        0
    }
}

/// The last of the first `m` directories of the index on drive `letter`
/// with FRN `frn`.
pub open spec fn known_upto(v: IndexView, letter: u8, frn: u64, m: int) -> Option<int>
    decreases m,
{
    if m <= 0 {
        None
    } else if dir_frn_at(v, m - 1) == frn && volume_of_text(v.dirs[m - 1]) == upper_byte(letter) {
        Some(m - 1)
    } else {
        known_upto(v, letter, frn, m - 1)
    }
}

/// The folder of the index with FRN `frn` on drive `letter`, if it survived.
pub open spec fn known_dir(v: IndexView, letter: u8, frn: u64) -> Option<int> {
    known_upto(v, letter, frn, v.dirs.len() as int)
}

/// The last of the first `m` deleted folders with FRN `frn`.
pub open spec fn gone_upto(dels: Seq<Deletion>, frn: u64, m: int) -> Option<int>
    decreases m,
{
    if m <= 0 {
        None
    } else if dels[m - 1].is_dir && dels[m - 1].frn == frn {
        Some(m - 1)
    } else {
        gone_upto(dels, frn, m - 1)
    }
}

/// The deleted folder with FRN `frn`, if the journal has one.
pub open spec fn gone_dir(dels: Seq<Deletion>, frn: u64) -> Option<int> {
    gone_upto(dels, frn, dels.len() as int)
}

proof fn lemma_known_upto(v: IndexView, letter: u8, frn: u64, m: int)
    requires
        m <= v.dirs.len(),
    ensures
        known_upto(v, letter, frn, m) matches Some(i) ==> 0 <= i < m && dir_frn_at(v, i) == frn,
    decreases m,
{
    if m > 0 {
        lemma_known_upto(v, letter, frn, m - 1);
    }
}

proof fn lemma_gone_upto(dels: Seq<Deletion>, frn: u64, m: int)
    requires
        m <= dels.len(),
    ensures
        gone_upto(dels, frn, m) matches Some(j) ==> 0 <= j < m && dels[j].is_dir && dels[j].frn == frn,
    decreases m,
{
    if m > 0 {
        lemma_gone_upto(dels, frn, m - 1);
    }
}

/// The path of the folder with FRN `frn`, walking up through deleted
/// folders until one the index knows, for at most `fuel` steps.
pub open spec fn resolve_path(v: IndexView, letter: u8, dels: Seq<Deletion>, frn: u64, fuel: nat) -> Option<
    Seq<char>,
>
    decreases fuel,
{
    if fuel == 0 {
        None
    } else {
        match known_dir(v, letter, frn) {
            Some(i) => Some(v.dirs[i]),
            None => match gone_dir(dels, frn) {
                Some(j) => match resolve_path(v, letter, dels, dels[j].parent_frn, (fuel - 1) as nat) {
                    Some(p) => Some(p + seq!['\\'] + dels[j].name@),
                    None => None,
                },
                None => None,
            },
        }
    }
}

/// How many levels a folder path is walked up.
pub const MAX_DEPTH: u32 = 64;

/// The folder of each of the first `m` deleted files that could be named.
pub open spec fn file_dirs(v: IndexView, letter: u8, dels: Seq<Deletion>, m: int) -> Seq<Seq<char>>
    decreases m,
{
    if m <= 0 {
        Seq::empty()
    } else if dels[m - 1].is_dir {
        file_dirs(v, letter, dels, m - 1)
    } else {
        match resolve_path(v, letter, dels, dels[m - 1].parent_frn, MAX_DEPTH as nat) {
            Some(p) => file_dirs(v, letter, dels, m - 1).push(p),
            None => file_dirs(v, letter, dels, m - 1),
        }
    }
}

/// How many of the first `m` deleted files had a folder that could not be named.
pub open spec fn unnamed(v: IndexView, letter: u8, dels: Seq<Deletion>, m: int) -> nat
    decreases m,
{
    if m <= 0 {
        0
    } else if !dels[m - 1].is_dir && resolve_path(v, letter, dels, dels[m - 1].parent_frn, MAX_DEPTH as nat)
        is None {
        unnamed(v, letter, dels, m - 1) + 1
    } else {
        unnamed(v, letter, dels, m - 1)
    }
}

/// The top of each of the first `m` deleted trees: a deleted folder whose
/// own parent the index still knows, by its full path.
pub open spec fn deleted_roots(v: IndexView, letter: u8, dels: Seq<Deletion>, m: int) -> Seq<Seq<char>>
    decreases m,
{
    if m <= 0 {
        Seq::empty()
    } else if dels[m - 1].is_dir && known_dir(v, letter, dels[m - 1].parent_frn) is Some {
        deleted_roots(v, letter, dels, m - 1).push(
            v.dirs[known_dir(v, letter, dels[m - 1].parent_frn).unwrap()] + seq!['\\'] + dels[m - 1].name@,
        )
    } else {
        deleted_roots(v, letter, dels, m - 1)
    }
}

/// The folders that lost files, named from the index.
pub struct LostFolders {
    /// How many folders lost files.
    pub dir_total: usize,
    /// Those that lost most, most first.
    pub per_dir: Vec<(String, usize)>,
    /// Files whose folder could not be named.
    pub unknown: usize,
    /// The folders that were deleted whole (their parent is still there),
    /// in path order.
    pub roots: Vec<String>,
}

/// `known` maps each FRN of a surviving folder on the drive to its folder.
pub open spec fn knows(known: Map<u64, usize>, v: IndexView, letter: u8, m: int) -> bool {
    forall|f: u64|
        #![trigger known.contains_key(f)]
        (known.contains_key(f) <==> known_upto(v, letter, f, m) is Some) && (known.contains_key(f) ==> known[f]
            == known_upto(v, letter, f, m).unwrap())
}

/// `gone` maps each FRN of a deleted folder to its record.
pub open spec fn remembers(gone: Map<u64, usize>, dels: Seq<Deletion>, m: int) -> bool {
    forall|f: u64|
        #![trigger gone.contains_key(f)]
        (gone.contains_key(f) <==> gone_upto(dels, f, m) is Some) && (gone.contains_key(f) ==> gone[f]
            == gone_upto(dels, f, m).unwrap())
}

/// `a`, a backslash, and `b`.
fn join_backslash(a: &str, b: &str) -> (r: String)
    ensures
        r@ == a@ + seq!['\\'] + b@,
{
    let mut v = str_chars(a);
    v.push('\\');
    let w = str_chars(b);
    let ghost start = v@;
    let mut k: usize = 0;
    while k < w.len()
        invariant
            k <= w@.len(),
            v@ == start + w@.subrange(0, k as int),
        decreases w@.len() - k,
    {
        v.push(w[k]);
        assert(w@.subrange(0, k + 1) =~= w@.subrange(0, k as int).push(w@[k as int]));
        k += 1;
    }
    assert(w@.subrange(0, w@.len() as int) =~= w@);
    string_from_chars(v.as_slice())
}

fn resolve(
    ix: &Index,
    letter: u8,
    known: &HashMap<u64, usize>,
    gone: &HashMap<u64, usize>,
    dels: &[Deletion],
    frn: u64,
    fuel: u32,
) -> (r: Option<String>)
    requires
        knows(known@, ix.view(), letter, ix.view().dirs.len() as int),
        remembers(gone@, dels@, dels@.len() as int),
    ensures
        match r {
            Some(s) => resolve_path(ix.view(), letter, dels@, frn, fuel as nat) == Some(s@),
            None => resolve_path(ix.view(), letter, dels@, frn, fuel as nat) is None,
        },
    decreases fuel,
{
    if fuel == 0 {
        return None;
    }
    proof {
        assert(known@.contains_key(frn) <==> known_dir(ix.view(), letter, frn) is Some);
        lemma_known_upto(ix.view(), letter, frn, ix.view().dirs.len() as int);
        assert(gone@.contains_key(frn) <==> gone_dir(dels@, frn) is Some);
        lemma_gone_upto(dels@, frn, dels@.len() as int);
    }
    match known.get(&frn) {
        Some(i) => {
            let i = *i;
            Some(string_from_chars(str_chars(ix.dir_path(i)).as_slice()))
        },
        None => match gone.get(&frn) {
            Some(j) => {
                let j = *j;
                match resolve(ix, letter, known, gone, dels, dels[j].parent_frn, fuel - 1) {
                    Some(p) => Some(join_backslash(p.as_str(), dels[j].name.as_str())),
                    None => None,
                }
            },
            None => None,
        },
    }
}

/// Which folders the deletions on drive `letter` emptied, named from the
/// folders the index `ix` still knows and from the deleted folder records.
pub fn lost_folders(dels: &[Deletion], ix: &Index, letter: u8) -> (r: LostFolders)
    ensures
        ({
            let v = ix.view();
            let n = dels@.len() as int;
            &&& exists|full: Seq<(String, usize)>|
                ranked_tally(file_dirs(v, letter, dels@, n), full) && r.dir_total == full.len()
                    && r.per_dir@ == full.take(
                    if full.len() < TOP_DIRS {
                        full.len() as int
                    } else {
                        TOP_DIRS as int
                    },
                )
            &&& r.unknown == unnamed(v, letter, dels@, n)
            &&& exists|t: Seq<(String, usize)>|
                tallies(deleted_roots(v, letter, dels@, n), t) && views(r.roots@) == t.take(
                    if t.len() < TOP_DIRS {
                        t.len() as int
                    } else {
                        TOP_DIRS as int
                    },
                ).map_values(|e: (String, usize)| e.0@)
        }),
{
    let ghost v = ix.view();
    let up = crate::text::to_upper_byte(letter);
    // The folders that survived, by FRN.
    let mut known: HashMap<u64, usize> = HashMap::new();
    let nd = ix.dir_count();
    let mut i: usize = 0;
    while i < nd
        invariant
            nd == v.dirs.len(),
            v == ix.view(),
            up == upper_byte(letter),
            i <= nd,
            knows(known@, v, letter, i as int),
        decreases nd - i,
    {
        if ix.volume_of_dir(i) == up {
            let f = ix.dir_frn(i);
            known.insert(f, i);
        }
        proof {
            assert forall|f: u64| #![trigger known@.contains_key(f)]
                (known@.contains_key(f) <==> known_upto(v, letter, f, i + 1) is Some) && (known@.contains_key(f)
                    ==> known@[f] == known_upto(v, letter, f, i + 1).unwrap()) by {
            }
        }
        i += 1;
    }
    // The folders that were deleted too, by FRN.
    let mut gone: HashMap<u64, usize> = HashMap::new();
    let mut j: usize = 0;
    while j < dels.len()
        invariant
            j <= dels@.len(),
            remembers(gone@, dels@, j as int),
        decreases dels@.len() - j,
    {
        if dels[j].is_dir {
            gone.insert(dels[j].frn, j);
        }
        proof {
            assert forall|f: u64| #![trigger gone@.contains_key(f)]
                (gone@.contains_key(f) <==> gone_upto(dels@, f, j + 1) is Some) && (gone@.contains_key(f)
                    ==> gone@[f] == gone_upto(dels@, f, j + 1).unwrap()) by {
            }
        }
        j += 1;
    }
    let mut paths: Vec<String> = Vec::new();
    let mut roots: Vec<String> = Vec::new();
    let mut unknown: usize = 0;
    let mut k: usize = 0;
    while k < dels.len()
        invariant
            k <= dels@.len(),
            v == ix.view(),
            knows(known@, v, letter, v.dirs.len() as int),
            remembers(gone@, dels@, dels@.len() as int),
            views(paths@) == file_dirs(v, letter, dels@, k as int),
            views(roots@) == deleted_roots(v, letter, dels@, k as int),
            unknown == unnamed(v, letter, dels@, k as int),
            unknown <= k,
        decreases dels@.len() - k,
    {
        let d = &dels[k];
        if d.is_dir {
            proof {
                assert(known@.contains_key(d.parent_frn) <==> known_dir(v, letter, d.parent_frn) is Some);
                lemma_known_upto(v, letter, d.parent_frn, v.dirs.len() as int);
            }
            match known.get(&d.parent_frn) {
                Some(p) => {
                    let p = *p;
                    let root = join_backslash(ix.dir_path(p), d.name.as_str());
                    let ghost r0 = roots@;
                    roots.push(root);
                    assert(views(roots@) =~= views(r0).push(roots@[roots@.len() - 1]@));
                },
                None => {},
            }
        } else {
            match resolve(ix, letter, &known, &gone, dels, d.parent_frn, MAX_DEPTH) {
                Some(p) => {
                    let ghost p0 = paths@;
                    paths.push(p);
                    assert(views(paths@) =~= views(p0).push(paths@[paths@.len() - 1]@));
                },
                None => {
                    unknown += 1;
                },
            }
        }
        k += 1;
    }
    let by_dir = tally(&paths);
    let mut per_dir = rank(&by_dir, Ghost(views(paths@)));
    let dir_total = per_dir.len();
    let ghost full = per_dir@;
    per_dir.truncate(TOP_DIRS);
    let by_root = tally(&roots);
    let ghost t = by_root@;
    let mut root_list: Vec<String> = Vec::new();
    let mut q: usize = 0;
    while q < by_root.len() && q < TOP_DIRS
        invariant
            q <= by_root@.len(),
            q <= TOP_DIRS,
            by_root@ == t,
            views(root_list@) == t.take(q as int).map_values(|e: (String, usize)| e.0@),
        decreases by_root@.len() - q,
    {
        let ghost l0 = root_list@;
        root_list.push(by_root[q].0.clone());
        assert(t.take(q + 1).map_values(|e: (String, usize)| e.0@) =~= t.take(q as int).map_values(
            |e: (String, usize)| e.0@,
        ).push(t[q as int].0@));
        assert(views(root_list@) =~= views(l0).push(root_list@[root_list@.len() - 1]@));
        q += 1;
    }
    LostFolders { dir_total, per_dir, unknown, roots: root_list }
}

} // verus!
