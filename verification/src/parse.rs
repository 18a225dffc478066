//! Small text parsers: trimming, splitting and reading decimal numbers, with
//! the rules the standard library's `str::trim` and `u64::from_str` follow.

use vstd::prelude::*;

verus! {

/// Unicode `White_Space`, the characters `str::trim` removes.
pub open spec fn is_ws(c: char) -> bool {
    let u = c as u32;
    (0x09 <= u <= 0x0D) || u == 0x20 || u == 0x85 || u == 0xA0 || u == 0x1680 || (0x2000 <= u <= 0x200A)
        || u == 0x2028 || u == 0x2029 || u == 0x202F || u == 0x205F || u == 0x3000
}

pub fn is_whitespace(c: char) -> (r: bool)
    ensures
        r == is_ws(c),
{
    let u: u32 = c as u32;
    (0x09 <= u && u <= 0x0D) || u == 0x20 || u == 0x85 || u == 0xA0 || u == 0x1680 || (0x2000 <= u && u
        <= 0x200A) || u == 0x2028 || u == 0x2029 || u == 0x202F || u == 0x205F || u == 0x3000
}

pub open spec fn trim_start(s: Seq<char>) -> Seq<char>
    decreases s.len(),
{
    if s.len() > 0 && is_ws(s[0]) {
        trim_start(s.drop_first())
    } else {
        s
    }
}

pub open spec fn trim_end(s: Seq<char>) -> Seq<char>
    decreases s.len(),
{
    if s.len() > 0 && is_ws(s.last()) {
        trim_end(s.drop_last())
    } else {
        s
    }
}

/// Whitespace removed from both ends.
pub open spec fn trim(s: Seq<char>) -> Seq<char> {
    trim_end(trim_start(s))
}

proof fn lemma_trim_start_from(s: Seq<char>, i: int)
    requires
        0 <= i < s.len(),
        is_ws(s[i]),
    ensures
        trim_start(s.subrange(i, s.len() as int)) == trim_start(s.subrange(i + 1, s.len() as int)),
{
    assert(s.subrange(i, s.len() as int).drop_first() =~= s.subrange(i + 1, s.len() as int));
}

proof fn lemma_trim_end_to(s: Seq<char>, j: int)
    requires
        0 < j <= s.len(),
        is_ws(s[j - 1]),
    ensures
        trim_end(s.subrange(0, j)) == trim_end(s.subrange(0, j - 1)),
{
    assert(s.subrange(0, j).drop_last() =~= s.subrange(0, j - 1));
}

/// `s` with whitespace removed from both ends.
pub fn trim_chars(s: &Vec<char>) -> (r: Vec<char>)
    ensures
        r@ == trim(s@),
{
    let mut i: usize = 0;
    assert(s@.subrange(0, s@.len() as int) =~= s@);
    while i < s.len() && is_whitespace(s[i])
        invariant
            i <= s@.len(),
            trim_start(s@) == trim_start(s@.subrange(i as int, s@.len() as int)),
        decreases s@.len() - i,
    {
        proof {
            lemma_trim_start_from(s@, i as int);
        }
        i += 1;
    }
    let ghost mid = s@.subrange(i as int, s@.len() as int);
    proof {
        if i < s@.len() {
            assert(mid[0] == s@[i as int]);
        }
        assert(trim_start(mid) == mid);
    }
    let mut j: usize = s.len();
    assert(mid.subrange(0, mid.len() as int) =~= mid);
    while j > i && is_whitespace(s[j - 1])
        invariant
            i <= j <= s@.len(),
            mid == s@.subrange(i as int, s@.len() as int),
            trim_end(mid) == trim_end(mid.subrange(0, (j - i) as int)),
        decreases j,
    {
        proof {
            lemma_trim_end_to(mid, (j - i) as int);
        }
        j -= 1;
    }
    proof {
        if j > i {
            assert(mid.subrange(0, (j - i) as int).last() == s@[j - 1]);
        }
    }
    let mut out: Vec<char> = Vec::new();
    let mut k: usize = i;
    while k < j
        invariant
            i <= k <= j,
            j <= s@.len(),
            out@ == s@.subrange(i as int, k as int),
        decreases j - k,
    {
        out.push(s[k]);
        assert(s@.subrange(i as int, k + 1) =~= s@.subrange(i as int, k as int).push(s@[k as int]));
        k += 1;
    }
    assert(mid.subrange(0, (j - i) as int) =~= s@.subrange(i as int, j as int));
    out
}

/// The value of a run of ASCII decimal digits.
pub open spec fn digits_value(d: Seq<char>) -> nat
    decreases d.len(),
{
    if d.len() == 0 {
        0
    } else {
        digits_value(d.drop_last()) * 10 + ((d.last() as u32) - 48) as nat
    }
}

pub open spec fn all_digits(d: Seq<char>) -> bool {
    forall|i: int| 0 <= i < d.len() ==> '0' <= #[trigger] d[i] <= '9'
}

/// An unsigned decimal number no larger than `max`, as `str::parse` reads
/// one: an optional `+`, then one or more ASCII digits, nothing else.
pub open spec fn parse_unsigned(s: Seq<char>, max: nat) -> Option<nat> {
    let d = if s.len() > 0 && s[0] == '+' { s.drop_first() } else { s };
    if d.len() == 0 || !all_digits(d) || digits_value(d) > max {
        None
    } else {
        Some(digits_value(d))
    }
}

/// Read `s[from..]` as an unsigned number no larger than `max`.
pub fn parse_u64_chars(s: &Vec<char>, from: usize, max: u64) -> (r: Option<u64>)
    requires
        from <= s@.len(),
    ensures
        match parse_unsigned(s@.subrange(from as int, s@.len() as int), max as nat) {
            Some(v) => r == Some(v as u64),
            None => r is None,
        },
{
    let ghost t = s@.subrange(from as int, s@.len() as int);
    let mut i: usize = from;
    if i < s.len() && s[i] == '+' {
        i += 1;
    }
    let ghost d = s@.subrange(i as int, s@.len() as int);
    assert(d == (if t.len() > 0 && t[0] == '+' { t.drop_first() } else { t }));
    if i == s.len() {
        assert(d.len() == 0);
        return None;
    }
    let start = i;
    let mut v: u64 = 0;
    while i < s.len()
        invariant
            start <= i <= s@.len(),
            t == s@.subrange(from as int, s@.len() as int),
            d == (if t.len() > 0 && t[0] == '+' { t.drop_first() } else { t }),
            d == s@.subrange(start as int, s@.len() as int),
            all_digits(s@.subrange(start as int, i as int)),
            v as nat == digits_value(s@.subrange(start as int, i as int)),
            v <= max,
        decreases s@.len() - i,
    {
        let c = s[i];
        assert(s@.subrange(start as int, i + 1).drop_last() =~= s@.subrange(start as int, i as int));
        if c < '0' || c > '9' {
            assert(d[i - start] == c);
            assert(!all_digits(d));
            return None;
        }
        let digit: u64 = (c as u32 - 48) as u64;
        if digit > max || v > (max - digit) / 10 {
            proof {
                assert(digits_value(s@.subrange(start as int, i + 1)) == v * 10 + digit);
                assert(v * 10 + digit > max) by (nonlinear_arith)
                    requires
                        digit > max || v > (max - digit) / 10,
                        digit <= 9,
                ;
                assert(s@.subrange(start as int, i + 1) =~= d.subrange(0, (i + 1 - start) as int));
                if all_digits(d) {
                    lemma_digits_prefix_le(d, (i + 1 - start) as int);
                }
            }
            return None;
        }
        v = v * 10 + digit;
        i += 1;
    }
    assert(s@.subrange(start as int, i as int) =~= d);
    Some(v)
}

/// A longer run of digits is worth at least as much as its prefix.
proof fn lemma_digits_prefix_le(d: Seq<char>, n: int)
    requires
        0 <= n <= d.len(),
        all_digits(d),
    ensures
        digits_value(d.subrange(0, n)) <= digits_value(d),
    decreases d.len() - n,
{
    if n < d.len() {
        lemma_digits_prefix_le(d, n + 1);
        assert(d.subrange(0, n + 1).drop_last() =~= d.subrange(0, n));
        assert('0' <= d[n] <= '9');
    } else {
        assert(d.subrange(0, n) =~= d);
    }
}

/// The first position of `c` in `s`.
pub open spec fn find_char(s: Seq<char>, c: char) -> Option<int>
    decreases s.len(),
{
    if s.len() == 0 {
        None
    } else if s[0] == c {
        Some(0)
    } else {
        match find_char(s.drop_first(), c) {
            Some(p) => Some(p + 1),
            None => None,
        }
    }
}

pub proof fn lemma_find_char(s: Seq<char>, c: char)
    ensures
        match find_char(s, c) {
            Some(p) => 0 <= p < s.len() && s[p] == c && forall|q: int| 0 <= q < p ==> s[q] != c,
            None => forall|q: int| 0 <= q < s.len() ==> s[q] != c,
        },
    decreases s.len(),
{
    if s.len() > 0 && s[0] != c {
        lemma_find_char(s.drop_first(), c);
        assert forall|q: int| 1 <= q < s.len() implies s[q] == s.drop_first()[q - 1] by {}
    }
}

/// Position of the first `c` at or after `from`.
pub fn find_char_from(s: &Vec<char>, c: char, from: usize) -> (r: Option<usize>)
    requires
        from <= s@.len(),
    ensures
        match find_char(s@.subrange(from as int, s@.len() as int), c) {
            Some(p) => r == Some((from + p) as usize),
            None => r is None,
        },
        r matches Some(k) ==> from <= k < s@.len() && s@[k as int] == c,
{
    let ghost t = s@.subrange(from as int, s@.len() as int);
    proof {
        lemma_find_char(t, c);
    }
    let mut i: usize = from;
    while i < s.len()
        invariant
            from <= i <= s@.len(),
            t == s@.subrange(from as int, s@.len() as int),
            forall|q: int| from <= q < i ==> s@[q] != c,
        decreases s@.len() - i,
    {
        if s[i] == c {
            assert(t[i - from] == c);
            proof {
                lemma_find_char(t, c);
                match find_char(t, c) {
                    Some(p) => {
                        if p < i - from {
                            assert(t[p] == s@[from + p]);
                        }
                    },
                    None => {},
                }
            }
            return Some(i);
        }
        i += 1;
    }
    proof {
        if let Some(p) = find_char(t, c) {
            assert(t[p] == s@[from + p]);
        }
    }
    None
}

/// `s[from..from + p.len()]` spells `p`.
pub open spec fn has_at(s: Seq<char>, from: int, p: Seq<char>) -> bool {
    from + p.len() <= s.len() && s.subrange(from, from + p.len()) == p
}

pub fn starts_with_at(s: &Vec<char>, from: usize, p: &str) -> (r: bool)
    requires
        from <= s@.len(),
    ensures
        r == has_at(s@, from as int, p@),
{
    let pc = crate::text::str_chars(p);
    if pc.len() > s.len() - from {
        return false;
    }
    assert(from + pc@.len() <= s@.len());
    let n = s.len();
    let mut k: usize = 0;
    while k < pc.len()
        invariant
            n == s@.len(),
            k <= pc@.len(),
            pc@ == p@,
            from + pc@.len() <= s@.len(),
            forall|q: int| 0 <= q < k ==> s@[from + q] == pc@[q],
        decreases pc@.len() - k,
    {
        assert(from + k < s@.len());
        if s[from + k] != pc[k] {
            assert(s@.subrange(from as int, from + p@.len())[k as int] != p@[k as int]);
            return false;
        }
        k += 1;
    }
    assert(s@.subrange(from as int, from + p@.len()) =~= p@);
    true
}

/// The characters `v[a..b]`.
pub fn sub_vec(v: &Vec<char>, a: usize, b: usize) -> (r: Vec<char>)
    requires
        a <= b <= v@.len(),
    ensures
        r@ == v@.subrange(a as int, b as int),
{
    let mut out: Vec<char> = Vec::new();
    let mut k: usize = a;
    while k < b
        invariant
            a <= k <= b,
            b <= v@.len(),
            out@ == v@.subrange(a as int, k as int),
        decreases b - k,
    {
        out.push(v[k]);
        assert(v@.subrange(a as int, k + 1) =~= v@.subrange(a as int, k as int).push(v@[k as int]));
        k += 1;
    }
    out
}

/// The items `v[a..b]`, copied.
pub fn copy_range<T: Copy>(v: &[T], a: usize, b: usize) -> (r: Vec<T>)
    requires
        a <= b <= v@.len(),
    ensures
        r@ == v@.subrange(a as int, b as int),
{
    let mut out: Vec<T> = Vec::new();
    let mut k: usize = a;
    while k < b
        invariant
            a <= k <= b,
            b <= v@.len(),
            out@ == v@.subrange(a as int, k as int),
        decreases b - k,
    {
        out.push(v[k]);
        assert(v@.subrange(a as int, k + 1) =~= v@.subrange(a as int, k as int).push(v@[k as int]));
        k += 1;
    }
    out
}

} // verus!
