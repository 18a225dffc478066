//! Byte and character helpers shared by the parsers and the index.

use vstd::prelude::*;
use vstd::string::StringSliceAdditionalSpecFns;
use vstd::utf8::{encode_utf8, valid_utf8};

verus! {

/// ASCII lowercase of one byte; every other byte is left alone.
pub open spec fn lower_byte(b: u8) -> u8 {
    if 65 <= b <= 90 { (b + 32) as u8 } else { b }
}

/// ASCII uppercase of one byte; every other byte is left alone.
pub open spec fn upper_byte(b: u8) -> u8 {
    if 97 <= b <= 122 { (b - 32) as u8 } else { b }
}

/// ASCII lowercase of one character; every other character is left alone.
pub open spec fn lower_char(c: char) -> char {
    if 'A' <= c <= 'Z' { ((c as u32) + 32) as char } else { c }
}

/// ASCII uppercase of one character; every other character is left alone.
pub open spec fn upper_char(c: char) -> char {
    if 'a' <= c <= 'z' { ((c as u32) - 32) as char } else { c }
}

pub open spec fn lower_bytes(s: Seq<u8>) -> Seq<u8> {
    s.map_values(|b: u8| lower_byte(b))
}

pub open spec fn lower_chars(s: Seq<char>) -> Seq<char> {
    s.map_values(|c: char| lower_char(c))
}

/// Two byte strings that are equal once ASCII case is ignored.
pub open spec fn eq_ignore_case(a: Seq<u8>, b: Seq<u8>) -> bool {
    lower_bytes(a) == lower_bytes(b)
}

/// Two character strings that are equal once ASCII case is ignored.
pub open spec fn chars_eq_ignore_case(a: Seq<char>, b: Seq<char>) -> bool {
    lower_chars(a) == lower_chars(b)
}

/// The last position holding `c`, if any.
pub open spec fn rfind_byte(b: Seq<u8>, c: u8) -> Option<int>
    decreases b.len(),
{
    if b.len() == 0 {
        None
    } else if b.last() == c {
        Some(b.len() - 1)
    } else {
        rfind_byte(b.drop_last(), c)
    }
}

pub fn to_lower_byte(b: u8) -> (r: u8)
    ensures
        r == lower_byte(b),
{
    if 65 <= b && b <= 90 { b + 32 } else { b }
}

pub fn to_upper_byte(b: u8) -> (r: u8)
    ensures
        r == upper_byte(b),
{
    if 97 <= b && b <= 122 { b - 32 } else { b }
}

pub fn to_lower_char(c: char) -> (r: char)
    ensures
        r == lower_char(c),
{
    if 'A' <= c && c <= 'Z' {
        let u: u32 = c as u32;
        assert(65 <= u <= 90);
        ((u + 32) as u8) as char
    } else {
        c
    }
}

pub fn to_upper_char(c: char) -> (r: char)
    ensures
        r == upper_char(c),
{
    if 'a' <= c && c <= 'z' {
        let u: u32 = c as u32;
        ((u - 32) as u8) as char
    } else {
        c
    }
}

/// The last position of `c` really holds `c`, and nothing after it does.
pub proof fn lemma_rfind_byte(b: Seq<u8>, c: u8)
    ensures
        match rfind_byte(b, c) {
            Some(i) => 0 <= i < b.len() && b[i] == c && forall|j: int| i < j < b.len() ==> b[j] != c,
            None => forall|j: int| 0 <= j < b.len() ==> b[j] != c,
        },
    decreases b.len(),
{
    if b.len() > 0 && b.last() != c {
        lemma_rfind_byte(b.drop_last(), c);
        assert forall|j: int| 0 <= j < b.len() - 1 implies b.drop_last()[j] == b[j] by {}
    }
}

proof fn lemma_rfind_prefix(b: Seq<u8>, c: u8, i: int)
    requires
        0 <= i < b.len(),
        b[i] != c,
    ensures
        rfind_byte(b.subrange(0, i + 1), c) == rfind_byte(b.subrange(0, i), c),
{
    assert(b.subrange(0, i + 1).drop_last() =~= b.subrange(0, i));
}

/// Position of the last `c` in `b`.
pub fn rfind(b: &[u8], c: u8) -> (r: Option<usize>)
    ensures
        match r {
            Some(i) => rfind_byte(b@, c) == Some(i as int),
            None => rfind_byte(b@, c) is None,
        },
        r matches Some(i) ==> i < b.len() && b@[i as int] == c,
{
    proof {
        lemma_rfind_byte(b@, c);
    }
    let mut i: usize = b.len();
    assert(b@.subrange(0, i as int) =~= b@);
    while i > 0
        invariant
            i <= b.len(),
            rfind_byte(b@, c) == rfind_byte(b@.subrange(0, i as int), c),
        decreases i,
    {
        if b[i - 1] == c {
            return Some(i - 1);
        }
        proof {
            lemma_rfind_prefix(b@, c, i - 1);
        }
        i -= 1;
    }
    None
}

/// Byte-for-byte equality of two slices.
pub fn bytes_eq(a: &[u8], b: &[u8]) -> (r: bool)
    ensures
        r == (a@ == b@),
{
    if a.len() != b.len() {
        return false;
    }
    let mut i: usize = 0;
    while i < a.len()
        invariant
            a.len() == b.len(),
            i <= a.len(),
            forall|j: int| 0 <= j < i ==> a@[j] == b@[j],
        decreases a.len() - i,
    {
        if a[i] != b[i] {
            return false;
        }
        i += 1;
    }
    assert(a@ =~= b@);
    true
}

/// `String::push`: appends one character.
#[verifier::external_body]
pub(crate) fn string_push(s: &mut String, c: char)
    ensures
        final(s)@ == old(s)@.push(c),
{
    s.push(c);
}

/// `char::to_string`: a string of the one character.
#[verifier::external_body]
pub(crate) fn string_of_char(c: char) -> (r: String)
    ensures
        r@ == seq![c],
{
    c.to_string()
}

/// `str::to_string`: an owned copy.
#[verifier::external_body]
pub(crate) fn string_of_str(s: &str) -> (r: String)
    ensures
        r@ == s@,
{
    s.to_string()
}

/// `String::clear`: empties the string, keeping its allocation.
#[verifier::external_body]
pub(crate) fn string_clear(s: &mut String)
    ensures
        final(s)@ == Seq::<char>::empty(),
{
    s.clear();
}

/// `String::push_str`: appends a whole string.
#[verifier::external_body]
pub(crate) fn string_push_str(s: &mut String, t: &str)
    ensures
        final(s)@ == old(s)@ + t@,
{
    s.push_str(t);
}

/// `str::chars`, collected: the characters of `s`, in order.
#[verifier::external_body]
pub(crate) fn str_chars(s: &str) -> (r: Vec<char>)
    ensures
        r@ == s@,
{
    s.chars().collect()
}

/// A `String` holding exactly the given characters (`FromIterator<char>`).
#[verifier::external_body]
pub(crate) fn string_from_chars(v: &[char]) -> (r: String)
    ensures
        r@ == v@,
{
    v.iter().collect()
}

/// `std::str::from_utf8`: the bytes read as text, when they are valid UTF-8.
#[verifier::external_body]
pub(crate) fn str_from_utf8(b: &[u8]) -> (r: Option<&str>)
    ensures
        r is Some <==> valid_utf8(b@),
        r matches Some(s) ==> s.spec_bytes() == b@,
{
    std::str::from_utf8(b).ok()
}

/// Whether `a` and `b` are the same text once ASCII case is ignored.
pub fn chars_eq_ci(a: &[char], b: &[char]) -> (r: bool)
    ensures
        r == chars_eq_ignore_case(a@, b@),
{
    if a.len() != b.len() {
        assert(lower_chars(a@).len() != lower_chars(b@).len());
        return false;
    }
    let mut k: usize = 0;
    while k < a.len()
        invariant
            a@.len() == b@.len(),
            k <= a@.len(),
            forall|q: int| 0 <= q < k ==> lower_chars(a@)[q] == lower_chars(b@)[q],
        decreases a@.len() - k,
    {
        if to_lower_char(a[k]) != to_lower_char(b[k]) {
            assert(lower_chars(a@)[k as int] != lower_chars(b@)[k as int]);
            return false;
        }
        k += 1;
    }
    assert(lower_chars(a@) =~= lower_chars(b@));
    true
}

/// The ASCII lowercase of `a`, every other character left alone.
pub fn lower_vec(a: &[char]) -> (r: Vec<char>)
    ensures
        r@ == lower_chars(a@),
{
    let mut out: Vec<char> = Vec::new();
    let mut k: usize = 0;
    while k < a.len()
        invariant
            k <= a@.len(),
            out@ == lower_chars(a@.subrange(0, k as int)),
        decreases a@.len() - k,
    {
        out.push(to_lower_char(a[k]));
        assert(lower_chars(a@.subrange(0, k + 1)) =~= lower_chars(a@.subrange(0, k as int)).push(lower_char(a@[k as int])));
        k += 1;
    }
    assert(a@.subrange(0, a@.len() as int) =~= a@);
    out
}

/// The character of decimal digit `d`.
pub open spec fn digit_char(d: nat) -> char {
    ((48 + d) as u32) as char
}

/// The decimal digits of `n`, most significant first, without leading zeros.
pub open spec fn decimal(n: nat) -> Seq<char>
    decreases n,
{
    if n < 10 {
        seq![digit_char(n)]
    } else {
        decimal(n / 10).push(digit_char(n % 10))
    }
}

/// `n` in decimal, zero-padded on the left to at least `w` characters.
pub open spec fn padded(n: nat, w: nat) -> Seq<char> {
    let d = decimal(n);
    if d.len() >= w {
        d
    } else {
        Seq::new((w - d.len()) as nat, |i: int| '0') + d
    }
}

/// Append the decimal digits of `n`.
pub fn push_decimal(out: &mut Vec<char>, n: u64)
    ensures
        final(out)@ == old(out)@ + decimal(n as nat),
    decreases n,
{
    if n >= 10 {
        push_decimal(out, n / 10);
    }
    let d: u8 = (n % 10) as u8;
    out.push((48 + d) as char);
    proof {
        if n >= 10 {
            assert(decimal(n as nat) == decimal((n / 10) as nat).push(digit_char((n % 10) as nat)));
        }
    }
    assert(final(out)@ =~= old(out)@ + decimal(n as nat));
}

/// Append `n` in decimal, zero-padded to at least `w` characters.
pub fn push_padded(out: &mut Vec<char>, n: u64, w: usize)
    ensures
        final(out)@ == old(out)@ + padded(n as nat, w as nat),
{
    let mut digits: Vec<char> = Vec::new();
    push_decimal(&mut digits, n);
    assert(digits@ =~= decimal(n as nat));
    let len = digits.len();
    let ghost start = out@;
    if len < w {
        let mut k: usize = 0;
        while k < w - len
            invariant
                len < w,
                k <= w - len,
                out@ == start + Seq::new(k as nat, |i: int| '0'),
            decreases w - len - k,
        {
            out.push('0');
            assert(Seq::new((k + 1) as nat, |i: int| '0') =~= Seq::new(k as nat, |i: int| '0').push('0'));
            k += 1;
        }
    }
    let ghost mid = out@;
    let mut k: usize = 0;
    while k < len
        invariant
            len == digits@.len(),
            k <= len,
            out@ == mid + digits@.subrange(0, k as int),
        decreases len - k,
    {
        out.push(digits[k]);
        assert(digits@.subrange(0, k + 1) =~= digits@.subrange(0, k as int).push(digits@[k as int]));
        k += 1;
    }
    proof {
        assert(digits@.subrange(0, len as int) =~= digits@);
        if len < w {
            assert(out@ =~= start + (Seq::new((w - len) as nat, |i: int| '0') + decimal(n as nat)));
        } else {
            assert(out@ =~= start + decimal(n as nat));
        }
    }
}

/// Append the characters of `s`.
pub fn push_str_chars(out: &mut Vec<char>, s: &str)
    ensures
        final(out)@ == old(out)@ + s@,
{
    let w = str_chars(s);
    let ghost start = out@;
    let mut k: usize = 0;
    while k < w.len()
        invariant
            k <= w@.len(),
            w@ == s@,
            out@ == start + w@.subrange(0, k as int),
        decreases w@.len() - k,
    {
        out.push(w[k]);
        assert(w@.subrange(0, k + 1) =~= w@.subrange(0, k as int).push(w@[k as int]));
        k += 1;
    }
    assert(w@.subrange(0, w@.len() as int) =~= w@);
}

/// Byte-wise lexicographic order, a proper prefix first: the order of
/// `str`'s and `String`'s comparison.
pub open spec fn bytes_lt(a: Seq<u8>, b: Seq<u8>) -> bool
    decreases a.len(),
{
    if a.len() == 0 {
        b.len() > 0
    } else if b.len() == 0 {
        false
    } else if a[0] != b[0] {
        a[0] < b[0]
    } else {
        bytes_lt(a.drop_first(), b.drop_first())
    }
}

/// Whether `a` comes before `b` in byte-wise lexicographic order.
pub fn bytes_before(a: &[u8], b: &[u8]) -> (r: bool)
    ensures
        r == bytes_lt(a@, b@),
{
    let mut i: usize = 0;
    assert(a@.subrange(0, a@.len() as int) =~= a@);
    assert(b@.subrange(0, b@.len() as int) =~= b@);
    while i < a.len() && i < b.len()
        invariant
            i <= a@.len(),
            i <= b@.len(),
            a@.subrange(0, i as int) == b@.subrange(0, i as int),
            bytes_lt(a@, b@) == bytes_lt(a@.subrange(i as int, a@.len() as int), b@.subrange(i as int, b@.len() as int)),
        decreases a@.len() - i,
    {
        let x = a[i];
        let y = b[i];
        proof {
            let sa = a@.subrange(i as int, a@.len() as int);
            let sb = b@.subrange(i as int, b@.len() as int);
            assert(sa[0] == x && sb[0] == y);
            assert(sa.drop_first() =~= a@.subrange(i + 1, a@.len() as int));
            assert(sb.drop_first() =~= b@.subrange(i + 1, b@.len() as int));
        }
        if x != y {
            return x < y;
        }
        assert(a@.subrange(0, i + 1) =~= a@.subrange(0, i as int).push(x));
        assert(b@.subrange(0, i + 1) =~= b@.subrange(0, i as int).push(y));
        i += 1;
    }
    proof {
        let sa = a@.subrange(i as int, a@.len() as int);
        let sb = b@.subrange(i as int, b@.len() as int);
        if i == a.len() {
            assert(sa.len() == 0);
        } else {
            assert(sb.len() == 0);
        }
    }
    i == a.len() && i < b.len()
}

/// Nothing comes before itself in byte order.
pub proof fn lemma_bytes_lt_irreflexive(a: Seq<u8>)
    ensures
        !bytes_lt(a, a),
    decreases a.len(),
{
    if a.len() > 0 {
        lemma_bytes_lt_irreflexive(a.drop_first());
    }
}

/// Byte order is transitive.
pub proof fn lemma_bytes_lt_transitive(a: Seq<u8>, b: Seq<u8>, c: Seq<u8>)
    requires
        bytes_lt(a, b),
        bytes_lt(b, c),
    ensures
        bytes_lt(a, c),
    decreases a.len(),
{
    if a.len() > 0 && b.len() > 0 && c.len() > 0 && a[0] == b[0] && b[0] == c[0] {
        lemma_bytes_lt_transitive(a.drop_first(), b.drop_first(), c.drop_first());
    }
}

/// Two different byte strings are ordered one way or the other.
pub proof fn lemma_bytes_lt_total(a: Seq<u8>, b: Seq<u8>)
    requires
        a != b,
    ensures
        bytes_lt(a, b) || bytes_lt(b, a),
    decreases a.len(),
{
    if a.len() > 0 && b.len() > 0 && a[0] == b[0] {
        if a.drop_first() == b.drop_first() {
            assert(a.drop_first().len() == b.drop_first().len());
            assert(a.len() == b.len());
            assert forall|i: int| 0 <= i < a.len() implies a[i] == b[i] by {
                if i > 0 {
                    assert(a[i] == a.drop_first()[i - 1]);
                    assert(b[i] == b.drop_first()[i - 1]);
                }
            }
            assert(a =~= b);
        }
        lemma_bytes_lt_total(a.drop_first(), b.drop_first());
    } else if a.len() == 0 && b.len() == 0 {
        assert(a =~= b);
    }
}

/// Texts with the same UTF-8 encoding are the same text.
pub proof fn lemma_encode_injective(a: Seq<char>, b: Seq<char>)
    requires
        encode_utf8(a) == encode_utf8(b),
    ensures
        a == b,
{
    vstd::utf8::encode_utf8_decode_utf8(a);
    vstd::utf8::encode_utf8_decode_utf8(b);
}

/// Whether two strings are the same text.
pub fn same_text(a: &str, b: &str) -> (r: bool)
    ensures
        r == (a@ == b@),
{
    let e = bytes_eq(a.as_bytes(), b.as_bytes());
    proof {
        if e {
            lemma_encode_injective(a@, b@);
        }
    }
    e
}

/// Whether `a` sorts before `b` as `str` does: byte-wise.
pub fn text_before(a: &str, b: &str) -> (r: bool)
    ensures
        r == bytes_lt(encode_utf8(a@), encode_utf8(b@)),
{
    bytes_before(a.as_bytes(), b.as_bytes())
}

/// `a` followed by `b`, as a new string.
pub fn concat_str(a: &str, b: &str) -> (r: String)
    ensures
        r@ == a@ + b@,
{
    let mut v = str_chars(a);
    let w = str_chars(b);
    let mut k: usize = 0;
    let ghost start = v@;
    while k < w.len()
        invariant
            k <= w@.len(),
            v@ == start + w@.subrange(0, k as int),
        decreases w@.len() - k,
    {
        v.push(w[k]);
        assert(w@.subrange(0, k + 1) =~= w@.subrange(0, k as int).push(w@[k as int]));
        k += 1;
    }
    assert(w@.subrange(0, w@.len() as int) =~= w@);
    string_from_chars(v.as_slice())
}

/// Whether `a` and `b` are the same characters.
pub fn chars_equal(a: &[char], b: &[char]) -> (r: bool)
    ensures
        r == (a@ == b@),
{
    if a.len() != b.len() {
        return false;
    }
    let mut k: usize = 0;
    while k < a.len()
        invariant
            a@.len() == b@.len(),
            k <= a@.len(),
            forall|q: int| 0 <= q < k ==> a@[q] == b@[q],
        decreases a@.len() - k,
    {
        if a[k] != b[k] {
            return false;
        }
        k += 1;
    }
    assert(a@ =~= b@);
    true
}

/// The last path separator (`\\` or `/`) in `b`.
pub open spec fn rfind_sep(b: Seq<u8>) -> Option<int>
    decreases b.len(),
{
    if b.len() == 0 {
        None
    } else if b.last() == 92 || b.last() == 47 {
        Some(b.len() - 1)
    } else {
        rfind_sep(b.drop_last())
    }
}

/// The final component of a path, as bytes.
pub open spec fn file_name_of(b: Seq<u8>) -> Seq<u8> {
    match rfind_sep(b) {
        Some(p) => b.subrange(p + 1, b.len() as int),
        None => b,
    }
}

/// The extension of a path under Windows path rules: the text after the last
/// dot of its final component, unless that dot starts the name (`.bashrc`) or
/// the component is `..`.
pub open spec fn ext_of(b: Seq<u8>) -> Option<Seq<u8>> {
    let name = file_name_of(b);
    if name =~= seq![46u8, 46u8] {
        None
    } else {
        match rfind_byte(name, 46) {
            None => None,
            Some(d) => if d == 0 { None } else { Some(name.subrange(d + 1, name.len() as int)) },
        }
    }
}

proof fn lemma_rfind_sep_prefix(b: Seq<u8>, i: int)
    requires
        0 <= i < b.len(),
        b[i] != 92 && b[i] != 47,
    ensures
        rfind_sep(b.subrange(0, i + 1)) == rfind_sep(b.subrange(0, i)),
{
    assert(b.subrange(0, i + 1).drop_last() =~= b.subrange(0, i));
}

pub proof fn lemma_rfind_sep(b: Seq<u8>)
    ensures
        rfind_sep(b) matches Some(p) ==> 0 <= p < b.len(),
    decreases b.len(),
{
    if b.len() > 0 && b.last() != 92 && b.last() != 47 {
        lemma_rfind_sep(b.drop_last());
    }
}

/// The extension of `path`, lowercased (ASCII), if it has one.
pub fn file_ext_lower(path: &str) -> (r: Option<Vec<u8>>)
    ensures
        match ext_of(path.spec_bytes()) {
            Some(e) => r matches Some(v) && v@ == lower_bytes(e),
            None => r is None,
        },
{
    let b = path.as_bytes();
    let mut i: usize = b.len();
    assert(b@.subrange(0, i as int) =~= b@);
    while i > 0 && b[i - 1] != 92 && b[i - 1] != 47
        invariant
            i <= b.len(),
            rfind_sep(b@) == rfind_sep(b@.subrange(0, i as int)),
        decreases i,
    {
        proof {
            lemma_rfind_sep_prefix(b@, i - 1);
        }
        i -= 1;
    }
    proof {
        if i > 0 {
            assert(b@.subrange(0, i as int).last() == b@[i - 1]);
        } else {
            assert(b@.subrange(0, 0) =~= Seq::<u8>::empty());
        }
    }
    let start = i;
    let ghost name = b@.subrange(start as int, b@.len() as int);
    assert(name == file_name_of(b@));
    let n = b.len() - start;
    if n == 2 && b[start] == 46 && b[start + 1] == 46 {
        assert(name =~= seq![46u8, 46u8]);
        return None;
    }
    let mut j: usize = b.len();
    assert(name.subrange(0, (j - start) as int) =~= name);
    while j > start && b[j - 1] != 46
        invariant
            start <= j <= b.len(),
            name == b@.subrange(start as int, b@.len() as int),
            rfind_byte(name, 46) == rfind_byte(name.subrange(0, (j - start) as int), 46),
        decreases j,
    {
        proof {
            assert(name.subrange(0, (j - start) as int).drop_last() =~= name.subrange(0, (j - 1 - start) as int));
        }
        j -= 1;
    }
    if j == start {
        assert(name.subrange(0, 0) =~= Seq::<u8>::empty());
        return None;
    }
    let d = j - 1 - start;
    assert(rfind_byte(name, 46) == Some(d as int));
    if d == 0 {
        return None;
    }
    let mut out: Vec<u8> = Vec::new();
    let mut k: usize = j;
    while k < b.len()
        invariant
            j <= k <= b.len(),
            out@ == lower_bytes(b@.subrange(j as int, k as int)),
        decreases b.len() - k,
    {
        out.push(to_lower_byte(b[k]));
        assert(lower_bytes(b@.subrange(j as int, k + 1)) =~= lower_bytes(b@.subrange(j as int, k as int)).push(lower_byte(b@[k as int])));
        k += 1;
    }
    assert(name.subrange(d + 1, name.len() as int) =~= b@.subrange(j as int, b@.len() as int));
    Some(out)
}

/// What `str::to_lowercase` gives for a text: the full Unicode lowercase,
/// context rules included.
pub uninterp spec fn str_lowercase(s: Seq<char>) -> Seq<char>;

/// `str::to_lowercase`.
#[verifier::external_body]
pub(crate) fn lowercase_of(s: &str) -> (r: String)
    ensures
        r@ == str_lowercase(s@),
{
    s.to_lowercase()
}

} // verus!
