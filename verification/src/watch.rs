//! What `--watch` prints for each change the journal reports.

use vstd::prelude::*;

use crate::index::update::Change;
use crate::text::{decimal, push_decimal, push_str_chars, string_from_chars};

verus! {

/// The line that describes one change: the drive, what happened, the
/// reference numbers and, for an entry that exists, its name.
pub open spec fn change_line(c: Change) -> Seq<char> {
    match c {
        Change::Gone { volume, frn } => seq![volume as char, ':', ' ', 'X', 'O', 'Á', ' ', ' ', ' ', ' ', ' ', ' ']
            + seq!['f', 'r', 'n', '='] + decimal(frn as nat),
        Change::Present { volume, frn, parent_frn, name, is_dir } => seq![volume as char, ':', ' '] + (if is_dir {
            seq!['T', 'H', 'Ư', ' ', 'M', 'Ụ', 'C', ' ']
        } else {
            seq!['C', 'Ó', ' ', 'M', 'Ặ', 'T', ' ', ' ']
        }) + seq![' ', 'f', 'r', 'n', '='] + decimal(frn as nat) + seq![' ', 'c', 'h', 'a', '=']
            + decimal(parent_frn as nat) + seq![' '] + name@,
    }
}

fn push_all(out: &mut Vec<char>, cs: &[char])
    ensures
        final(out)@ == old(out)@ + cs@,
{
    let ghost start = out@;
    let mut k: usize = 0;
    while k < cs.len()
        invariant
            k <= cs@.len(),
            out@ == start + cs@.subrange(0, k as int),
        decreases cs@.len() - k,
    {
        out.push(cs[k]);
        assert(cs@.subrange(0, k + 1) =~= cs@.subrange(0, k as int).push(cs@[k as int]));
        k += 1;
    }
    assert(cs@.subrange(0, cs@.len() as int) =~= cs@);
}

/// One change, as the watch prints it.
pub fn describe(c: &Change) -> (r: String)
    ensures
        r@ == change_line(*c),
{
    let mut out: Vec<char> = Vec::new();
    match c {
        Change::Gone { volume, frn } => {
            let head = [*volume as char, ':', ' ', 'X', 'O', 'Á', ' ', ' ', ' ', ' ', ' ', ' ', 'f', 'r', 'n', '='];
            push_all(&mut out, head.as_slice());
            push_decimal(&mut out, *frn);
            assert(out@ =~= change_line(*c));
        },
        Change::Present { volume, frn, parent_frn, name, is_dir } => {
            let head = [*volume as char, ':', ' '];
            push_all(&mut out, head.as_slice());
            if *is_dir {
                push_all(&mut out, ['T', 'H', 'Ư', ' ', 'M', 'Ụ', 'C', ' '].as_slice());
            } else {
                push_all(&mut out, ['C', 'Ó', ' ', 'M', 'Ặ', 'T', ' ', ' '].as_slice());
            }
            push_all(&mut out, [' ', 'f', 'r', 'n', '='].as_slice());
            push_decimal(&mut out, *frn);
            push_all(&mut out, [' ', 'c', 'h', 'a', '='].as_slice());
            push_decimal(&mut out, *parent_frn);
            out.push(' ');
            push_str_chars(&mut out, name.as_str());
            assert(out@ =~= change_line(*c));
        },
    }
    string_from_chars(out.as_slice())
}

} // verus!
