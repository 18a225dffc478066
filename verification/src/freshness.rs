//! How stale the index is: what the "no results" screen needs to tell the
//! truth.
//!
//! One sentence for every empty result blames the user for four different
//! situations. What separates "a new file the index has not seen" from "a
//! mistyped name" is how old the index is, per kind of drive: local drives are
//! rescanned daily, so an old stamp there is a real signal, while network
//! drives have no journal and an old stamp is normal.

use vstd::prelude::*;

use crate::text::{to_upper_char, string_of_char, upper_char};

verus! {

/// One drive in the index, and how many media files it holds.
#[derive(Debug, Clone, PartialEq, Eq)]
pub struct VolumeFreshness {
    /// `"D"` or `"Y"`.
    pub letter: String,
    /// A mapped network drive, or a disk in the machine.
    pub network: bool,
    /// Media files of this drive in the index.
    pub file_count: usize,
}

/// How stale the index is, split by kind of drive.
#[derive(Debug, Clone, PartialEq, Eq)]
pub struct Freshness {
    /// Last scan, Unix seconds. `0` means there is no index yet.
    pub built_at_unix: i64,
    /// Local drives.
    pub local: Vec<VolumeFreshness>,
    /// Mounted network drives that **are in the index**.
    pub network: Vec<VolumeFreshness>,
    /// Mounted network drives the index has never heard of.
    pub unscanned_network: Vec<String>,
}

/// Two drive letters name the same drive, case aside.
pub open spec fn same_letter(a: char, b: char) -> bool {
    upper_char(a) == upper_char(b)
}

/// `c` is one of the mounted network drives.
pub open spec fn is_net(mounted: Seq<char>, c: char) -> bool {
    exists|i: int| 0 <= i < mounted.len() && same_letter(mounted[i], c)
}

/// The drives among `stamps` on the given side (network or local), in order,
/// as (uppercase letter, network, file count).
pub open spec fn drives_on(stamps: Seq<(char, usize)>, mounted: Seq<char>, network: bool) -> Seq<(Seq<char>, bool, usize)>
    decreases stamps.len(),
{
    if stamps.len() == 0 {
        seq![]
    } else {
        let prev = drives_on(stamps.drop_last(), mounted, network);
        let (c, n) = stamps.last();
        if is_net(mounted, c) == network {
            prev.push((seq![upper_char(c)], network, n))
        } else {
            prev
        }
    }
}

/// Mounted network drives with no stamp at all, uppercased, in order.
pub open spec fn unscanned(stamps: Seq<(char, usize)>, mounted: Seq<char>) -> Seq<Seq<char>>
    decreases mounted.len(),
{
    if mounted.len() == 0 {
        seq![]
    } else {
        let prev = unscanned(stamps, mounted.drop_last());
        let n = mounted.last();
        if exists|i: int| 0 <= i < stamps.len() && same_letter(stamps[i].0, n) {
            prev
        } else {
            prev.push(seq![upper_char(n)])
        }
    }
}

pub open spec fn volume_view(v: VolumeFreshness) -> (Seq<char>, bool, usize) {
    (v.letter@, v.network, v.file_count)
}

fn letter_in(mounted: &[char], c: char) -> (r: bool)
    ensures
        r == is_net(mounted@, c),
{
    let cu = to_upper_char(c);
    let mut i: usize = 0;
    while i < mounted.len()
        invariant
            i <= mounted@.len(),
            cu == upper_char(c),
            forall|j: int| 0 <= j < i ==> !same_letter(mounted@[j], c),
        decreases mounted@.len() - i,
    {
        if to_upper_char(mounted[i]) == cu {
            return true;
        }
        i += 1;
    }
    false
}

fn stamped(stamps: &[(char, usize)], n: char) -> (r: bool)
    ensures
        r == exists|i: int| 0 <= i < stamps@.len() && same_letter(stamps@[i].0, n),
{
    let nu = to_upper_char(n);
    let mut i: usize = 0;
    while i < stamps.len()
        invariant
            i <= stamps@.len(),
            nu == upper_char(n),
            forall|j: int| 0 <= j < i ==> !same_letter(stamps@[j].0, n),
        decreases stamps@.len() - i,
    {
        if to_upper_char(stamps[i].0) == nu {
            return true;
        }
        i += 1;
    }
    false
}

/// Build the answer from raw data.
///
/// * `stamps`: `(letter, file count)` counted **from the index itself**.
/// * `mounted_network`: letters of the mounted network drives.
///
/// A network drive with files in the index is scanned, however few; one with
/// none is reported as never scanned.
pub fn build(built_at_unix: i64, stamps: &[(char, usize)], mounted_network: &[char]) -> (r: Freshness)
    ensures
        r.built_at_unix == built_at_unix,
        r.local@.map_values(|v: VolumeFreshness| volume_view(v)) == drives_on(stamps@, mounted_network@, false),
        r.network@.map_values(|v: VolumeFreshness| volume_view(v)) == drives_on(stamps@, mounted_network@, true),
        r.unscanned_network@.map_values(|s: String| s@) == unscanned(stamps@, mounted_network@),
{
    let mut local: Vec<VolumeFreshness> = Vec::new();
    let mut network: Vec<VolumeFreshness> = Vec::new();
    let mut i: usize = 0;
    while i < stamps.len()
        invariant
            i <= stamps@.len(),
            local@.map_values(|v: VolumeFreshness| volume_view(v)) == drives_on(stamps@.subrange(0, i as int), mounted_network@, false),
            network@.map_values(|v: VolumeFreshness| volume_view(v)) == drives_on(stamps@.subrange(0, i as int), mounted_network@, true),
        decreases stamps@.len() - i,
    {
        let (letter, file_count) = stamps[i];
        let net = letter_in(mounted_network, letter);
        let v = VolumeFreshness { letter: string_of_char(to_upper_char(letter)), network: net, file_count };
        assert(stamps@.subrange(0, i + 1).drop_last() =~= stamps@.subrange(0, i as int));
        if net {
            network.push(v);
        } else {
            local.push(v);
        }
        assert(local@.map_values(|v: VolumeFreshness| volume_view(v)) =~= drives_on(stamps@.subrange(0, i + 1), mounted_network@, false));
        assert(network@.map_values(|v: VolumeFreshness| volume_view(v)) =~= drives_on(stamps@.subrange(0, i + 1), mounted_network@, true));
        i += 1;
    }
    assert(stamps@.subrange(0, stamps@.len() as int) =~= stamps@);
    let mut uns: Vec<String> = Vec::new();
    let mut j: usize = 0;
    while j < mounted_network.len()
        invariant
            j <= mounted_network@.len(),
            uns@.map_values(|s: String| s@) == unscanned(stamps@, mounted_network@.subrange(0, j as int)),
        decreases mounted_network@.len() - j,
    {
        let n = mounted_network[j];
        assert(mounted_network@.subrange(0, j + 1).drop_last() =~= mounted_network@.subrange(0, j as int));
        if !stamped(stamps, n) {
            uns.push(string_of_char(to_upper_char(n)));
        }
        assert(uns@.map_values(|s: String| s@) =~= unscanned(stamps@, mounted_network@.subrange(0, j + 1)));
        j += 1;
    }
    assert(mounted_network@.subrange(0, mounted_network@.len() as int) =~= mounted_network@);
    Freshness { built_at_unix, local, network, unscanned_network: uns }
}

} // verus!
