//! The network drives mounted on this machine: their letters and the shares
//! they map.
//!
//! Both come from one listing of the volumes, so they never disagree: a
//! drive in the letters but missing from the map would be treated as network
//! (left out of a local-only scope) and grouped with the local disks at once.

use std::collections::BTreeMap;

use vstd::prelude::*;

use crate::text::{to_upper_char, upper_char};

verus! {

/// One mounted volume, as the system lists it.
#[derive(Debug, Clone)]
pub struct MountedVolume {
    pub letter: char,
    /// A mapped network drive.
    pub network: bool,
    /// The share it maps, for a network drive that says.
    pub remote: Option<String>,
}

/// The network drives mounted on this machine.
#[derive(Debug, Clone)]
pub struct OMang {
    /// Drive letters, uppercase. Empty: no network drive is mounted.
    pub chu: Vec<char>,
    /// Drive letter (uppercase) to UNC path, such as `\\192.168.1.213\share`.
    pub unc: BTreeMap<char, String>,
}

/// `BTreeMap::insert` on the drive-letter map: the letter now maps to `v`.
#[verifier::external_body]
fn map_letter(m: &mut BTreeMap<char, String>, k: char, v: String)
    ensures
        final(m)@ == old(m)@.insert(k, v),
{
    m.insert(k, v);
}

/// The network drives' letters, uppercased, in listing order.
pub open spec fn net_letters(vols: Seq<MountedVolume>) -> Seq<char>
    decreases vols.len(),
{
    if vols.len() == 0 {
        Seq::empty()
    } else if vols.last().network {
        net_letters(vols.drop_last()).push(upper_char(vols.last().letter))
    } else {
        net_letters(vols.drop_last())
    }
}

/// Each network drive's share, by uppercase letter; a later listing of a
/// letter wins.
pub open spec fn net_shares(vols: Seq<MountedVolume>) -> Map<char, Seq<char>>
    decreases vols.len(),
{
    if vols.len() == 0 {
        Map::empty()
    } else {
        let m = net_shares(vols.drop_last());
        let v = vols.last();
        if v.network && v.remote is Some {
            m.insert(upper_char(v.letter), v.remote.unwrap()@)
        } else {
            m
        }
    }
}

proof fn lemma_shares_have_letters(vols: Seq<MountedVolume>)
    ensures
        forall|c: char| #[trigger] net_shares(vols).contains_key(c) ==> net_letters(vols).contains(c),
        forall|k: int| 0 <= k < net_letters(vols).len() ==> upper_char(#[trigger] net_letters(vols)[k]) == net_letters(vols)[k],
    decreases vols.len(),
{
    if vols.len() > 0 {
        let d = vols.drop_last();
        lemma_shares_have_letters(d);
        let v = vols.last();
        let l = net_letters(d);
        if v.network {
            let u = upper_char(v.letter);
            assert(net_letters(vols) == l.push(u));
            assert forall|c: char| #[trigger] net_shares(vols).contains_key(c) implies net_letters(vols).contains(c) by {
                if c == u {
                    assert(net_letters(vols)[l.len() as int] == c);
                } else {
                    assert(net_shares(d).contains_key(c));
                    assert(l.contains(c));
                    let k = choose|k: int| 0 <= k < l.len() && l[k] == c;
                    assert(net_letters(vols)[k] == c);
                }
            }
            assert forall|k: int| 0 <= k < net_letters(vols).len() implies upper_char(#[trigger] net_letters(vols)[k])
                == net_letters(vols)[k] by {
                if k < l.len() {
                    assert(net_letters(vols)[k] == l[k]);
                }
            }
        } else {
            assert(net_letters(vols) == l);
            assert(net_shares(vols) == net_shares(d));
        }
    }
}

impl OMang {
    /// The network drives among `vols`.
    ///
    /// Every letter with a share is among the letters, and every letter is
    /// uppercase.
    pub fn tu_danh_sach(vols: &[MountedVolume]) -> (r: Self)
        ensures
            r.chu@ == net_letters(vols@),
            r.unc@.map_values(|s: String| s@) == net_shares(vols@),
            forall|c: char| #[trigger] r.unc@.contains_key(c) ==> r.chu@.contains(c),
            forall|k: int| 0 <= k < r.chu@.len() ==> upper_char(#[trigger] r.chu@[k]) == r.chu@[k],
    {
        let mut chu: Vec<char> = Vec::new();
        let mut unc: BTreeMap<char, String> = BTreeMap::new();
        let mut i: usize = 0;
        while i < vols.len()
            invariant
                i <= vols@.len(),
                chu@ == net_letters(vols@.subrange(0, i as int)),
                unc@.map_values(|s: String| s@) == net_shares(vols@.subrange(0, i as int)),
            decreases vols@.len() - i,
        {
            assert(vols@.subrange(0, i + 1).drop_last() =~= vols@.subrange(0, i as int));
            let v = &vols[i];
            if v.network {
                let c = to_upper_char(v.letter);
                chu.push(c);
                match &v.remote {
                    Some(r) => {
                        let ghost before = unc@;
                        let share = r.clone();
                        map_letter(&mut unc, c, share);
                        assert(unc@.map_values(|s: String| s@) =~= before.map_values(|s: String| s@).insert(c, r@));
                    },
                    None => {},
                }
            }
            i += 1;
        }
        assert(vols@.subrange(0, vols@.len() as int) =~= vols@);
        proof {
            lemma_shares_have_letters(vols@);
            assert forall|c: char| #[trigger] unc@.contains_key(c) implies chu@.contains(c) by {
                assert(unc@.map_values(|s: String| s@).contains_key(c));
            }
        }
        OMang { chu, unc }
    }
}

} // verus!
