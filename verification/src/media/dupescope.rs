//! Which drives a duplicate scan covers, and how much work that is, counted
//! before the scan starts.
//!
//! Scanning a network drive costs the NAS the whole studio works from, so the
//! person pressing the button is told what they are choosing. The first stage
//! of the scan (grouping by size) reads nothing from disk: the index already
//! holds every size. So the count shown is exact: how many files would have
//! to be opened on local drives and how many on network drives. No minutes
//! are guessed.

use std::collections::HashMap;

use vstd::prelude::*;

use crate::index::model::{Index, IndexView};
use crate::text::{lower_byte, string_push, to_lower_byte, to_upper_byte, upper_byte};

verus! {

broadcast use vstd::std_specs::hash::group_hash_axioms;

/// Below this size a file is not worth reporting as a duplicate: thousands of
/// icons and thumbnails share a size, and reclaiming space is the point.
pub const MIN_INTERESTING_SIZE: u64 = 64 * 1024;

/// Which drives to scan.
#[derive(Debug, Clone, Copy, PartialEq, Eq, Structural)]
pub enum DupeScope {
    /// Only the machine's own disks. The NAS is not touched.
    LocalOnly,
    /// Network drives too.
    Everything,
}

impl Default for DupeScope {
    /// Nothing reads the NAS until someone agrees to it.
    fn default() -> (r: Self)
        ensures
            r == DupeScope::LocalOnly,
    {
        DupeScope::LocalOnly
    }
}

/// How many files would have to be opened, by kind of drive. A count, not an
/// estimate: the first stage reads only the index.
#[derive(Debug, Clone, PartialEq, Eq)]
pub struct ScopeEstimate {
    /// Candidate files on the machine's own disks.
    pub local_files: usize,
    /// Candidate files on network drives.
    pub network_files: usize,
    /// The network drives holding candidates, as `"Y:"`, sorted.
    pub network_drives: Vec<String>,
}

impl ScopeEstimate {
    /// Whether there is a network drive worth asking about. A question with
    /// only one right answer is a question too many.
    pub fn has_network(&self) -> (r: bool)
        ensures
            r == (self.network_files > 0),
    {
        self.network_files > 0
    }

    /// How many files a given scope opens.
    pub fn files_for(&self, scope: DupeScope) -> (r: usize)
        requires
            scope == DupeScope::Everything ==> self.local_files + self.network_files <= usize::MAX,
        ensures
            r == match scope {
                DupeScope::LocalOnly => self.local_files as int,
                DupeScope::Everything => self.local_files + self.network_files,
            },
    {
        match scope {
            DupeScope::LocalOnly => self.local_files,
            DupeScope::Everything => self.local_files + self.network_files,
        }
    }
}

/// The low byte of a drive letter, as the comparison with a volume byte
/// reads it.
pub open spec fn letter_byte(c: char) -> u8 {
    ((c as u32) % 256) as u8
}

/// Volume byte `v` is one of the mounted network drives. A mapped network
/// drive looks exactly like a local disk in the index (`Y:\…`); only this
/// list tells them apart.
pub open spec fn on_network(net_letters: Seq<char>, v: u8) -> bool {
    v != 0 && exists|k: int| 0 <= k < net_letters.len() && lower_byte(letter_byte(#[trigger] net_letters[k])) == lower_byte(v)
}

fn is_net(net_letters: &[char], v: u8) -> (r: bool)
    ensures
        r == on_network(net_letters@, v),
{
    if v == 0 {
        return false;
    }
    let lv = to_lower_byte(v);
    let mut k: usize = 0;
    while k < net_letters.len()
        invariant
            k <= net_letters@.len(),
            v != 0,
            lv == lower_byte(v),
            forall|q: int| 0 <= q < k ==> lower_byte(letter_byte(net_letters@[q])) != lower_byte(v),
        decreases net_letters@.len() - k,
    {
        let b = ((net_letters[k] as u32) % 256) as u8;
        if to_lower_byte(b) == lv {
            assert(b == letter_byte(net_letters@[k as int]));
            return true;
        }
        k += 1;
    }
    false
}

/// How many entries have sizes known.
pub open spec fn sized(ix: IndexView) -> int {
    if ix.sizes.len() < ix.len() {
        ix.sizes.len() as int
    } else {
        ix.len() as int
    }
}

/// How many of the first `n` entries have size `s`.
pub open spec fn size_count(ix: IndexView, s: u64, n: int) -> nat
    decreases n,
{
    if n <= 0 {
        0
    } else {
        size_count(ix, s, n - 1) + if ix.sizes[n - 1] == s {
            1nat
        } else {
            0nat
        }
    }
}

/// Entry `i` survives the first stage: large enough, and sharing its size
/// with at least one other file.
pub open spec fn candidate(ix: IndexView, i: int) -> bool {
    &&& 0 <= i < sized(ix)
    &&& ix.sizes[i] >= MIN_INTERESTING_SIZE
    &&& size_count(ix, ix.sizes[i], sized(ix)) >= 2
}

/// How many of the first `n` entries are candidates on (or off) the network.
pub open spec fn count_candidates(ix: IndexView, net_letters: Seq<char>, network: bool, n: int) -> nat
    decreases n,
{
    if n <= 0 {
        0
    } else {
        count_candidates(ix, net_letters, network, n - 1) + if candidate(ix, n - 1) && on_network(
            net_letters,
            ix.volume(n - 1),
        ) == network {
            1nat
        } else {
            0nat
        }
    }
}

/// Some candidate lies on network drive `b`.
pub open spec fn drive_has_candidates(ix: IndexView, net_letters: Seq<char>, b: u8) -> bool {
    on_network(net_letters, b) && exists|i: int| candidate(ix, i) && ix.volume(i) == b
}

/// How a drive is named to the user: its letter, uppercased, and a colon.
pub open spec fn drive_label(b: u8) -> Seq<char> {
    seq![(upper_byte(b) as u32) as char, ':']
}

/// The labels of the network drives holding candidates, among the volume
/// bytes below `n`, in ascending order.
pub open spec fn drive_labels(ix: IndexView, net_letters: Seq<char>, n: int) -> Seq<Seq<char>>
    decreases n,
{
    if n <= 0 {
        Seq::empty()
    } else {
        let r = drive_labels(ix, net_letters, n - 1);
        if drive_has_candidates(ix, net_letters, (n - 1) as u8) {
            r.push(drive_label((n - 1) as u8))
        } else {
            r
        }
    }
}

proof fn lemma_count_bound(ix: IndexView, net_letters: Seq<char>, network: bool, n: int)
    requires
        0 <= n,
    ensures
        count_candidates(ix, net_letters, network, n) <= n,
    decreases n,
{
    if n > 0 {
        lemma_count_bound(ix, net_letters, network, n - 1);
    }
}

proof fn lemma_size_count_bound(ix: IndexView, s: u64, n: int)
    requires
        0 <= n,
    ensures
        size_count(ix, s, n) <= n,
    decreases n,
{
    if n > 0 {
        lemma_size_count_bound(ix, s, n - 1);
    }
}

/// Count the first-stage candidates, split by kind of drive.
///
/// `net_letters` are the letters of the mounted network drives.
pub fn estimate(index: &Index, net_letters: &[char]) -> (r: ScopeEstimate)
    ensures
        r.local_files == count_candidates(index@, net_letters@, false, sized(index@)),
        r.network_files == count_candidates(index@, net_letters@, true, sized(index@)),
        r.network_drives@.map_values(|s: String| s@) == drive_labels(index@, net_letters@, 256),
{
    let ghost ix = index@;
    let n = index.len();
    let sizes = index.sizes();
    let m = if sizes.len() < n { sizes.len() } else { n };
    assert(m == sized(ix));

    // How many files share each size worth looking at.
    let mut counts: HashMap<u64, usize> = HashMap::new();
    let mut i: usize = 0;
    while i < m
        invariant
            m == sized(ix),
            m <= sizes@.len(),
            sizes@ == ix.sizes,
            i <= m,
            forall|s: u64|
                s >= MIN_INTERESTING_SIZE ==> (#[trigger] counts@.contains_key(s) <==> size_count(ix, s, i as int) > 0),
            forall|s: u64| #[trigger] counts@.contains_key(s) ==> counts@[s] == size_count(ix, s, i as int),
            forall|s: u64| #[trigger] counts@.contains_key(s) ==> s >= MIN_INTERESTING_SIZE,
        decreases m - i,
    {
        let s = sizes[i];
        proof {
            lemma_size_count_bound(ix, s, i as int);
        }
        if s >= MIN_INTERESTING_SIZE {
            let c = match counts.get(&s) {
                Some(c) => *c,
                None => 0,
            };
            counts.insert(s, c + 1);
        }
        proof {
            assert forall|x: u64| #[trigger] counts@.contains_key(x) implies counts@[x] == size_count(ix, x, i + 1) by {
                assert(size_count(ix, x, i + 1) == size_count(ix, x, i as int) + if ix.sizes[i as int] == x {
                    1nat
                } else {
                    0nat
                });
            }
            assert forall|x: u64| x >= MIN_INTERESTING_SIZE implies (#[trigger] counts@.contains_key(x) <==> size_count(ix, x, i + 1) > 0) by {
                assert(size_count(ix, x, i + 1) == size_count(ix, x, i as int) + if ix.sizes[i as int] == x {
                    1nat
                } else {
                    0nat
                });
            }
        }
        i += 1;
    }

    let mut local: usize = 0;
    let mut network: usize = 0;
    let mut present: Vec<bool> = Vec::new();
    let mut b: usize = 0;
    while b < 256
        invariant
            b <= 256,
            present@.len() == b,
            forall|x: int| 0 <= x < b ==> !present@[x],
        decreases 256 - b,
    {
        present.push(false);
        b += 1;
    }
    let mut i: usize = 0;
    while i < m
        invariant
            m == sized(ix),
            m <= sizes@.len(),
            sizes@ == ix.sizes,
            ix == index@,
            ix.consistent(),
            m <= ix.len(),
            i <= m,
            forall|s: u64|
                s >= MIN_INTERESTING_SIZE ==> (#[trigger] counts@.contains_key(s) <==> size_count(ix, s, m as int) > 0),
            forall|s: u64| #[trigger] counts@.contains_key(s) ==> counts@[s] == size_count(ix, s, m as int),
            local == count_candidates(ix, net_letters@, false, i as int),
            network == count_candidates(ix, net_letters@, true, i as int),
            present@.len() == 256,
            forall|x: int|
                0 <= x < 256 ==> (#[trigger] present@[x] <==> on_network(net_letters@, x as u8) && exists|k: int|
                    0 <= k < i && candidate(ix, k) && ix.volume(k) == x as u8),
        decreases m - i,
    {
        proof {
            lemma_count_bound(ix, net_letters@, false, i as int);
            lemma_count_bound(ix, net_letters@, true, i as int);
        }
        let s = sizes[i];
        let shared = s >= MIN_INTERESTING_SIZE && match counts.get(&s) {
            Some(c) => *c >= 2,
            None => false,
        };
        assert(shared == candidate(ix, i as int));
        if shared {
            let v = index.volume_of(i);
            if is_net(net_letters, v) {
                network += 1;
                present.set(v as usize, true);
            } else {
                local += 1;
            }
        }
        proof {
            assert forall|x: int|
                0 <= x < 256 implies (#[trigger] present@[x] <==> on_network(net_letters@, x as u8) && exists|k: int|
                    0 <= k < i + 1 && candidate(ix, k) && ix.volume(k) == x as u8) by {
                if present@[x] && !(exists|k: int| 0 <= k < i && candidate(ix, k) && ix.volume(k) == x as u8) {
                    assert(candidate(ix, i as int) && ix.volume(i as int) == x as u8);
                }
            }
        }
        i += 1;
    }

    let mut drives: Vec<String> = Vec::new();
    let mut b: usize = 0;
    while b < 256
        invariant
            b <= 256,
            m == sized(ix),
            present@.len() == 256,
            forall|x: int|
                0 <= x < 256 ==> (#[trigger] present@[x] <==> on_network(net_letters@, x as u8) && exists|k: int|
                    0 <= k < m && candidate(ix, k) && ix.volume(k) == x as u8),
            drives@.map_values(|s: String| s@) == drive_labels(ix, net_letters@, b as int),
        decreases 256 - b,
    {
        proof {
            let x = b as int;
            assert(present@[x] == drive_has_candidates(ix, net_letters@, x as u8));
        }
        if present[b] {
            let u = to_upper_byte(b as u8);
            let mut label = String::new();
            string_push(&mut label, u as char);
            string_push(&mut label, ':');
            assert(label@ =~= drive_label(b as u8));
            let ghost before = drives@;
            drives.push(label);
            assert(drives@.map_values(|s: String| s@) =~= before.map_values(|s: String| s@).push(drive_label(b as u8)));
        }
        b += 1;
    }
    ScopeEstimate { local_files: local, network_files: network, network_drives: drives }
}

/// Whether entry `i` falls inside the chosen scope.
pub fn in_scope(index: &Index, i: u32, scope: DupeScope, net_letters: &[char]) -> (r: bool)
    requires
        scope == DupeScope::LocalOnly ==> (i as int) < index@.len(),
    ensures
        r == match scope {
            DupeScope::Everything => true,
            DupeScope::LocalOnly => !on_network(net_letters@, index@.volume(i as int)),
        },
{
    match scope {
        DupeScope::Everything => true,
        DupeScope::LocalOnly => {
            let v = index.volume_of(i as usize);
            !is_net(net_letters, v)
        },
    }
}

} // verus!
