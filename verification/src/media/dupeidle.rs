//! Scanning local drives for duplicates while the machine is idle.
//!
//! Network drives are never scanned in the background: twenty to forty
//! machines reading the NAS every morning is the cost this avoids. The scan
//! starts only when enrichment is done, no query has arrived for a while, and
//! no other scan is running; it yields the moment the user types.

use vstd::prelude::*;

use crate::media::dupescope::DupeScope;

verus! {

/// How long without a query before the machine counts as idle: ten minutes.
pub const YEN_LANG_SECS: u64 = 10 * 60;

/// How often the conditions are checked: thirty seconds.
pub const NHIP_SECS: u64 = 30;

/// Whether the background scan may start now.
///
/// * `bat`: the feature is on.
/// * `da_xong`: it already ran this session.
/// * `enrich_xong`: enrichment has finished.
/// * `dang_quet`: a scan (duplicates or index) is running.
/// * `giay_yen`: seconds since the last query.
pub fn du_dieu_kien(bat: bool, da_xong: bool, enrich_xong: bool, dang_quet: bool, giay_yen: u64) -> (r: bool)
    ensures
        r == (bat && !da_xong && enrich_xong && !dang_quet && giay_yen >= YEN_LANG_SECS),
{
    bat && !da_xong && enrich_xong && !dang_quet && giay_yen >= YEN_LANG_SECS
}

/// The scope of the background scan: the machine's own disks, always.
pub fn pham_vi_nen() -> (r: DupeScope)
    ensures
        r == DupeScope::LocalOnly,
{
    DupeScope::LocalOnly
}

/// What the watcher does on a tick.
#[derive(Debug, Clone, Copy, PartialEq, Eq)]
pub enum ViecNen {
    /// This session's background scan is done: stop watching.
    Dung,
    /// Not yet: wait for the next tick.
    Cho,
    /// Start a local-only scan now.
    BatDauQuet,
}

/// What the watcher does while its scan runs.
#[derive(Debug, Clone, Copy, PartialEq, Eq)]
pub enum GiamSat {
    /// Still running, nothing typed: keep watching.
    TiepTuc,
    /// The scan ended.
    Xong,
    /// The user typed a query: stop the scan, their work wins.
    Nhuong,
}

/// The background scan's schedule: whether it is on, whether it already ran
/// this session, and the quiet clock (the last query seen and since when).
#[derive(Debug, Clone, Copy, PartialEq, Eq)]
pub struct LichNen {
    pub bat: bool,
    pub da_xong: bool,
    pub query_cuoi: u64,
    pub moc_yen: u64,
}

impl LichNen {
    /// On, not run yet, quiet since `now` (Unix seconds).
    pub fn new(now: u64) -> (r: Self)
        ensures
            r == (LichNen { bat: true, da_xong: false, query_cuoi: 0, moc_yen: now }),
    {
        LichNen { bat: true, da_xong: false, query_cuoi: 0, moc_yen: now }
    }

    /// Turn the background scan on or off.
    pub fn dat_bat(&mut self, bat: bool)
        ensures
            *final(self) == (LichNen { bat, ..*old(self) }),
    {
        self.bat = bat;
    }

    /// Whether it is on.
    pub fn dang_bat(&self) -> (r: bool)
        ensures
            r == self.bat,
    {
        self.bat
    }

    /// Whether it already ran this session.
    pub fn da_xong(&self) -> (r: bool)
        ensures
            r == self.da_xong,
    {
        self.da_xong
    }

    /// A query counter `generation` that moved means the user searched: the
    /// quiet clock starts again at `now`.
    fn thay_query(&mut self, generation: u64, now: u64)
        ensures
            *final(self) == if generation != old(self).query_cuoi {
                LichNen { query_cuoi: generation, moc_yen: now, ..*old(self) }
            } else {
                *old(self)
            },
    {
        if generation != self.query_cuoi {
            self.query_cuoi = generation;
            self.moc_yen = now;
        }
    }

    /// One tick of the watcher at `now`.
    pub fn nhip(&mut self, generation: u64, now: u64, enrich_xong: bool, dang_quet: bool) -> (r: ViecNen)
        ensures
            ({
                let s = if generation != old(self).query_cuoi {
                    LichNen { query_cuoi: generation, moc_yen: now, ..*old(self) }
                } else {
                    *old(self)
                };
                let yen = if now >= s.moc_yen { (now - s.moc_yen) as u64 } else { 0u64 };
                &&& *final(self) == s
                &&& r == if s.da_xong {
                    ViecNen::Dung
                } else if s.bat && enrich_xong && !dang_quet && yen >= YEN_LANG_SECS {
                    ViecNen::BatDauQuet
                } else {
                    ViecNen::Cho
                }
            }),
    {
        self.thay_query(generation, now);
        if self.da_xong {
            return ViecNen::Dung;
        }
        let yen = now.saturating_sub(self.moc_yen);
        if du_dieu_kien(self.bat, self.da_xong, enrich_xong, dang_quet, yen) {
            ViecNen::BatDauQuet
        } else {
            ViecNen::Cho
        }
    }

    /// One look at the running scan at `now`. The session's background scan
    /// counts as done when it ends and also when it yields: what it settled is
    /// kept.
    pub fn theo_doi(&mut self, generation: u64, now: u64, running: bool) -> (r: GiamSat)
        ensures
            !running ==> r == GiamSat::Xong && *final(self) == (LichNen { da_xong: true, ..*old(self) }),
            running && generation != old(self).query_cuoi ==> r == GiamSat::Nhuong && *final(self) == (LichNen {
                da_xong: true,
                query_cuoi: generation,
                moc_yen: now,
                ..*old(self)
            }),
            running && generation == old(self).query_cuoi ==> r == GiamSat::TiepTuc && *final(self) == *old(self),
    {
        if !running {
            self.da_xong = true;
            return GiamSat::Xong;
        }
        if generation != self.query_cuoi {
            self.query_cuoi = generation;
            self.moc_yen = now;
            self.da_xong = true;
            return GiamSat::Nhuong;
        }
        GiamSat::TiepTuc
    }
}

} // verus!
