//! Decisions the media tools make: duplicate scanning, sampling and
//! verification plans, stream sniffing.

pub mod dupeidle;
pub mod dupes;
pub mod dupesample;
pub mod dupescope;
pub mod dupeshare;
pub mod dupestore;
pub mod enrich;
pub mod ffcache;
pub mod ffphien;
pub mod ffthumb;
pub mod ffthumbkho;
pub mod ffstream;
pub mod metadata;
pub mod omang;
pub mod thumbnail;
pub mod verify;
pub mod verifycache;
pub mod verifyfast;
pub mod verifyprogress;
