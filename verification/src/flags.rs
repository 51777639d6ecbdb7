//! Frame flags, as they appear in the framecode table and in a frame's own
//! coded flags.

use vstd::prelude::*;

verus! {

pub const KEY: u64 = 1;

pub const EOR: u64 = 2;

pub const CODED_PTS: u64 = 8;

pub const STREAM_ID: u64 = 16;

pub const SIZE_MSB: u64 = 32;

pub const CHECKSUM: u64 = 64;

pub const RESERVED: u64 = 128;

pub const SM_DATA: u64 = 256;

pub const HEADER_IDX: u64 = 1024;

pub const MATCH_TIME: u64 = 2048;

pub const CODED: u64 = 4096;

pub const INVALID: u64 = 8192;

} // verus!
