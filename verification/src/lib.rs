//! Page-access observation and reconstruction engine for enclave
//! side-channel analysis.
//!
//! The crate models what an adversary who controls the page tables of an
//! enclave can learn, and what a mitigation that prefetches the recently
//! used pages hides from it.  There are two halves.
//!
//! The simulation follows a single-stepped enclave: [`page_table`] is the
//! shadow of its page table, [`tlb`] the simulated hardware TLB, [`pam`]
//! the mirror of the page-access map from which the mitigation prefetches,
//! [`observations`] what the attacker has gathered, [`attacker`] the
//! policies by which attackers interrupt and observe, and [`profiler`] the
//! dispatcher that puts them together at every trap.  [`dump`] and
//! [`wire`] decide what goes into the waveform traces.
//!
//! The attack rebuilds a JPEG image from the pages that libjpeg touches
//! while it decompresses: [`jpeg_state`] is the state machine that follows
//! the decoder, [`reconstruct`] the image that it yields, [`attack`] the
//! page-fault handler that drives both on an enclave, [`replay`] the same
//! on a recorded trace, and [`json`] the image as text.
//!
//! Every function is verified against its contract, but for the one call
//! into `serde_json` in [`json`], whose contract is trusted.  The laws that
//! relate several functions are stated as proof functions next to them.

pub mod attack;
pub mod attacker;
pub mod dump;
pub mod jpeg_state;
pub mod json;
pub mod observations;
pub mod page_access;
pub mod page_table;
pub mod pam;
pub mod profiler;
pub mod reconstruct;
pub mod replay;
pub mod tlb;
pub mod wire;
