//! Decoding gzip files in chunks that can be decoded independently.
use vstd::prelude::*;

pub mod agreement;
pub mod autotune;
pub mod backend;
pub mod bgzf;
pub mod bgzf_written;
pub mod chain;
pub mod checked;
pub mod checksum;
pub mod concat;
pub mod corpus;
pub mod deflate;
pub mod fastq;
pub mod fastq_written;
pub mod file;
pub mod gzip;
pub mod members;
pub mod pieces;
pub mod pipeline;
pub mod reported;
pub mod schedule;
pub mod serial;
pub mod stored;
pub mod stream;
pub mod streaming;
pub mod written;

pub use crate::deflate::DeflateError;
pub use crate::gzip::GzipError;

verus! {

/// How to decode.
#[derive(Debug, Clone, Copy, PartialEq, Eq, Structural)]
pub struct Config {
    /// Number of workers; 0 for as many as the machine offers.
    pub num_threads: usize,
    /// Compressed bytes per chunk, about.
    pub chunk_size_bytes: usize,
    /// Whether to tell what is going on.
    pub verbose: Verbosity,
}

/// Whether to tell what is going on.
#[derive(Debug, Clone, Copy, PartialEq, Eq, Structural)]
pub enum Verbosity {
    Off,
    On,
}

impl Verbosity {
    pub fn is_on(self) -> (b: bool)
        ensures
            b == (self == Verbosity::On),
    {
        match self {
            Verbosity::On => true,
            Verbosity::Off => false,
        }
    }
}

impl Default for Verbosity {
    fn default() -> (v: Verbosity)
        ensures
            v == Verbosity::Off,
    {
        Verbosity::Off
    }
}

impl Default for Config {
    fn default() -> (c: Config)
        ensures
            c == (Config { num_threads: 0, chunk_size_bytes: 0x40_0000, verbose: Verbosity::Off }),
    {
        Config { num_threads: 0, chunk_size_bytes: 0x40_0000, verbose: Verbosity::Off }
    }
}

/// What was decoded.
#[derive(Debug, Clone, Copy, PartialEq, Eq, Structural)]
pub struct DecodeStats {
    pub compressed_bytes: u64,
    pub uncompressed_bytes: u64,
    pub chunks_decoded: u64,
    /// Chunks that were cut at a false boundary and decoded again.
    pub speculation_failures: u64,
}

impl Default for DecodeStats {
    fn default() -> (s: DecodeStats)
        ensures
            s == (DecodeStats {
                compressed_bytes: 0,
                uncompressed_bytes: 0,
                chunks_decoded: 0,
                speculation_failures: 0,
            }),
    {
        DecodeStats { compressed_bytes: 0, uncompressed_bytes: 0, chunks_decoded: 0, speculation_failures: 0 }
    }
}

/// Why a file could not be decoded.
#[derive(Debug, Clone, Copy, PartialEq, Eq)]
pub enum Error {
    Gzip(GzipError),
    Deflate(DeflateError),
}

} // verus!
