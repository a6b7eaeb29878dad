//! Settings of the quantization of an embedding matrix.
use vstd::prelude::*;

use crate::options::UnknownName;
use crate::text::same_chars;

verus! {

/// The kinds of quantizer that can compress an embedding matrix.
#[derive(Clone, Copy, Debug, PartialEq, Eq, Structural)]
pub enum QuantizerKind {
    /// Product quantization.
    Pq,
    /// Optimized product quantization.
    Opq,
    /// Optimized product quantization, initialised for Gaussian data.
    GaussianOpq,
}

/// The quantizer kind called `s`, if there is one.
pub open spec fn quantizer_named(s: Seq<char>) -> Option<QuantizerKind> {
    if s == "pq"@ {
        Some(QuantizerKind::Pq)
    } else if s == "opq"@ {
        Some(QuantizerKind::Opq)
    } else if s == "gaussian_opq"@ {
        Some(QuantizerKind::GaussianOpq)
    } else {
        None
    }
}

impl QuantizerKind {
    /// Reads a quantizer kind from its name.
    pub fn try_from(s: &str) -> (r: Result<QuantizerKind, UnknownName>)
        ensures
            match r {
                Ok(q) => quantizer_named(s@) == Some(q),
                Err(e) => quantizer_named(s@) is None && e.name@ == s@,
            },
    {
        if same_chars(s, "pq") {
            Ok(QuantizerKind::Pq)
        } else if same_chars(s, "opq") {
            Ok(QuantizerKind::Opq)
        } else if same_chars(s, "gaussian_opq") {
            Ok(QuantizerKind::GaussianOpq)
        } else {
            Err(UnknownName { name: s.to_owned() })
        }
    }
}

/// Why quantization settings were refused.
#[derive(Clone, Debug, PartialEq, Eq)]
pub enum ConfigError {
    /// The quantizer has no kind of this name.
    UnknownQuantizer(String),
    /// Bits per subquantizer index must be between 1 and 8.
    BitsOutOfRange(u32),
}

/// Settings of a quantization run.
#[derive(Clone, Copy, Debug, PartialEq, Eq, Structural)]
pub struct QuantizeConfig {
    pub quantizer: QuantizerKind,
    /// Number of subquantizers; half the dimensionality when not given.
    pub n_subquantizers: Option<usize>,
    pub quantizer_bits: u32,
    pub n_iterations: usize,
    pub n_attempts: usize,
    pub n_threads: usize,
}

/// The smallest and the largest number of bits of a subquantizer index.
pub const MIN_BITS: u32 = 1;
pub const MAX_BITS: u32 = 8;

impl QuantizeConfig {
    /// Validates quantization settings: the quantizer must be known and the bits
    /// must lie in `MIN_BITS..=MAX_BITS`. A quantizer name that is not known is
    /// reported before the bits.
    pub fn new(
        quantizer: &str,
        n_subquantizers: Option<usize>,
        quantizer_bits: u32,
        n_iterations: usize,
        n_attempts: usize,
        n_threads: usize,
    ) -> (r: Result<QuantizeConfig, ConfigError>)
        ensures
            match r {
                Ok(c) => {
                    &&& quantizer_named(quantizer@) == Some(c.quantizer)
                    &&& MIN_BITS <= quantizer_bits <= MAX_BITS
                    &&& c.n_subquantizers == n_subquantizers
                    &&& c.quantizer_bits == quantizer_bits
                    &&& c.n_iterations == n_iterations
                    &&& c.n_attempts == n_attempts
                    &&& c.n_threads == n_threads
                },
                Err(ConfigError::UnknownQuantizer(name)) => {
                    quantizer_named(quantizer@) is None && name@ == quantizer@
                },
                Err(ConfigError::BitsOutOfRange(b)) => {
                    &&& quantizer_named(quantizer@) is Some
                    &&& !(MIN_BITS <= quantizer_bits <= MAX_BITS)
                    &&& b == quantizer_bits
                },
            },
    {
        let kind = match QuantizerKind::try_from(quantizer) {
            Ok(k) => k,
            Err(e) => {
                return Err(ConfigError::UnknownQuantizer(e.name));
            },
        };
        if quantizer_bits < MIN_BITS || quantizer_bits > MAX_BITS {
            return Err(ConfigError::BitsOutOfRange(quantizer_bits));
        }
        Ok(QuantizeConfig {
            quantizer: kind,
            n_subquantizers,
            quantizer_bits,
            n_iterations,
            n_attempts,
            n_threads,
        })
    }

    /// The number of subquantizers for a matrix of `dims` columns.
    pub fn subquantizers(&self, dims: usize) -> (r: usize)
        ensures
            r == match self.n_subquantizers {
                Some(n) => n,
                None => dims / 2,
            },
    {
        match self.n_subquantizers {
            Some(n) => n,
            None => dims / 2,
        }
    }
}

/// The number of worker threads: the one given, or else half the logical processors.
pub fn worker_threads(given: Option<usize>, logical_cpus: usize) -> (r: usize)
    ensures
        r == match given {
            Some(n) => n,
            None => logical_cpus / 2,
        },
{
    match given {
        Some(n) => n,
        None => logical_cpus / 2,
    }
}

} // verus!
