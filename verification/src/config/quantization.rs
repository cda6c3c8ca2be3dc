//! Quantization configuration for vector compression.

use vstd::prelude::*;

verus! {

#[derive(Debug, Clone, Copy, PartialEq, Eq, Structural)]
pub enum QuantizationLevel {
    /// No quantization: full precision.
    Off,
    /// 8-bit integers with a per-vector minimum and maximum.
    Int8,
    /// Product quantization with the given number of subquantizers.
    Pq { subquantizers: usize },
    /// 4-bit integers.
    Int4,
    /// 16-bit floats.
    Float16,
}

impl Default for QuantizationLevel {
    fn default() -> (r: Self)
        ensures
            r == QuantizationLevel::Off,
    {
        QuantizationLevel::Off
    }
}

#[derive(Debug, Clone, Copy, PartialEq, Eq, Structural)]
pub struct QuantizationConfig {
    /// Quantization level to use.
    pub level: QuantizationLevel,
    /// Whether vectors are compressed on disk only.
    pub disk_only: bool,
}

impl Default for QuantizationConfig {
    fn default() -> (r: Self)
        ensures
            r == (QuantizationConfig { level: QuantizationLevel::Off, disk_only: false }),
    {
        QuantizationConfig { level: QuantizationLevel::Off, disk_only: false }
    }
}

impl QuantizationConfig {
    /// 8-bit quantization, in memory and on disk.
    pub fn int8() -> (r: Self)
        ensures
            r == (QuantizationConfig { level: QuantizationLevel::Int8, disk_only: false }),
    {
        QuantizationConfig { level: QuantizationLevel::Int8, disk_only: false }
    }

    /// 8-bit quantization on disk only.
    pub fn int8_disk_only() -> (r: Self)
        ensures
            r == (QuantizationConfig { level: QuantizationLevel::Int8, disk_only: true }),
    {
        QuantizationConfig { level: QuantizationLevel::Int8, disk_only: true }
    }

    /// Product quantization with `subquantizers` blocks.
    pub fn pq(subquantizers: usize) -> (r: Self)
        ensures
            r == (QuantizationConfig {
                level: QuantizationLevel::Pq { subquantizers },
                disk_only: false,
            }),
    {
        QuantizationConfig { level: QuantizationLevel::Pq { subquantizers }, disk_only: false }
    }
}

} // verus!
