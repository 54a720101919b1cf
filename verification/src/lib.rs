//! Planning for an in-place discrete Fourier transform by the prime-factor
//! decomposition into radix-4, radix-3 and radix-2 passes.
//!
//! Everything here is integer work: which lengths can be transformed, how a
//! length splits into stages, which root of unity stands at each place of the
//! coefficient tables, and which pass reads and writes which sample. The
//! arithmetic on the samples themselves is left to the caller.
//!
//! - `factor`: dividing one factor out of a number.
//! - `smooth`: the supported lengths.
//! - `twiddle`: the coefficients of a stage.
//! - `plan`: the stages and the coefficient tables of a length.
//! - `schedule`: the passes in the order they run.
//! - `kernel`: the places a pass reads and writes.
//! - `dft`: that the passes compute the discrete Fourier transform.

pub mod dft;
pub mod factor;
pub mod kernel;
pub mod plan;
pub mod schedule;
pub mod smooth;
pub mod twiddle;

pub use factor::num_factors;
pub use plan::Stages;
pub use schedule::{finish, Finish, Pass, Width};
pub use twiddle::{extend_twiddles, Twiddle};
