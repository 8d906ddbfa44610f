//! A numeric-kernel engine core: a handle-based buffer registry, a
//! size-dependent dispatch policy, and a partition protocol that divides one
//! buffer among worker tasks without overlap. The index logic of the exemplar
//! kernels (radix-2 FFT, chunked IIR filtering with warm-up, Richardson–Lucy
//! deconvolution) is stated and proved here; the floating-point arithmetic
//! that runs on top of it lives with the host program.

pub mod dispatch;
pub mod error;
pub mod partition;
pub mod protocol;
pub mod registry;
pub mod fft_plan;
pub mod warmup;
pub mod window;
pub mod layout;
