//! The operator kernels: stateless functions on tensors.
//!
//! Every kernel checks the shapes it is given before it writes anything, and
//! refuses with `ShapeMismatch` what does not fit.

pub mod attention;
pub mod dot;
pub mod gather;
pub mod matmul;
pub mod rms_norm;
pub mod rope;
pub mod softmax;
pub mod swiglu;

pub use crate::sampling::random_sample;
pub use attention::attention;
pub use dot::dot;
pub use gather::gather;
pub use matmul::{add_projection, matmul_transb, project};
pub use rms_norm::{rms_norm, rms_norm_row};
pub use rope::{rope, rope_vector};
pub use softmax::{masked_softmax, softmax_row};
pub use swiglu::swiglu;
