//! A minimal scalar feed-forward network for mutation-based search.
//!
//! Every neuron holds a single weight and gives out that weight times the
//! sum of all that enters its layer. A network is evaluated, copied and
//! randomly perturbed; choosing which network to perturb next is left to
//! the caller.
//!
//! Weights are IEEE 754 binary64 numbers held as their bit patterns. The
//! arithmetic on them is carried out on integers, so every result is fixed
//! by the contracts of this crate:
//!
//! - `power`: powers of two and bit lengths of machine integers;
//! - `scalar`: the number format and rounding to nearest, ties to even;
//! - `rounding`: what rounding means, proved of its definition;
//! - `arithmetic`: correctly rounded addition and multiplication;
//! - `random`: random draws and the perturbation that a draw stands for;
//! - `neural_network`: the network and the operations on populations.

pub mod power;
pub mod scalar;
pub mod rounding;
pub mod arithmetic;
pub mod random;
pub mod neural_network;
