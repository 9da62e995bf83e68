//! Integer core of the node2vec skip-gram training kernel.
//!
//! The kernel trains two embedding matrices with skip-gram and negative
//! sampling over pre-generated random walks.  Everything that decides *what*
//! is updated lives here and is verified: the 48-bit linear congruential
//! generator, the lower-bound search over the cumulative unigram table, the
//! sliding context window, the negative draws and the per-batch update plan
//! with its threaded generator state.  Applying a plan to the float matrices
//! is left to the embedding host.

pub mod partition;
pub mod plan;
pub mod rng;
pub mod sampling;
pub mod search;
pub mod window;
