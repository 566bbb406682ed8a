//! Quadratic-funding matching engine: a contribution ledger, project and
//! round registries, the capped matching computation and the round lifecycle.

pub mod error;
pub mod isqrt;
pub mod laws;
pub mod ledger;
pub mod matching;
pub mod model;
pub mod system;

pub use error::{ErrorKind, QfError};
pub use ledger::{Contribution, Identity};
pub use model::{Payout, Project, ProjectWithMatching, Round, RoundData};
pub use system::QfSystem;
