//! Reconciles the OCTGN set definitions of a card game with the card data of
//! Hall of Beorn: which local sets the remote catalog covers, in the remote's
//! order, and which remote image belongs to each local card.

pub mod arkhamdb;
pub mod correlate;
pub mod distance;
pub mod git_cache;
pub mod hall_of_beorn;
pub mod octgn;
mod parallel;
pub mod resolve;

pub use correlate::{correlate_sets, MAX_SET_LEVENSHTEIN};
pub use git_cache::GitCache;
pub use resolve::{get_image_urls, CardDownload, EmptyCandidateSet, ImagePlan, Substitution};
