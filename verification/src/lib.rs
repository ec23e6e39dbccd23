//! Fairness-ordered URL batch scheduling for an external page crawler.
//!
//! The library groups a batch of URLs by registrable domain, spreads
//! repeated-domain URLs apart with an exact rational precedence score,
//! plans checkpointed chunks with safe resume, classifies the outcome of
//! the external crawl launch/wait protocol, and harvests per-URL result
//! records with recoverable failure logging.

pub mod score;
pub mod interleave;
pub mod planner;
pub mod dispatch;
pub mod harvest;
pub mod counter;
pub mod orchestrate;
