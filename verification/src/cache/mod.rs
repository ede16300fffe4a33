//! Paged key/value memory: who holds which page.
//!
//! The pages' contents belong to the kernels that read and write them. What
//! stands here is the bookkeeping: a pool of pages with a count of holders for
//! each, the page tables of the running sequences, and the registry of prompt
//! prefixes that are kept for reuse.
pub mod paged;
pub mod pool;
pub mod prefix;
