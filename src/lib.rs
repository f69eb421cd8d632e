//! A web-path discovery engine: wordlist preparation, URL generation by
//! placeholder substitution, a discovery tree, and the bookkeeping of a
//! level-by-level recursive crawl that can be checkpointed and resumed.
pub mod text;
pub mod tree;
pub mod wordlist;
pub mod classic;
pub mod recursive;
