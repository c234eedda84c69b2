//! A write-back page cache with an LRU page pool and fault-injection hooks.
//!
//! Files are cut into blocks of a fixed size; blocks sit in the slots of
//! pages of a fixed size; the pages come from a pool that is allocated once.
//! The cache takes reads and writes, keeps track of which bytes of a block
//! hold data, evicts the least recently used page when the pool is full,
//! and flushes what was written to the backing files in runs of consecutive
//! blocks.
//!
//! The library never touches a file.  Where something has to be written
//! out, an operation hands back what is to be done: the plan of a flush
//! ([`pagecache::cache::SyncPlan`]), or the content of a dirty page that was
//! evicted ([`pagecache::engine::backends::custom::PageFlush`]).  The caller
//! carries it out and, for a flush, reports the outcome with
//! [`pagecache::cache::Cache::sync_owner_done`].
//!
//! Every operation has a contract over a mathematical model of the state:
//! [`pagecache::engine::backends::pool::EngineView`] for the pool and
//! [`pagecache::cache::CacheView`] for the cache.  What holds of every
//! well-formed state is proved in `pool_laws`, `flush_laws` and `cache_laws`.
//!
//! Maps keyed by block id or by name are kept as sequences in a fixed
//! order ([`block_map`], [`name_map`]), so that the outcome of every
//! operation is determined by its arguments.

pub mod block_map;
pub mod id_list;
pub mod lazyfs;
pub mod name_map;
pub mod pagecache;
