mod ordered_set;
mod cache;

pub use cache::LFUCache;
pub use cache::ValueCounter;
