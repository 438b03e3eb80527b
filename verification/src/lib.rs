use vstd::prelude::*;

pub mod advanced_chunking;
pub mod blob;
pub mod bloom;
pub mod chunk_keys;
pub mod chunking;
pub mod distribution;
pub mod docinfo;
pub mod docsearch;
pub mod facets;
pub mod fulltext;
pub mod fuzzy;
pub mod glob;
pub mod grok;
pub mod graph;
pub mod ingest;
pub mod json;
pub mod keyed;
pub mod language;
pub mod lru;
pub mod multidim;
pub mod phrase;
pub mod rca;
pub mod ring;
pub mod routing;
pub mod routing_index;
pub mod similarity;
pub mod strmap;
pub mod telemetry;
pub mod text;
pub mod time_bucket;
pub mod traversal;
pub mod trie;
pub mod vfs;
pub mod vpath;

verus! {

} // verus!
