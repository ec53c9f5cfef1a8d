//! Emoji, emoticon and hashtag co-occurrence graph: tag canonicalization,
//! extraction, node and edge aggregation, and sorted emission.

pub mod canon;
pub mod category;
pub mod edges;
pub mod emit;
pub mod nodes;
pub mod tags;

pub use category::{category_class, is_char_interesting, CharClass};
pub use canon::{clean_emoji, unexpected_chars};
pub use tags::{get_tags, unmapped_emoticons, EmoticonMap, Tag, TagType};
pub use nodes::{NodeIndex, NodeSlot};
pub use edges::EdgeAggregator;
pub use emit::{edge_rows, node_rows, EdgeRow, NodeRow};
