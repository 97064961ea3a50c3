//! Word search over a prefix tree: which dictionary words can be spelled
//! from a multiset of letters and wildcards, optionally filtered by a
//! whole-word pattern and ranked by letter scores.

pub mod app_manager;
pub mod counts;
pub mod ingest;
pub mod laws;
pub mod node;
pub mod panels;
pub mod path;
pub mod pattern;
pub mod scoring;
pub mod text;
pub mod word_trie;

pub use app_manager::{
    AppManager, AppState, InputEvent, LettersInputPanel, PanelState, QueryRequest, QueryResponse,
    RegexInputPanel, WordsOutputPanel,
};
pub use counts::{decrement_count, to_frequency_map, LetterCounts};
pub use ingest::{
    parse_score_lines, parse_word_lines, OpenFileError, ParseFileError, ParseScoreFileError,
    ParseWordFileError,
};
pub use node::Node;
pub use panels::{
    generate_hints, Direction, PanelGraph, PanelKind, PanelLinks, PanelManager, PanelRef,
    PanelTreeNode,
};
pub use path::{step_trie, Path};
pub use pattern::{is_valid_regex, WordPattern};
pub use scoring::{score_word, ScoreTable, ScoredWordTrie};
pub use text::{chars_of, string_of, WILDCARD};
pub use word_trie::WordTrie;
