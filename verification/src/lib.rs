//! Deduplicates street-name/grid-position pairs from a map index and renders
//! them as delimiter-separated, CRLF-terminated text.
//!
//! The pipeline has three stages: grouping raw records by street name with
//! duplicate positions removed (`DeduplicatedRoads::from_streets`), splitting
//! the groups into roads that span one or two grid cells and roads that span
//! three or more (`DeduplicatedRoads::process`), and rendering each collection
//! to text (`to_csv`).

mod order;
mod types;
mod dedup;
mod classify;
mod render;
mod laws;

pub use types::StreetName;
pub use types::GridPosition;
pub use types::InputStreetValue;
pub use types::pos_key;
pub use types::pos_keys;
pub use types::pos_lt;
pub use types::lemma_pos_lt_trichotomy;
pub use types::lemma_pos_lt_transitive;
pub use types::spec_digit;
pub use types::spec_dec;
pub use types::spec_pos_text;

pub use order::seq_char_lt;
pub use order::str_compare;
pub use order::lemma_seq_char_lt_trichotomy;
pub use order::lemma_seq_char_lt_transitive;

pub use dedup::RoadGroup;
pub use dedup::DeduplicatedRoads;
pub use dedup::positions_sorted;
pub use dedup::names_sorted;
pub use dedup::pos_in;
pub use dedup::grouping_has;
pub use dedup::input_has;
pub use dedup::dedup_post;

pub use classify::RoadView;
pub use classify::group_view;
pub use classify::grouping_view;
pub use classify::FinalizedGridPositon;
pub use classify::finalized_keys;
pub use classify::ProcessedRoad;
pub use classify::processed_road_view;
pub use classify::UnprocessedRoad;
pub use classify::unprocessed_road_view;
pub use classify::ProcessedRoadNames;
pub use classify::UnprocessedRoadNames;
pub use classify::processed_views;
pub use classify::unprocessed_views;
pub use classify::spec_classify;

pub use render::crlf;
pub use render::spec_finalized_text;
pub use render::spec_processed_line;
pub use render::spec_pos_list;
pub use render::spec_unprocessed_line;
pub use render::spec_processed_csv;
pub use render::spec_unprocessed_csv;

pub use laws::views_name_in;
pub use laws::lemma_grouping_unique;
pub use laws::lemma_wf_grouping_view;
pub use laws::lemma_dedup_duplicate_irrelevant;
pub use laws::lemma_dedup_order_irrelevant;
pub use laws::lemma_cardinality_routing;
pub use laws::lemma_partition_complete;
pub use laws::lemma_classify_preserves_order;
pub use laws::lemma_processed_csv_join;
pub use laws::lemma_unprocessed_csv_join;
