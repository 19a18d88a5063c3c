//! Documents: typed positions, text scanning, buffers and search.

pub mod encode;
pub mod estimate;
pub mod locate;
pub mod matches;
pub mod navigate;
pub mod open_laws;
pub mod piece_table;
pub mod places;
pub mod positions;
pub mod range_laws;
pub mod rope;
pub mod save_laws;
pub mod search;
pub mod search_laws;
pub mod state;
pub mod state_laws;
pub mod status;
pub mod stream_search;
pub mod text;
pub mod text_laws;
pub mod types;
