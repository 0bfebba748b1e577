//! Usage statistics for the competitive metagame of a trading-card game.
//!
//! From the decks of an event, or from the card catalog, the library counts
//! how often each card stands in mainboards and sideboards, parts those counts
//! by the points table, counts how many cards carry each colour code, and
//! follows the usage of each card over time. Every function works on values in
//! memory and is verified against its contract.

pub mod catalog;
pub mod error;
pub mod ingest;
pub mod laws;
pub mod lookup;
pub mod ordered_map;
pub mod points;
pub mod sink;
pub mod stats;
pub mod tally;
pub mod timeseries;
pub mod types;
pub mod usage;

pub use error::StatsError;
pub use ingest::{bool_from_str, float_to_int};
pub use lookup::{decks_in, event_by_id};
pub use ordered_map::OrderedMap;
pub use points::{is_pointed, points, PointedSet};
pub use sink::{upsert, Keyed, SinkAction};
pub use stats::{assemble_catalog_stats, assemble_event_stats, event_stats, Stats};
pub use timeseries::{card_usage_stats, count_copies, usage_over_time};
pub use types::{Card, Deck, DeckCard, Event, Point, UsageOverTime};
pub use usage::{card_universe, count_colours, count_uses, split_by_points, Board};
