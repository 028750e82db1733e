//! Views over an [`Analysis`](crate::analysis::Analysis), for a page to draw.
//!
//! A view answers one question the page asks, as plain rows and numbers. What a
//! view draws from the retained events covers only what was kept; everything
//! else covers the whole archive.

pub mod asns;
pub mod conversation;
pub mod distribution;
pub mod events;
pub mod filter;
pub mod lifetimes;
pub mod over_time;
pub mod peer_list;
pub mod raster;
pub mod rows;
pub mod scorecard;
pub mod totals;

pub use crate::view::asns::{network_peers, networks};
pub use crate::view::conversation::{exchanges, unanswered_is_meaningful};
pub use crate::view::events::{query, sequence, QueryCache};
pub use crate::view::filter::Filter;
pub use crate::view::lifetimes::{connection_durations, user_agents};
pub use crate::view::over_time::{groups_present, timeline, timeline_group};
pub use crate::view::peer_list::{peer_detail, peers};
pub use crate::view::raster::{peer_activity, peer_raster};
pub use crate::view::scorecard::relay;
pub use crate::view::totals::{progress, summary};
