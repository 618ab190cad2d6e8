//! Calendar-honest date differences with user-defined named anchors.
//!
//! The engine measures the signed difference between a target date and
//! today in years, months and days, resolves tokens (ISO dates or anchor
//! nicknames) to dates, and holds the decisions of the `since` / `until`
//! command lines and of the MCP tools.

pub mod anchors;
pub mod calendar;
pub mod cli;
pub mod mcp;
pub mod span;
pub mod text;

pub use anchors::{measure, normalize, resolve_token, AnchorStore, Error};
pub use calendar::Date;
pub use span::{join_components, span_between, Direction, Span};
