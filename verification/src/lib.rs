//! A verified core for a URL-shortening service: URL normalization and
//! validation, short-identifier generation, a link table with collision-safe
//! creation, atomic click counting, and cursor-based newest-first listing.

pub mod analytics;
pub mod order;
pub mod record;
pub mod store;
pub mod templates;
pub mod text;
pub mod url_info;
pub mod urls;
