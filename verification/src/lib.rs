//! Reacts to a desktop light/dark appearance preference by rewriting local
//! configuration files in place.
//!
//! The crate has two verified cores: a deduplicating preference-change
//! source, which turns an initial read plus a stream of raw change
//! notifications into a sequence that never repeats a value twice in a row,
//! and a tag-driven line rewriter, which toggles the comment state of the
//! `#[dark]`- and `#[light]`-tagged lines of a config file while leaving
//! every other byte unchanged, wrapped in an atomic temp-then-rename write
//! discipline.

pub mod laws;
pub mod preference;
pub mod rewrite;
pub mod source;
pub mod store;

pub use preference::ChangeEvent;
pub use preference::ExtractError;
pub use preference::SchemePreference;
pub use rewrite::adjust_config;
pub use rewrite::RewriteError;
pub use source::PreferenceChangeSource;
pub use store::FileStore;
pub use store::WriteFault;
