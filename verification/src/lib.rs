//! A small template language for localized messages.
//!
//! Entries are compiled from pairs of key and source into a [`Resolver`].
//! A source is literal text with interpolations, `{name}` for another entry
//! and `{$name}` for a parameter, or a selector that chooses a branch by
//! the value of a parameter. The resolver expands the entry under a key
//! against a context that gives the parameters their values.
//!
//! Text between two or more opening braces and as many closing braces is
//! literal: `{{ a }}` stands for `a`, and `{{{ {{a}} }}}` for `{{a}}`.

pub mod chars;
pub mod error;
pub mod order;
pub mod parsers;
pub mod part;
pub mod resolver;
pub mod selector;
pub mod strings;
pub mod template;

pub use error::{ResolverError as Error, ResolverResult as Result};
pub use parsers::context::{ContextMap, ContextMapBuf};
pub use resolver::Resolver;
pub use strings::MiniStr;
pub use template::Template;
