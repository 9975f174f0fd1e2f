//! Core of a small static-site builder: template-variable substitution,
//! Markdown-to-HTML rendering with verbatim recovery of fenced code blocks
//! for an external syntax highlighter, and the pure parts of the content
//! pipeline (front-matter splitting, draft filtering, date ordering, index
//! assembly, directory-copy planning).

pub mod escape;
pub mod events;
pub mod fsplan;
pub mod highlight;
pub mod pipeline;
pub mod render;
pub mod subst;
pub mod text;
