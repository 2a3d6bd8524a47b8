//! A per-site visit counter: the table of counts, its text snapshot format,
//! the page template, what each request does, and the decisions of the
//! server's main loop.

pub mod table;
pub mod codec;
pub mod template;
pub mod handler;
pub mod shutdown;
