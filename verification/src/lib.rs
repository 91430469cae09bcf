//! Offline preview of github flavored markdown: the logic behind the `meread` server. It decides
//! which route a request takes, what a request path below the served root resolves to, what a
//! page is titled and how its breadcrumb reads, how a directory is listed, and how file names are
//! written into urls and read back out of them.

pub mod listing;
pub mod order;
pub mod path;
pub mod preview;
pub mod render;
pub mod resolve;
pub mod serve;
pub mod site;
pub mod target;
pub mod text;
pub mod url;

pub use path::relative_url;
