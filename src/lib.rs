//! Discovery of a site's pages through its sitemap hierarchy, and the pure
//! steps of archiving each page as a Markdown document.
pub mod text;
pub mod sitemap;
pub mod discovered;
pub mod resolver;
pub mod robots;
pub mod archive;
