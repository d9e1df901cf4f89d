//! Request handling for a small personal web server: query-string and path
//! parsing, the particles game rooms, the static site manifest and the webring.
pub mod text;
pub mod decode;
pub mod query;
pub mod json;
pub mod router;
pub mod webring;
pub mod particles;
pub mod static_site;
