//! Embedded web assets of the maintenance list application, and the
//! decisions that serve them over HTTP.

pub mod assets;
pub mod encoding;
pub mod routes;
pub mod text;

pub use assets::{get_file_data, get_file_list, get_index_data, AssetStore, Resource, ResourceView};
pub use encoding::accepts_gzip;
pub use routes::{favicon_response, web_response, HeaderField, WebResponse};
