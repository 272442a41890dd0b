//! Retrieve the release versions of a repository hosted on a GitHub-compatible REST API.
//!
//! The library holds the verified logic: the parser of the `link` pagination header,
//! the paginator that decides which page to request next and when to stop, and the
//! resolver that selects the latest Semantic Version among release tags. Sending the
//! requests themselves is left to the caller.
pub mod error;
pub mod link;
pub mod paginate;
pub mod release;
pub mod request;
pub mod version;

pub use error::LookupError;
pub use link::{get_last_page, last_page_from_link};
pub use paginate::{status_error, Paginator, PAGINATION_REQUEST_AMOUNT};
pub use release::{tag_names, GitHubReleaseItem};
pub use version::{latest_version, ParsedVersion};
pub use request::{generate_headers, releases_url, DEFAULT_API_ROOT};
