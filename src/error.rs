use vstd::prelude::*;

verus! {

/// Errors that the lookup logic raises. Failures to send a request or to read its
/// response belong to the transport that the caller runs.
#[derive(Debug, Clone, Copy, PartialEq, Eq, Structural)]
pub enum LookupError {
    /// A request header could not be built from the value supplied.
    HeaderValue,
    /// A response header holds bytes that are not visible ASCII.
    HeaderToString,
    /// The repository has no release whose tag is a Semantic Version.
    NoReleases,
    /// The API answered 404: a mis-supplied repository, or one without access.
    RepositoryNotFound,
    /// The API answered 401 or 403: missing or incorrect authentication.
    AuthenticationError(u16),
    /// The API answered with another status outside the success range.
    ErrorHttpResponse(u16),
}

} // verus!
