//! The parameters the handlers read from the query string or a JSON body.
use vstd::prelude::*;

verus! {

/// Parameters read from a request.
pub struct Query<T>(pub T);

/// Parameters of the info endpoint.
#[derive(Debug)]
pub struct InfoParams {
    pub format: Option<String>,
}

/// Parameters of the download endpoint.
#[derive(Debug)]
pub struct DownloadParams {
    pub file: Option<String>,
}

/// Parameters of the search endpoint; a missing word reads as empty.
#[derive(Debug)]
pub struct SearchParams {
    pub word: String,
}

} // verus!
