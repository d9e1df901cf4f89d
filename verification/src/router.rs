use vstd::prelude::*;
use crate::query::{Path, path_segments};
use crate::text::same_text;

verus! {

/// The part of the server that answers a request.
#[derive(PartialEq, Eq, Structural, Debug, Clone, Copy)]
pub enum Service {
    /// The URL has no path: answered with status 400. `Path::path` always
    /// finds a path, so no URL is answered so.
    BadRequest,
    /// The particles game backend.
    Particles,
    /// The webring redirector.
    Webring,
    /// The static site.
    Site,
}

/// The service for a URL's path segments: the second segment (the first
/// after the leading `/`) names the service; anything else is the site.
pub open spec fn service_for(segments: Seq<Seq<char>>) -> Service {
    if segments.len() > 1 && segments[1] == "particles"@ {
        Service::Particles
    } else if segments.len() > 1 && segments[1] == "webring"@ {
        Service::Webring
    } else {
        Service::Site
    }
}

/// Chooses the service that answers a request for `url`.
pub fn handle_request(url: &str) -> (s: Service)
    ensures
        s == service_for(path_segments(url@)),
{
    let path = match url.path() {
        Some(p) => p,
        None => return Service::BadRequest,
    };
    if path.len() > 1 {
        assert(path@[1]@ == path_segments(url@)[1]);
        if same_text(path[1].as_str(), "particles") {
            return Service::Particles;
        }
        if same_text(path[1].as_str(), "webring") {
            return Service::Webring;
        }
    }
    Service::Site
}

} // verus!
