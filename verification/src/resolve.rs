//! The version resolver: reconciles the two upstream signals — formal
//! releases and raw tags — into one latest version marker.
//!
//! The upstream hosting capability lists releases or tags newest first; the
//! library trusts that ordering and takes the first item. A failed release
//! listing is treated like an empty one and the resolver falls through to raw
//! tags; only when the tag listing itself fails is the upstream reported as
//! erroring, and only when both signals are plainly empty is nothing found.

use vstd::prelude::*;
use crate::bytes::clone_bytes;

verus! {

/// Which upstream signal supplied the resolved marker.
#[derive(Debug, Clone, Copy, PartialEq, Eq, Structural)]
pub enum Provenance {
    ReleaseTag,
    RawTag,
}

/// The resolved latest version of one repository.
#[derive(Debug)]
pub struct Resolution {
    pub marker: Vec<u8>,
    pub provenance: Provenance,
}

/// What one upstream listing attempt produced: the tag names it returned,
/// newest first, or the failure of the call itself.
pub enum ApiOutcome {
    Failure,
    Items(Vec<Vec<u8>>),
}

/// Why no marker could be resolved.
#[derive(Debug, Clone, Copy, PartialEq, Eq, Structural)]
pub enum ResolveError {
    /// Neither a release nor a raw tag exists.
    NotFound,
    /// The hosting API erred on the deciding attempt.
    UpstreamError,
}

/// The newest marker an attempt yielded, if any.
pub open spec fn first_item(o: ApiOutcome) -> Option<Seq<u8>> {
    match o {
        ApiOutcome::Failure => None,
        ApiOutcome::Items(v) => if v@.len() > 0 {
            Some(v@[0]@)
        } else {
            None
        },
    }
}

/// The resolution policy over both attempts: a release tag wins; otherwise
/// the newest raw tag; otherwise an error that tells a failing tag listing
/// apart from a plainly empty upstream.
pub open spec fn resolve_spec(releases: ApiOutcome, tags: ApiOutcome) -> Result<
    (Seq<u8>, Provenance),
    ResolveError,
> {
    match first_item(releases) {
        Some(m) => Ok((m, Provenance::ReleaseTag)),
        None => match first_item(tags) {
            Some(m) => Ok((m, Provenance::RawTag)),
            None => if tags is Failure {
                Err(ResolveError::UpstreamError)
            } else {
                Err(ResolveError::NotFound)
            },
        },
    }
}

/// First phase: the most recent formal release, if the listing yielded one.
pub fn resolve_from_releases(releases: &ApiOutcome) -> (r: Option<Resolution>)
    ensures
        match r {
            Some(res) => first_item(*releases) == Some(res.marker@)
                && res.provenance == Provenance::ReleaseTag,
            None => first_item(*releases) is None,
        },
{
    match releases {
        ApiOutcome::Failure => None,
        ApiOutcome::Items(v) => {
            if v.len() > 0 {
                Some(Resolution { marker: clone_bytes(&v[0]), provenance: Provenance::ReleaseTag })
            } else {
                None
            }
        }
    }
}

/// Fallback phase: the most recent raw tag, or the error owed when the
/// release phase yielded nothing.
pub fn resolve_from_tags(tags: &ApiOutcome) -> (r: Result<Resolution, ResolveError>)
    ensures
        match r {
            Ok(res) => first_item(*tags) == Some(res.marker@)
                && res.provenance == Provenance::RawTag,
            Err(e) => first_item(*tags) is None
                && e == (if *tags is Failure {
                    ResolveError::UpstreamError
                } else {
                    ResolveError::NotFound
                }),
        },
{
    match tags {
        ApiOutcome::Failure => Err(ResolveError::UpstreamError),
        ApiOutcome::Items(v) => {
            if v.len() > 0 {
                Ok(Resolution { marker: clone_bytes(&v[0]), provenance: Provenance::RawTag })
            } else {
                Err(ResolveError::NotFound)
            }
        }
    }
}

/// Both phases together: resolves the latest marker from the outcome of the
/// release listing and of the tag listing.
pub fn resolve(releases: &ApiOutcome, tags: &ApiOutcome) -> (r: Result<Resolution, ResolveError>)
    ensures
        match r {
            Ok(res) => resolve_spec(*releases, *tags) == Ok::<_, ResolveError>((
                res.marker@,
                res.provenance,
            )),
            Err(e) => resolve_spec(*releases, *tags) == Err::<(Seq<u8>, Provenance), _>(e),
        },
{
    match resolve_from_releases(releases) {
        Some(res) => Ok(res),
        None => resolve_from_tags(tags),
    }
}

} // verus!
