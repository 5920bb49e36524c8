//! Where the local copy of the set definitions' repository lives.

use vstd::prelude::*;

use crate::resolve::ends_with;

verus! {

/// Relies on std::path::Path::join: a relative segment made of one plain
/// component is pushed last. What comes before it depends on the platform
/// (the separator, and the normalising of Windows verbatim paths), so only
/// the end of the result is stated.
#[verifier::external_body]
fn join_path(base: &str, segment: &str) -> (r: String)
    requires
        segment@.len() > 0,
        forall|i: int|
            0 <= i < segment@.len() ==> segment@[i] != '/' && segment@[i] != '\\' && segment@[i]
                != ':' && segment@[i] != '.',
    ensures
        ends_with(r@, segment@),
{
    std::path::Path::new(base).join(segment).to_string_lossy().into_owned()
}

/// A repository of set definitions, cloned into `cache_dir`; its set
/// documents lie under `sets_dir`.
pub struct GitCache {
    pub git_url: String,
    pub cache_dir: String,
    pub sets_dir: String,
}

impl GitCache {
    pub fn new(git_url: String, cache_dir: &str) -> (r: Self)
        ensures
            r.git_url == git_url,
            r.cache_dir@ == cache_dir@,
            ends_with(r.sets_dir@, "Sets"@),
    {
        proof {
            reveal_strlit("o8g");
            reveal_strlit("Sets");
        }
        let o8g = join_path(cache_dir, "o8g");
        let sets_dir = join_path(o8g.as_str(), "Sets");
        GitCache { git_url, cache_dir: cache_dir.to_owned(), sets_dir }
    }
}

} // verus!
