use crate::xml_docsource::str_eq;
use vstd::prelude::*;

verus! {

/// The state of the persisted caches at startup.
#[derive(Debug, Clone, Copy, PartialEq, Eq, Structural)]
pub enum CacheState {
    /// No version stamp was found: a first run.
    Fresh,
    /// The persisted stamp differs from the running version: every cache is
    /// treated as fully invalid, whatever its content hashes say, because the
    /// extraction logic itself may have changed.
    Invalid,
    /// The stamp matches; caches are candidates for loading from disk.
    Valid,
}

/// What the persisted stamp says about the caches.
pub open spec fn classify_spec(stamp: Option<Seq<char>>, version: Seq<char>) -> CacheState {
    match stamp {
        None => CacheState::Fresh,
        Some(s) => if s == version {
            CacheState::Valid
        } else {
            CacheState::Invalid
        },
    }
}

/// Classifies the persisted stamp against the running program's version.
pub fn classify(stamp: &Option<String>, version: &str) -> (r: CacheState)
    ensures
        r == classify_spec(stamp.deep_view(), version@),
{
    match stamp {
        None => CacheState::Fresh,
        Some(s) => if str_eq(s.as_str(), version) {
            CacheState::Valid
        } else {
            CacheState::Invalid
        },
    }
}

/// Every source except the comment source must be rebuilt from its upstream,
/// rather than loaded from disk, when the caches are not valid, when the user
/// forced an update, or when the incremental comment update saw new content.
pub open spec fn must_rebuild_spec(state: CacheState, forced: bool, comments_changed: bool) -> bool {
    state != CacheState::Valid || forced || comments_changed
}

/// Decides between a full rebuild of the remaining sources and loading their
/// caches from disk.
pub fn must_rebuild_all(state: CacheState, forced: bool, comments_changed: bool) -> (r: bool)
    ensures
        r == must_rebuild_spec(state, forced, comments_changed),
{
    match state {
        CacheState::Valid => forced || comments_changed,
        _ => true,
    }
}

/// A version-stamp mismatch forces a rebuild of every source, whatever the
/// content hashes or the other inputs say.
pub proof fn lemma_stamp_mismatch_forces_rebuild(
    stamp: Seq<char>,
    version: Seq<char>,
    forced: bool,
    comments_changed: bool,
)
    requires
        stamp != version,
    ensures
        must_rebuild_spec(classify_spec(Some(stamp), version), forced, comments_changed),
{
}

} // verus!
