//! The external-tool path cache.
//!
//! Discovery of the encryption and version-control executables is host work
//! (probing well-known paths); the caller hands a discovered path in, and
//! the cache keeps it so discovery runs at most once per tool until the
//! cache is cleared.

use vstd::prelude::*;
use crate::errors::VaultError;
use crate::util::copy_bytes;

verus! {

/// A lazily filled cache of the two tool paths, owned by the process
/// instead of living in ambient mutable state.
pub struct ToolCache {
    pub gpg: Option<Vec<u8>>,
    pub git: Option<Vec<u8>>,
}

impl ToolCache {
    /// An empty cache: nothing discovered yet.
    pub fn new() -> (r: ToolCache)
        ensures
            r.gpg is None,
            r.git is None,
    {
        ToolCache { gpg: None, git: None }
    }

    /// The encryption tool's path: the cached one if present, else the
    /// freshly discovered one, which is then cached; `ServiceUnavailable`
    /// when there is neither.
    pub fn get_gpg_cmd(&mut self, discovered: Option<Vec<u8>>) -> (r: Result<Vec<u8>, VaultError>)
        ensures
            final(self).git == old(self).git,
            old(self).gpg matches Some(p) ==> (r matches Ok(q) && q@ == p@) && final(self).gpg
                == old(self).gpg,
            discovered matches Some(p) ==> (old(self).gpg is None ==> ((r matches Ok(q) && q@
                == p@) && (final(self).gpg matches Some(g) && g@ == p@))),
            old(self).gpg is None && discovered is None ==> r == Err::<Vec<u8>, VaultError>(
                VaultError::ServiceUnavailable,
            ) && final(self).gpg is None,
    {
        match &self.gpg {
            Some(p) => Ok(copy_bytes(p.as_slice())),
            None => match discovered {
                Some(p) => {
                    let q = copy_bytes(p.as_slice());
                    self.gpg = Some(p);
                    Ok(q)
                },
                None => Err(VaultError::ServiceUnavailable),
            },
        }
    }

    /// The version-control tool's path, cached the same way as the
    /// encryption tool's.
    pub fn get_git_cmd(&mut self, discovered: Option<Vec<u8>>) -> (r: Result<Vec<u8>, VaultError>)
        ensures
            final(self).gpg == old(self).gpg,
            old(self).git matches Some(p) ==> (r matches Ok(q) && q@ == p@) && final(self).git
                == old(self).git,
            discovered matches Some(p) ==> (old(self).git is None ==> ((r matches Ok(q) && q@
                == p@) && (final(self).git matches Some(g) && g@ == p@))),
            old(self).git is None && discovered is None ==> r == Err::<Vec<u8>, VaultError>(
                VaultError::ServiceUnavailable,
            ) && final(self).git is None,
    {
        match &self.git {
            Some(p) => Ok(copy_bytes(p.as_slice())),
            None => match discovered {
                Some(p) => {
                    let q = copy_bytes(p.as_slice());
                    self.git = Some(p);
                    Ok(q)
                },
                None => Err(VaultError::ServiceUnavailable),
            },
        }
    }

    /// Forgets both cached paths, so the next lookup discovers afresh.
    pub fn clear_cache(&mut self)
        ensures
            final(self).gpg is None,
            final(self).git is None,
    {
        self.gpg = None;
        self.git = None;
    }
}

} // verus!
