//! The atomic-replace write discipline, stated over a model of the target
//! file and its temp sibling.
//!
//! A rewrite writes the new contents to a temp path derived from the target
//! and then renames it over the target. On every failure path the temp file
//! is removed and the target is left exactly as it was found, so a reader
//! never observes a partially written file.

use vstd::prelude::*;

use crate::preference::SchemePreference;
use crate::rewrite::adjust_config;
use crate::rewrite::adjust_succeeds;
use crate::rewrite::adjusted_content;
use crate::rewrite::missing_tag_spec;
use crate::rewrite::RewriteError;

verus! {

/// A model of the slice of the filesystem one rewrite touches: the target
/// file and the temp file derived from its path.
pub struct FileStore {
    /// The contents of the target file, or nothing if it is missing.
    pub target: Option<Vec<u8>>,
    /// The contents of the temp sibling, or nothing if it is absent.
    pub temp: Option<Vec<u8>>,
}

/// Where the underlying filesystem fails during one rewrite, if anywhere.
#[derive(Clone, Copy, PartialEq, Eq, Structural)]
pub enum WriteFault {
    /// Every step succeeds.
    NoFault,
    /// Creating the temp file fails.
    CreateFails,
    /// Writing the rewritten contents to the temp file fails.
    WriteFails,
    /// Renaming the temp file over the target fails.
    RenameFails,
}

impl FileStore {
    /// The target as a sequence of bytes, where it exists.
    pub open spec fn target_bytes(self) -> Option<Seq<u8>> {
        match self.target {
            Some(c) => Some(c@),
            None => None,
        }
    }

    /// Rewrites the target file for preference `p` under the atomic-replace
    /// discipline, against a filesystem that fails where `fault` says.
    ///
    /// Succeeds exactly when nothing fails, the target exists and both tags
    /// are found; the target then holds the rewritten contents. On every
    /// failure the target is left as it was found. The temp file never
    /// outlives the call.
    pub fn write_updated_config(
        &mut self,
        p: SchemePreference,
        fault: WriteFault,
    ) -> (r: Result<(), RewriteError>)
        requires
            old(self).temp is None,
        ensures
            final(self).temp is None,
            r is Ok <==> fault == WriteFault::NoFault && old(self).target is Some
                && adjust_succeeds(old(self).target_bytes().unwrap(), p),
            r is Ok ==> final(self).target_bytes() == Some(
                adjusted_content(old(self).target_bytes().unwrap(), p),
            ),
            r is Err ==> final(self).target_bytes() == old(self).target_bytes(),
            fault == WriteFault::CreateFails ==> r == Err::<(), RewriteError>(RewriteError::Io),
            fault != WriteFault::CreateFails && old(self).target is None ==> r == Err::<
                (),
                RewriteError,
            >(RewriteError::NotFound),
            fault != WriteFault::CreateFails && old(self).target is Some && !adjust_succeeds(
                old(self).target_bytes().unwrap(),
                p,
            ) ==> (r matches Err(e) && (e matches RewriteError::TagNotFound { tag } && tag@
                == missing_tag_spec(old(self).target_bytes().unwrap(), p))),
            fault != WriteFault::NoFault && fault != WriteFault::CreateFails && old(
                self,
            ).target is Some && adjust_succeeds(old(self).target_bytes().unwrap(), p) ==> r
                == Err::<(), RewriteError>(RewriteError::Io),
    {
        if fault == WriteFault::CreateFails {
            // The temp file could not be created, so none exists.
            return Err(RewriteError::Io);
        }
        // The temp file now exists, empty.
        self.temp = Some(Vec::new());
        let updated = match &self.target {
            None => {
                self.temp = None;
                return Err(RewriteError::NotFound);
            },
            Some(content) => {
                match adjust_config(content.as_slice(), p) {
                    Err(e) => {
                        self.temp = None;
                        return Err(e);
                    },
                    Ok(updated) => updated,
                }
            },
        };
        if fault == WriteFault::WriteFails {
            self.temp = None;
            return Err(RewriteError::Io);
        }
        if fault == WriteFault::RenameFails {
            self.temp = None;
            return Err(RewriteError::Io);
        }
        // The rename moves the temp file over the target in one step.
        self.target = Some(updated);
        self.temp = None;
        Ok(())
    }
}

} // verus!
