//! Lemming document
use std::path::PathBuf;
use vstd::prelude::*;

use crate::patch::{file_at, parse_file, PatchFile, PatchFileView};
use crate::text::{PatchError, Step};

verus! {

#[verifier::external_type_specification]
#[verifier::external_body]
pub struct ExPathBuf(PathBuf);

/// Single document
#[derive(Debug)]
pub struct Document {
    /// Current patch
    pub patch_string: String,
    /// Current patch filename
    pub filename: PathBuf,
    /// Parsed patch
    pub parsed: Option<PatchFile>,
}

/// What reading `text` as a patch file gives: the patch where it reads, else the error.
pub open spec fn parsed_view(text: Seq<char>) -> Result<PatchFileView, PatchError> {
    match file_at(text) {
        Step::Done(q, v) => Ok(v),
        Step::Error => Err(PatchError::Error),
        Step::Failure => Err(PatchError::Failure),
    }
}

impl Document {
    /// pare the patch
    pub fn update_patch(&mut self) -> (r: Result<(), PatchError>)
        ensures
            final(self).patch_string == old(self).patch_string,
            final(self).filename == old(self).filename,
            match parsed_view(old(self).patch_string@) {
                Ok(v) => r is Ok && (final(self).parsed matches Some(p) && p@ == v),
                Err(e) => r == Err::<(), PatchError>(e) && final(self).parsed is None,
            },
    {
        self.parsed = None;
        let (_, patch_file) = parse_file(self.patch_string.as_str())?;
        self.parsed = Some(patch_file);
        Ok(())
    }
}

} // verus!
