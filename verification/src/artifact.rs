//! What a transaction's payload decodes to.

use vstd::prelude::*;
use crate::cenotaph::Cenotaph;
use crate::rune_id::RuneId;
use crate::runestone::{Runestone, RunestoneView};

verus! {

/// A runestone, or what is left of one that was rejected.
#[derive(Clone, Debug, PartialEq, Eq)]
pub enum Artifact {
    Cenotaph(Cenotaph),
    Runestone(Runestone),
}

/// The view of an artifact.
pub enum ArtifactView {
    Cenotaph(Cenotaph),
    Runestone(RunestoneView),
}

impl View for Artifact {
    type V = ArtifactView;

    open spec fn view(&self) -> ArtifactView {
        match self {
            Artifact::Cenotaph(cenotaph) => ArtifactView::Cenotaph(*cenotaph),
            Artifact::Runestone(runestone) => ArtifactView::Runestone(runestone@),
        }
    }
}

impl ArtifactView {
    /// The rune that the artifact mints, if any.
    pub open spec fn mint(self) -> Option<RuneId> {
        match self {
            ArtifactView::Cenotaph(cenotaph) => cenotaph.mint,
            ArtifactView::Runestone(runestone) => runestone.mint,
        }
    }
}

impl Artifact {
    /// The rune that the artifact mints, if any: a cenotaph mints as the
    /// runestone would have.
    pub fn mint(&self) -> (r: Option<RuneId>)
        ensures
            r == self@.mint(),
    {
        match self {
            Artifact::Cenotaph(cenotaph) => cenotaph.mint,
            Artifact::Runestone(runestone) => runestone.mint,
        }
    }
}

} // verus!
