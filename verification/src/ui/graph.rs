//! What the history graph knows of a commit besides its lane: who wrote it, as the mark and
//! the fingerprint its avatar is found by.
use crate::avatar::{cell_of, colour_of, fingerprint_input, generated, sha256_digest, Generated, Identity};
use crate::git::read::CommitSummary;
use vstd::prelude::*;

verus! {

/// A commit's author as the graph draws them.
#[derive(Clone, Copy)]
pub struct Author {
    pub fingerprint: [u8; 32],
    pub generated: Generated,
}

/// The digest an author's avatar and mark come from.
pub open spec fn author_digest(commit: CommitSummary) -> Seq<u8> {
    sha256_digest(fingerprint_input(commit.author.name@, commit.author.email@))
}

/// Whether `author` is how the graph draws the author of `commit`: the fingerprint of the
/// commit's author, and the mark generated from it.
pub open spec fn drawn_as(author: Author, commit: CommitSummary) -> bool {
    &&& author.fingerprint@ == author_digest(commit)
    &&& forall|i: int| 0 <= i < 25 ==> author.generated.cells@[i] == cell_of(author_digest(commit), i)
    &&& author.generated.colour@ == colour_of(author_digest(commit)[0] as int)
}

/// The author of a commit as the graph draws them.
pub fn author_of(commit: &CommitSummary) -> (author: Author)
    ensures
        drawn_as(author, *commit),
{
    let identity = Identity { name: commit.author.name.clone(), email: commit.author.email.clone() };
    Author { fingerprint: identity.fingerprint(), generated: generated(&identity) }
}

} // verus!
