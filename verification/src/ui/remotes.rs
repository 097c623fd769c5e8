//! The dialog that asks which remotes a fetch or a push reaches, when a repository has more
//! than one of them.
use crate::text::{chars_of, decimal, decimal_of, holds, same, string_of, texts};
use vstd::prelude::*;

verus! {

/// A remote a push would go to, and what it would send there. Worked out when the dialog
/// opens, because a reader deciding where to push is deciding on these numbers.
pub struct Destination {
    pub remote: String,
    /// Commits the remote has no ref for; `None` when git could not count them.
    pub commits: Option<usize>,
    /// False when the remote carries no branch by this name, so the push would create one.
    pub exists: bool,
}

/// Which remotes a fetch or a push reaches. `chosen` never holds a name twice.
pub enum Dialog {
    Fetch { remotes: Vec<String>, chosen: Vec<String> },
    Push {
        branch: String,
        destinations: Vec<Destination>,
        chosen: Vec<String>,
        upstream: bool,
    },
}

pub open spec fn remote_names(destinations: Seq<Destination>) -> Seq<Seq<char>> {
    destinations.map_values(|d: Destination| d.remote@)
}

/// The names in `listed` that are chosen, in the order they are listed.
pub open spec fn taken_of(listed: Seq<Seq<char>>, chosen: Set<Seq<char>>) -> Seq<Seq<char>>
    decreases listed.len(),
{
    if listed.len() == 0 {
        Seq::empty()
    } else if chosen.contains(listed.last()) {
        taken_of(listed.drop_last(), chosen).push(listed.last())
    } else {
        taken_of(listed.drop_last(), chosen)
    }
}

impl Dialog {
    /// The chosen names, as a set.
    pub open spec fn chosen_set(&self) -> Set<Seq<char>> {
        match self {
            Dialog::Fetch { chosen, .. } => texts(chosen@).to_set(),
            Dialog::Push { chosen, .. } => texts(chosen@).to_set(),
        }
    }

    /// The remotes the dialog lists, in order.
    pub open spec fn listed(&self) -> Seq<Seq<char>> {
        match self {
            Dialog::Fetch { remotes, .. } => texts(remotes@),
            Dialog::Push { destinations, .. } => remote_names(destinations@),
        }
    }

    /// No name is chosen twice.
    pub open spec fn well_formed(&self) -> bool {
        match self {
            Dialog::Fetch { chosen, .. } => texts(chosen@).no_duplicates(),
            Dialog::Push { chosen, .. } => texts(chosen@).no_duplicates(),
        }
    }

    /// A fetch dialog with every remote checked: a fetch writes nothing outside
    /// `refs/remotes`, so the wide answer is the safe one.
    pub fn fetch(remotes: Vec<String>) -> (dialog: Dialog)
        ensures
            dialog is Fetch,
            dialog.well_formed(),
            dialog.listed() == texts(remotes@),
            dialog.chosen_set() == texts(remotes@).to_set(),
    {
        let mut chosen: Vec<String> = Vec::new();
        for i in 0..remotes.len()
            invariant
                texts(chosen@).no_duplicates(),
                texts(chosen@).to_set() == texts(remotes@).take(i as int).to_set(),
        {
            proof {
                assert(texts(remotes@).take(i + 1) == texts(remotes@).take(i as int).push(
                    remotes@[i as int]@,
                ));
            }
            let ghost was = texts(chosen@);
            if !holds(&chosen, &remotes[i]) {
                chosen.push(remotes[i].clone());
                assert(texts(chosen@) == was.push(remotes@[i as int]@));
                proof {
                    was.lemma_push_to_set_commute(remotes@[i as int]@);
                }
            } else {
                assert(was.to_set().contains(remotes@[i as int]@));
            }
            proof {
                texts(remotes@).take(i as int).lemma_push_to_set_commute(remotes@[i as int]@);
                assert(texts(chosen@).to_set() =~= texts(remotes@).take(i + 1).to_set());
            }
        }
        assert(texts(remotes@).take(remotes.len() as int) == texts(remotes@));
        Dialog::Fetch { remotes, chosen }
    }

    /// A push dialog with nothing checked, unlike a fetch: a push writes to somebody else's
    /// repository and the reader should name which one. The branch is not set as upstream
    /// until asked.
    pub fn push(branch: String, destinations: Vec<Destination>) -> (dialog: Dialog)
        ensures
            dialog matches Dialog::Push { branch: b, destinations: d, upstream, .. } && b@ == branch@
                && d@ == destinations@ && !upstream,
            dialog.well_formed(),
            dialog.listed() == remote_names(destinations@),
            dialog.chosen_set() == Set::<Seq<char>>::empty(),
    {
        let chosen: Vec<String> = Vec::new();
        assert(texts(chosen@).to_set() =~= Set::<Seq<char>>::empty());
        Dialog::Push { branch, destinations, chosen, upstream: false }
    }

    /// Checks `remote` if it was not checked, and unchecks it if it was.
    pub fn toggle(&mut self, remote: &str)
        requires
            old(self).well_formed(),
        ensures
            final(self).well_formed(),
            final(self).listed() == old(self).listed(),
            final(self).chosen_set() == if old(self).chosen_set().contains(remote@) {
                old(self).chosen_set().remove(remote@)
            } else {
                old(self).chosen_set().insert(remote@)
            },
            (*final(self) is Fetch) == (*old(self) is Fetch),
            *final(self) matches Dialog::Fetch { remotes, .. } ==> *old(
                self,
            ) matches Dialog::Fetch { remotes: r, .. } && remotes@ == r@,
            *final(self) matches Dialog::Push { branch, destinations, upstream, .. } ==> *old(
                self,
            ) matches Dialog::Push { branch: b, destinations: d, upstream: u, .. } && branch == b
                && destinations@ == d@ && upstream == u,
    {
        match self {
            Dialog::Fetch { chosen, .. } => toggle_name(chosen, remote),
            Dialog::Push { chosen, .. } => toggle_name(chosen, remote),
        }
    }

    /// The chosen remotes, in the order they are listed, so the reader's eye and the
    /// commands run agree on which comes first.
    pub fn taken(&self) -> (names: Vec<String>)
        ensures
            texts(names@) == taken_of(self.listed(), self.chosen_set()),
    {
        let mut names: Vec<String> = Vec::new();
        match self {
            Dialog::Fetch { remotes, chosen } => {
                for i in 0..remotes.len()
                    invariant
                        texts(names@) == taken_of(
                            texts(remotes@).take(i as int),
                            texts(chosen@).to_set(),
                        ),
                {
                    assert(texts(remotes@).take(i + 1).drop_last() == texts(remotes@).take(
                        i as int,
                    ));
                    assert(texts(remotes@).take(i + 1).last() == remotes@[i as int]@);
                    if holds(chosen, &remotes[i]) {
                        let ghost before = names@;
                        names.push(remotes[i].clone());
                        assert(texts(names@) == texts(before).push(remotes@[i as int]@));
                    }
                }
                assert(texts(remotes@).take(remotes.len() as int) == texts(remotes@));
            },
            Dialog::Push { destinations, chosen, .. } => {
                for i in 0..destinations.len()
                    invariant
                        texts(names@) == taken_of(
                            remote_names(destinations@).take(i as int),
                            texts(chosen@).to_set(),
                        ),
                {
                    assert(remote_names(destinations@).take(i + 1).drop_last() == remote_names(
                        destinations@,
                    ).take(i as int));
                    assert(remote_names(destinations@).take(i + 1).last()
                        == destinations@[i as int].remote@);
                    if holds(chosen, &destinations[i].remote) {
                        let ghost before = names@;
                        names.push(destinations[i].remote.clone());
                        assert(texts(names@) == texts(before).push(
                            destinations@[i as int].remote@,
                        ));
                    }
                }
                assert(remote_names(destinations@).take(destinations.len() as int)
                    == remote_names(destinations@));
            },
        }
        names
    }

    /// Flips whether a push records the branch as its upstream; a fetch has no such choice.
    pub fn toggle_upstream(&mut self)
        ensures
            match *old(self) {
                Dialog::Push { branch, destinations, chosen, upstream } => *final(self)
                    == Dialog::Push { branch, destinations, chosen, upstream: !upstream },
                Dialog::Fetch { .. } => *final(self) == *old(self),
            },
    {
        match self {
            Dialog::Push { upstream, .. } => {
                *upstream = !*upstream;
            },
            Dialog::Fetch { .. } => {},
        }
    }
}

/// Checking a remote and checking it again leaves the choice as it was.
pub proof fn lemma_toggle_twice(chosen: Set<Seq<char>>, remote: Seq<char>)
    ensures
        ({
            let once = if chosen.contains(remote) {
                chosen.remove(remote)
            } else {
                chosen.insert(remote)
            };
            let twice = if once.contains(remote) {
                once.remove(remote)
            } else {
                once.insert(remote)
            };
            twice == chosen
        }),
{
    let once = if chosen.contains(remote) {
        chosen.remove(remote)
    } else {
        chosen.insert(remote)
    };
    let twice = if once.contains(remote) {
        once.remove(remote)
    } else {
        once.insert(remote)
    };
    assert(twice =~= chosen);
}

fn toggle_name(chosen: &mut Vec<String>, remote: &str)
    requires
        texts(old(chosen)@).no_duplicates(),
    ensures
        texts(final(chosen)@).no_duplicates(),
        texts(final(chosen)@).to_set() == if texts(old(chosen)@).to_set().contains(remote@) {
            texts(old(chosen)@).to_set().remove(remote@)
        } else {
            texts(old(chosen)@).to_set().insert(remote@)
        },
{
    let ghost before = texts(chosen@);
    let name = chars_of(remote);
    let mut i: usize = 0;
    while i < chosen.len()
        invariant
            texts(chosen@) == before,
            before == texts(old(chosen)@),
            name@ == remote@,
            before.no_duplicates(),
            i <= chosen.len(),
            forall|j: int| 0 <= j < i ==> before[j] != remote@,
        decreases chosen.len() - i,
    {
        assert(before[i as int] == chosen@[i as int]@);
        let here = chars_of(chosen[i].as_str());
        assert(here@ == chosen@[i as int]@);
        if same(&here, &name) {
            assert(before[i as int] == remote@);
            chosen.remove(i);
            proof {
                assert(texts(chosen@) =~= before.remove(i as int));
                assert forall|x: Seq<char>| before.remove(i as int).contains(x) <==> (before.contains(
                    x,
                ) && x != remote@) by {
                    if before.remove(i as int).contains(x) {
                        let k = choose|k: int|
                            0 <= k < before.len() - 1 && before.remove(i as int)[k] == x;
                        if k < i {
                            assert(before[k] == x);
                        } else {
                            assert(before[k + 1] == x);
                        }
                    }
                    if before.contains(x) && x != remote@ {
                        let k = choose|k: int| 0 <= k < before.len() && before[k] == x;
                        if k < i {
                            assert(before.remove(i as int)[k] == x);
                        } else {
                            assert(k != i);
                            assert(before.remove(i as int)[k - 1] == x);
                        }
                    }
                }
                assert(before.contains(remote@));
                assert(before.to_set().contains(remote@));
                assert(texts(chosen@).to_set() =~= before.to_set().remove(remote@));
            }
            return;
        }
        i = i + 1;
    }
    chosen.push(remote.to_owned());
    proof {
        assert(texts(chosen@) =~= before.push(remote@));
        assert(!before.contains(remote@));
        before.lemma_push_to_set_commute(remote@);
        assert forall|a: int, b: int| 0 <= a < b < before.len() + 1 implies before.push(remote@)[a]
            != before.push(remote@)[b] by {
            if b == before.len() {
                assert(before[a] != remote@);
            }
        }
        assert(texts(chosen@).to_set() =~= before.to_set().insert(remote@));
    }
}

/// What a push would do to a remote, in the words the reader needs before checking it.
pub open spec fn sending_text(
    remote: Seq<char>,
    commits: Option<usize>,
    exists: bool,
    branch: Seq<char>,
) -> Seq<char> {
    let count = match commits {
        Some(n) => if n == 1 {
            "1 commit"@
        } else {
            decimal(n as nat) + " commits"@
        },
        None => "commits git would not count"@,
    };
    if exists {
        count + " onto "@ + remote + "/"@ + branch
    } else {
        count + ", creating "@ + remote + "/"@ + branch
    }
}

pub fn sending(destination: &Destination, branch: &str) -> (text: String)
    ensures
        text@ == sending_text(
            destination.remote@,
            destination.commits,
            destination.exists,
            branch@,
        ),
{
    let mut text = match destination.commits {
        Some(n) => {
            if n == 1 {
                chars_of("1 commit")
            } else {
                let mut count = decimal_of(n as u64);
                count.append(&mut chars_of(" commits"));
                count
            }
        },
        None => chars_of("commits git would not count"),
    };
    if destination.exists {
        text.append(&mut chars_of(" onto "));
    } else {
        text.append(&mut chars_of(", creating "));
    }
    text.append(&mut chars_of(destination.remote.as_str()));
    text.append(&mut chars_of("/"));
    text.append(&mut chars_of(branch));
    string_of(&text)
}

} // verus!
