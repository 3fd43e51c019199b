use crate::storage::Resource;
use vstd::prelude::*;

verus! {

/// What the garbage collector asks its driver to do next.
#[derive(Debug)]
pub enum PruneAction {
    /// List the directory at this path and report the entries.
    List(String),
    /// Try to delete the file at this path (the storage may refuse).
    Delete(String),
    /// Everything reachable has been visited.
    Finished,
    /// A listing failed; the walk stops.
    Failed,
}

/// An entry as the walk sees it: whether it is a directory, and its path.
pub open spec fn entry_step(r: Resource) -> (bool, Seq<char>) {
    match r {
        Resource::File { path, .. } => (false, path@),
        Resource::Directory { path, .. } => (true, path@),
    }
}

/// The next step of a depth-first walk over the pending entries of each
/// open directory (innermost last): finished directories are closed, then
/// the first pending entry of the innermost one is taken.  `None` when
/// nothing is pending.
pub open spec fn next_step(frames: Seq<Seq<Resource>>) -> (Seq<Seq<Resource>>, Option<(bool, Seq<char>)>)
    decreases frames.len(),
{
    if frames.len() == 0 {
        (frames, None)
    } else if frames.last().len() == 0 {
        next_step(frames.drop_last())
    } else {
        let top = frames.last();
        (frames.update(frames.len() - 1, top.skip(1)), Some(entry_step(top[0])))
    }
}

/// A walk only takes what a listing reported: the next step is an entry
/// pending in one of the open directories, so a file is offered for
/// deletion only where a listing showed a file, and a directory is only
/// ever listed.
pub proof fn lemma_step_takes_listed_entry(frames: Seq<Seq<Resource>>)
    ensures
        next_step(frames).1 matches Some((is_dir, p)) ==> exists|i: int, j: int|
            0 <= i < frames.len() && 0 <= j < frames[i].len() && {
                let r = #[trigger] frames[i][j];
                &&& is_dir == (r is Directory)
                &&& entry_step(r).1 == p
            },
    decreases frames.len(),
{
    if frames.len() > 0 {
        if frames.last().len() == 0 {
            let rest = frames.drop_last();
            lemma_step_takes_listed_entry(rest);
            if let Some((is_dir, p)) = next_step(frames).1 {
                let (i, j) = choose|i: int, j: int|
                    0 <= i < rest.len() && 0 <= j < rest[i].len() && {
                        let r = #[trigger] rest[i][j];
                        &&& is_dir == (r is Directory)
                        &&& entry_step(r).1 == p
                    };
                assert(rest[i] == frames[i]);
            }
        } else {
            let i = frames.len() - 1;
            assert(frames[i] == frames.last());
            assert(frames[i][0] == frames.last()[0]);
        }
    }
}

/// The pending entries in the order a walk takes them: the innermost open
/// directory's entries first, then those of the directory around it.
pub open spec fn pending_order(frames: Seq<Seq<Resource>>) -> Seq<Resource>
    decreases frames.len(),
{
    if frames.len() == 0 {
        Seq::empty()
    } else {
        frames.last() + pending_order(frames.drop_last())
    }
}

/// A walk takes every pending entry exactly once: each step takes the next
/// entry in walk order and leaves all the others pending, and the walk
/// stops only when nothing is pending.
pub proof fn lemma_step_takes_exactly_the_next_entry(frames: Seq<Seq<Resource>>)
    ensures
        match next_step(frames) {
            (rest, None) => pending_order(frames).len() == 0 && pending_order(rest).len() == 0,
            (rest, Some(step)) => {
                &&& pending_order(frames).len() > 0
                &&& step == entry_step(pending_order(frames)[0])
                &&& pending_order(rest) == pending_order(frames).skip(1)
            },
        },
    decreases frames.len(),
{
    if frames.len() > 0 {
        let top = frames.last();
        let below = frames.drop_last();
        if top.len() == 0 {
            lemma_step_takes_exactly_the_next_entry(below);
            assert(pending_order(frames) =~= pending_order(below));
        } else {
            let rest = frames.update(frames.len() - 1, top.skip(1));
            assert(rest.drop_last() =~= below);
            assert(rest.last() == top.skip(1));
            assert(pending_order(rest) =~= pending_order(frames).skip(1));
        }
    }
}

/// Reporting a listing puts its entries first in walk order, in listing
/// order, ahead of everything already pending.
pub proof fn lemma_listing_is_walked_next(frames: Seq<Seq<Resource>>, entries: Seq<Resource>)
    ensures
        pending_order(frames.push(entries)) == entries + pending_order(frames),
{
    assert(frames.push(entries).drop_last() =~= frames);
}

pub open spec fn action_step(a: PruneAction) -> Option<(bool, Seq<char>)> {
    match a {
        PruneAction::List(p) => Some((true, p@)),
        PruneAction::Delete(p) => Some((false, p@)),
        _ => None,
    }
}

/// The decisions of a prune over a storage: every file reachable from the
/// starting directory is offered for deletion, depth first, in listing
/// order; directories are only ever listed, never deleted directly.
pub struct Pruner {
    frames: Vec<(Vec<Resource>, usize)>,
}

pub open spec fn frame_view(f: (Vec<Resource>, usize)) -> Seq<Resource> {
    f.0@.skip(f.1 as int)
}

impl Pruner {
    pub closed spec fn pending(&self) -> Seq<Seq<Resource>> {
        self.frames@.map_values(|f: (Vec<Resource>, usize)| frame_view(f))
    }

    pub closed spec fn wf(&self) -> bool {
        forall|i: int| 0 <= i < self.frames@.len() ==> #[trigger] self.frames@[i].1 <= self.frames@[i].0@.len()
    }

    /// A walk starting at `root`: the first step lists it.
    pub fn start(root: String) -> (r: (Pruner, PruneAction))
        ensures
            r.0.wf(),
            r.0.pending() == Seq::<Seq<Resource>>::empty(),
            r.1 == PruneAction::List(root),
    {
        let p = Pruner { frames: Vec::new() };
        assert(p.pending() =~= Seq::<Seq<Resource>>::empty());
        (p, PruneAction::List(root))
    }

    /// The entries of the directory just listed: they become pending, and
    /// the walk goes on with the first of them.
    pub fn listed(&mut self, entries: Vec<Resource>) -> (a: PruneAction)
        requires
            old(self).wf(),
        ensures
            final(self).wf(),
            (final(self).pending(), action_step(a)) == next_step(old(self).pending().push(entries@)),
            a is Finished || a is List || a is Delete,
    {
        let ghost before = self.pending();
        self.frames.push((entries, 0));
        proof {
            assert(self.pending() =~= before.push(entries@)) by {
                assert(frame_view((entries, 0usize)) =~= entries@);
            }
        }
        self.advance()
    }

    /// The attempt to delete the offered file is over, however it went: the
    /// walk goes on.
    pub fn deleted(&mut self) -> (a: PruneAction)
        requires
            old(self).wf(),
        ensures
            final(self).wf(),
            (final(self).pending(), action_step(a)) == next_step(old(self).pending()),
            a is Finished || a is List || a is Delete,
    {
        self.advance()
    }

    /// A listing failed: the walk stops with a failure.
    pub fn list_failed(&mut self) -> (a: PruneAction)
        ensures
            final(self).wf(),
            final(self).pending() == Seq::<Seq<Resource>>::empty(),
            a is Failed,
    {
        self.frames = Vec::new();
        assert(self.pending() =~= Seq::<Seq<Resource>>::empty());
        PruneAction::Failed
    }

    fn advance(&mut self) -> (a: PruneAction)
        requires
            old(self).wf(),
        ensures
            final(self).wf(),
            (final(self).pending(), action_step(a)) == next_step(old(self).pending()),
            a is Finished || a is List || a is Delete,
    {
        loop
            invariant
                self.wf(),
                next_step(self.pending()) == next_step(old(self).pending()),
            decreases self.frames@.len(),
        {
            let n = self.frames.len();
            if n == 0 {
                return PruneAction::Finished;
            }
            let ghost before = self.pending();
            let top = self.frames.pop().unwrap();
            proof {
                assert(self.pending() =~= before.drop_last());
                assert(before.last() == frame_view(top));
            }
            if top.1 >= top.0.len() {
                proof {
                    assert(frame_view(top).len() == 0);
                }
            } else {
                let (items, idx) = top;
                let action = match &items[idx] {
                    Resource::File { path, .. } => PruneAction::Delete(path.clone()),
                    Resource::Directory { path, .. } => PruneAction::List(path.clone()),
                };
                self.frames.push((items, idx + 1));
                proof {
                    let v = frame_view((items, idx));
                    assert(frame_view((items, (idx + 1) as usize)) =~= v.skip(1));
                    assert(v[0] == items@[idx as int]);
                    assert(self.pending() =~= before.update(before.len() - 1, v.skip(1)));
                }
                return action;
            }
        }
    }
}

} // verus!
