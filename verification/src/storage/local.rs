use crate::path_text::{join_path, joined};
use vstd::prelude::*;

verus! {

/// The local backend needs no per-request context.
#[derive(Default, Clone, Debug)]
pub struct LocalContext {}

/// Files kept under a root directory of the local file system.
pub struct LocalStorage {
    root: String,
}

impl LocalStorage {
    pub closed spec fn spec_root(&self) -> Seq<char> {
        self.root@
    }

    /// A backend rooted at `root` (which the caller has made sure exists).
    pub fn from_root(root: String) -> (s: Self)
        ensures
            s.spec_root() == root@,
    {
        LocalStorage { root }
    }

    /// The root directory.
    pub fn root(&self) -> (r: &str)
        ensures
            r@ == self.spec_root(),
    {
        self.root.as_str()
    }

    /// Where a storage path lives on disk: the root joined with it.
    pub fn full_path(&self, path: &str) -> (p: String)
        ensures
            p@ == joined(self.spec_root(), path@),
    {
        join_path(self.root.as_str(), path)
    }
}

} // verus!

verus! {

use crate::path_text::{
    comps_of, comps_start_with, comps_wf, components, lemma_components_render, lemma_components_wf,
    parent_comps, path_components, push_joined, render_comps, render_components,
    starts_with_components, Comp, PathComponent,
};

proof fn lemma_wf_drop_last(c: Seq<Comp>)
    requires
        comps_wf(c),
        c.len() > 0,
    ensures
        comps_wf(c.drop_last()),
{
    let d = c.drop_last();
    assert forall|i: int| 0 < i < d.len() implies !(#[trigger] d[i] is Root) && !(d[i] is Cur) by {
        assert(d[i] == c[i]);
    }
    assert forall|i: int| 0 <= i < d.len() implies (#[trigger] d[i] matches Comp::Normal(n) ==> crate::endpoint::sanitize::plain_name(n)) by {
        assert(d[i] == c[i]);
    }
}

proof fn lemma_wf_skip(c: Seq<Comp>, k: int)
    requires
        comps_wf(c),
        0 <= k <= c.len(),
    ensures
        comps_wf(c.skip(k)),
        k > 0 && k < c.len() ==> !(c.skip(k)[0] is Root) && !(c.skip(k)[0] is Cur),
{
    let d = c.skip(k);
    assert forall|i: int| 0 < i < d.len() implies !(#[trigger] d[i] is Root) && !(d[i] is Cur) by {
        assert(d[i] == c[i + k]);
    }
    assert forall|i: int| 0 <= i < d.len() implies (#[trigger] d[i] matches Comp::Normal(n) ==> crate::endpoint::sanitize::plain_name(n)) by {
        assert(d[i] == c[i + k]);
    }
    if k > 0 && k < c.len() {
        assert(d[0] == c[k]);
    }
}

/// What removing empty directories after a delete looks at next: the
/// parent of `current`, unless there is none, it is the root itself, or it
/// lies outside the root.
pub open spec fn cleanup_next(root: Seq<char>, current: Seq<char>) -> Option<Seq<Comp>> {
    match parent_comps(components(current)) {
        None => None,
        Some(p) => if p == components(root) || !comps_start_with(p, components(root)) {
            None
        } else {
            Some(p)
        },
    }
}

/// The directories that removing empty parents takes away after the file
/// at components `c` was deleted, where `empty` tells which directories are
/// empty when the climb reaches them: from the file's parent upwards, each
/// directory strictly below the root is removed while it is empty; the
/// climb stops at the first one that is not, at the root, or outside it.
pub open spec fn cleanup_climb(root: Seq<Comp>, c: Seq<Comp>, empty: spec_fn(Seq<Comp>) -> bool) -> Seq<
    Seq<Comp>,
>
    decreases c.len(),
{
    match parent_comps(c) {
        None => Seq::empty(),
        Some(p) => if p == root || !comps_start_with(p, root) || !empty(p) {
            Seq::empty()
        } else {
            seq![p] + cleanup_climb(root, p, empty)
        },
    }
}

/// Where a climb that has removed `removed` stands: at the last directory
/// removed, or at the deleted file when none was.
pub open spec fn climb_end(c: Seq<Comp>, removed: Seq<Seq<Comp>>) -> Seq<Comp> {
    if removed.len() == 0 {
        c
    } else {
        removed.last()
    }
}

/// After a delete, the empty directories above the file are removed bottom
/// up, up to the first one that is not empty: every directory removed is an
/// ancestor of the file, nearest first, lies strictly below the root and
/// was empty; the root and everything off the file's path stay; and the
/// climb ends where the next parent is missing, is the root, lies outside
/// it, or is not empty.
pub proof fn lemma_cleanup_removes_empty_ancestors(
    root: Seq<Comp>,
    c: Seq<Comp>,
    empty: spec_fn(Seq<Comp>) -> bool,
)
    ensures
        ({
            let removed = cleanup_climb(root, c, empty);
            &&& removed.len() < c.len() || c.len() == 0
            &&& forall|i: int|
                0 <= i < removed.len() ==> {
                    &&& #[trigger] removed[i] == c.take(c.len() - 1 - i)
                    &&& comps_start_with(removed[i], root)
                    &&& removed[i] != root
                    &&& empty(removed[i])
                }
            &&& match parent_comps(climb_end(c, removed)) {
                None => true,
                Some(q) => q == root || !comps_start_with(q, root) || !empty(q),
            }
        }),
    decreases c.len(),
{
    match parent_comps(c) {
        None => {},
        Some(p) => {
            if p == root || !comps_start_with(p, root) || !empty(p) {
            } else {
                if p.len() == 0 {
                    assert(root =~= p);
                }
                lemma_cleanup_removes_empty_ancestors(root, p, empty);
                let rest = cleanup_climb(root, p, empty);
                let removed = cleanup_climb(root, c, empty);
                assert(removed == seq![p] + rest);
                assert forall|i: int| 0 <= i < removed.len() implies {
                    &&& #[trigger] removed[i] == c.take(c.len() - 1 - i)
                    &&& comps_start_with(removed[i], root)
                    &&& removed[i] != root
                    &&& empty(removed[i])
                } by {
                    if i == 0 {
                        assert(c.take(c.len() - 1) =~= p);
                    } else {
                        assert(removed[i] == rest[i - 1]);
                        assert(p.take(p.len() - 1 - (i - 1)) =~= c.take(c.len() - 1 - i));
                    }
                }
                if rest.len() > 0 {
                    assert(removed.last() == rest.last());
                }
            }
        },
    }
}

/// One step of the climb is what `cleanup_parent` decides: from a path
/// with components `components(s)`, the next directory looked at is
/// `cleanup_next`, and when it is empty the climb goes on from it.
pub proof fn lemma_cleanup_climb_step(root: Seq<char>, s: Seq<char>, empty: spec_fn(Seq<Comp>) -> bool)
    ensures
        cleanup_climb(components(root), components(s), empty) == match cleanup_next(root, s) {
            None => Seq::<Seq<Comp>>::empty(),
            Some(p) => if empty(p) {
                seq![p] + cleanup_climb(components(root), p, empty)
            } else {
                Seq::<Seq<Comp>>::empty()
            },
        },
{
}

/// How the local backend names a listed entry: relative to the root when
/// the entry lies below it, else by its full path.
pub open spec fn relative_entry(root: Seq<char>, entry: Seq<char>) -> Option<Seq<Comp>> {
    if comps_start_with(components(entry), components(root)) {
        Some(components(entry).skip(components(root).len() as int))
    } else {
        None
    }
}

/// The local backend's refusals.
#[derive(Debug)]
pub enum LocalError {
    /// A put aimed at an existing directory.
    TargetIsDirectory,
    /// A put below something that is a file.
    ParentIsFile,
    /// A delete aimed at a directory.
    DirectoryDelete,
}

impl LocalError {
    pub open spec fn spec_message(&self) -> Seq<char> {
        match self {
            LocalError::TargetIsDirectory => "Cannot overwrite a directory with a file"@,
            LocalError::ParentIsFile => "Parent path component is a file, not a directory"@,
            LocalError::DirectoryDelete => "Manual deletion of directories is not allowed"@,
        }
    }

    /// The message the refusal is reported with.
    pub fn message(&self) -> (m: &'static str)
        ensures
            m@ == self.spec_message(),
    {
        match self {
            LocalError::TargetIsDirectory => "Cannot overwrite a directory with a file",
            LocalError::ParentIsFile => "Parent path component is a file, not a directory",
            LocalError::DirectoryDelete => "Manual deletion of directories is not allowed",
        }
    }
}

impl LocalStorage {
    /// Decides whether a file may be written: never over a directory, never
    /// below a file.
    pub fn check_put(target_is_dir: bool, parent_is_file: bool) -> (r: Result<(), LocalError>)
        ensures
            target_is_dir ==> r matches Err(LocalError::TargetIsDirectory),
            !target_is_dir && parent_is_file ==> r matches Err(LocalError::ParentIsFile),
            !target_is_dir && !parent_is_file ==> r is Ok,
    {
        if target_is_dir {
            Err(LocalError::TargetIsDirectory)
        } else if parent_is_file {
            Err(LocalError::ParentIsFile)
        } else {
            Ok(())
        }
    }

    /// Decides whether a path may be deleted: directories never are; they
    /// disappear when their last file goes.
    pub fn check_delete(target_is_dir: bool) -> (r: Result<(), LocalError>)
        ensures
            target_is_dir <==> r is Err,
            r matches Err(e) ==> e == LocalError::DirectoryDelete,
    {
        if target_is_dir {
            Err(LocalError::DirectoryDelete)
        } else {
            Ok(())
        }
    }

    /// After `current` was removed, the directory to check for emptiness
    /// (and remove when empty) next; `None` when the climb stops.
    pub fn cleanup_parent(&self, current: &str) -> (r: Option<String>)
        ensures
            match cleanup_next(self.spec_root(), current@) {
                None => r is None,
                Some(p) => r matches Some(s) && components(s@) == p,
            },
    {
        let mut comps = path_components(current);
        let n = comps.len();
        if n == 0 {
            return None;
        }
        if let PathComponent::RootDir = &comps[n - 1] {
            return None;
        }
        let ghost all = comps_of(comps@);
        comps.pop();
        proof {
            assert(comps_of(comps@) =~= all.drop_last());
        }
        let root = path_components(self.root.as_str());
        let same = root.len() == comps.len() && starts_with_components(&comps, &root);
        let below = starts_with_components(&comps, &root);
        proof {
            if root.len() == comps.len() && comps_start_with(comps_of(comps@), comps_of(root@)) {
                assert(comps_of(comps@) =~= comps_of(comps@).take(comps@.len() as int));
            }
            if comps_of(comps@) == comps_of(root@) {
                assert(comps_of(comps@).take(comps_of(root@).len() as int) =~= comps_of(comps@));
            }
        }
        if same || !below {
            return None;
        }
        proof {
            lemma_components_wf(current@);
            lemma_wf_drop_last(all);
            lemma_components_render(comps_of(comps@));
        }
        Some(render_components(&comps))
    }

    /// The name a listed entry at `entry` is reported under.
    pub fn relative_path(&self, entry: &str) -> (r: String)
        ensures
            match relative_entry(self.spec_root(), entry@) {
                None => r@ == entry@,
                Some(rest) => components(r@) == rest,
            },
    {
        let comps = path_components(entry);
        let root = path_components(self.root.as_str());
        if !starts_with_components(&comps, &root) {
            return String::from_str(entry);
        }
        let k = root.len();
        proof {
            lemma_components_wf(entry@);
            lemma_wf_skip(comps_of(comps@), k as int);
            lemma_components_render(comps_of(comps@).skip(k as int));
        }
        if k == 0 {
            proof {
                assert(comps_of(comps@).skip(0) =~= comps_of(comps@));
            }
            return render_components(&comps);
        }
        let mut out = String::new();
        push_joined(&mut out, &comps, k);
        proof {
            let rest = comps_of(comps@).skip(k as int);
            if rest.len() > 0 {
                assert(render_comps(rest) == crate::path_text::join_comps(rest));
            } else {
                assert(rest =~= Seq::<Comp>::empty());
            }
            assert(out@ =~= render_comps(rest));
        }
        out
    }
}

} // verus!
