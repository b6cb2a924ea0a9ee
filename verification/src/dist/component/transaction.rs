//! Transactions: the changes that install or remove a component are staged in
//! a temporary copy of the installation object, which a commit moves into place
//! together with a new reference to it, and which is removed again when the
//! transaction is abandoned.
//!
//! A transaction decides which file-system actions to take; the caller carries
//! them out, on a disk or on a `FsModel`, and reports back what it found where
//! a decision depends on it. Paths are not resolved: a relative path that climbs
//! out with `..` is taken as it is written.
use vstd::prelude::*;

use crate::dist::prefix::{InstallPrefix, InstallPrefixWithOrigin};
use crate::fs_model::{
    action_effect, action_touches, agree_at, key_within, related, run_all_effect, run_effect,
    without, FsAction, Key, NodeView,
};
use crate::path::{spec_file_name, spec_join, spec_parent, FsPath, PathView};

verus! {

/// Why a transaction refused a request.
#[derive(Debug)]
pub enum TxError {
    /// The reference path has no file name.
    NoReferenceName,
    /// The installation prefix has no file name.
    NoObjectName,
    /// A component asked to remove a file that is not there.
    ComponentMissingFile { name: String, path: FsPath },
    /// A component asked to remove a directory that is not there.
    ComponentMissingDir { name: String, path: FsPath },
}

/// Whether `a` creates the directory `v` and its missing ancestors.
pub open spec fn is_ensure_dir(a: FsAction, v: PathView) -> bool {
    a matches FsAction::EnsureDir { path } && path@ == v
}

/// Whether `acts` makes sure that the parent directory of `abs` exists.
pub open spec fn prepares_parent(acts: Seq<FsAction>, abs: PathView) -> bool {
    match spec_parent(abs) {
        Some(p) => acts.len() == 1 && is_ensure_dir(acts[0], p),
        None => acts.len() == 0,
    }
}

/// Whether every path that `acts` may change lies on a line of descent with `p`.
pub open spec fn stays_related(acts: Seq<FsAction>, p: Key) -> bool {
    forall|i: int, x: Key|
        0 <= i < acts.len() && #[trigger] action_touches(acts[i], x) ==> related(p, x)
}

/// Whether `a` moves `s` to `d`.
pub open spec fn is_rename(a: FsAction, s: PathView, d: PathView) -> bool {
    a matches FsAction::Rename { src, dest, .. } && src@ == s && dest@ == d
}

/// Whether `a` removes the file (or link) `v`.
pub open spec fn is_remove_file(a: FsAction, v: PathView) -> bool {
    a matches FsAction::RemoveFile { path } && path@ == v
}

/// Whether `a` removes the directory (or link) `v`.
pub open spec fn is_remove_dir(a: FsAction, v: PathView) -> bool {
    a matches FsAction::RemoveDir { path } && path@ == v
}

/// The actions that commit a transaction: the staged object moves to the
/// installation prefix, then the staged reference to the reference path.
pub open spec fn commit_plan(
    acts: Seq<FsAction>,
    staging: PathView,
    prefix: PathView,
    staged_ref: PathView,
    reference: PathView,
) -> bool {
    acts.len() == 2 && is_rename(acts[0], staging, prefix) && is_rename(acts[1], staged_ref, reference)
}

/// The actions that abandon a transaction: the staged reference and the staged
/// object are removed.
pub open spec fn rollback_plan(acts: Seq<FsAction>, staging: PathView, staged_ref: PathView) -> bool {
    acts.len() == 2 && is_remove_dir(acts[0], staged_ref) && is_remove_dir(acts[1], staging)
}

/// A transaction on an installation prefix.
pub struct Transaction {
    prefix: InstallPrefix,
    ref_: FsPath,
    tmp_obj: FsPath,
    tmp_ref: FsPath,
    committed: bool,
    permit_copy_rename: bool,
}

proof fn lemma_within_trans(a: Key, b: Key, c: Key)
    requires
        key_within(a, b),
        key_within(b, c),
    ensures
        key_within(a, c),
{
    assert(a =~= c.subrange(0, a.len() as int)) by {
        assert forall|i: int| 0 <= i < a.len() implies a[i] == c[i] by {
            assert(a[i] == b[i]);
            assert(b[i] == c[i]);
        }
    }
}

proof fn lemma_join_within(t: Key, r: Key)
    ensures
        key_within(t, t + r),
{
    assert(t =~= (t + r).subrange(0, t.len() as int));
}

/// Every prefix of a path within `t`, or of its parent, lies on a line of
/// descent with `t`.
proof fn lemma_prefix_related(t: Key, k: Key, x: Key)
    requires
        key_within(t, k),
        key_within(x, k),
    ensures
        related(t, x),
{
    if x.len() <= t.len() {
        assert(x =~= t.subrange(0, x.len() as int)) by {
            assert forall|i: int| 0 <= i < x.len() implies x[i] == t[i] by {
                assert(x[i] == k[i]);
                assert(t[i] == k[i]);
            }
        }
    } else {
        assert(t =~= x.subrange(0, t.len() as int)) by {
            assert forall|i: int| 0 <= i < t.len() implies t[i] == x[i] by {
                assert(x[i] == k[i]);
                assert(t[i] == k[i]);
            }
        }
    }
}

impl Transaction {
    /// The staging directory: the temporary copy of the installation object.
    pub closed spec fn staging(&self) -> PathView {
        self.tmp_obj@
    }

    /// The staged reference, which a commit moves to the reference path.
    pub closed spec fn staged_ref(&self) -> PathView {
        self.tmp_ref@
    }

    /// The final path of the reference.
    pub closed spec fn reference(&self) -> PathView {
        self.ref_@
    }

    /// The installation prefix.
    pub closed spec fn prefix_path(&self) -> PathView {
        self.prefix.view()
    }

    /// Whether the transaction has been committed.
    pub closed spec fn is_committed(&self) -> bool {
        self.committed
    }

    /// Whether a move may fall back to a copy and a removal.
    pub closed spec fn permits_copy_rename(&self) -> bool {
        self.permit_copy_rename
    }

    /// The file names of the reference and of the object, which name the staged
    /// reference, the staged object and the object's lock.
    pub fn object_names(ref_: &FsPath, prefix: &InstallPrefixWithOrigin) -> (r: Result<
        (String, String),
        TxError,
    >)
        ensures
            spec_file_name(ref_@) is None ==> r matches Err(TxError::NoReferenceName),
            spec_file_name(ref_@) is Some && spec_file_name(prefix.dest.view()) is None ==> r matches Err(
                TxError::NoObjectName,
            ),
            r matches Ok((rn, on)) ==> spec_file_name(ref_@) == Some(rn@) && spec_file_name(
                prefix.dest.view(),
            ) == Some(on@),
            spec_file_name(ref_@) is Some && spec_file_name(prefix.dest.view()) is Some ==> r is Ok,
    {
        let ref_name = match ref_.file_name() {
            Some(n) => n,
            None => {
                return Err(TxError::NoReferenceName);
            },
        };
        let obj = match prefix.dest.path().file_name() {
            Some(n) => n,
            None => {
                return Err(TxError::NoObjectName);
            },
        };
        Ok((ref_name, obj))
    }

    /// Starts a transaction that installs into `prefix.dest` and points `ref_` to
    /// it, staging in `tmp_obj` and `tmp_ref`. Also gives the actions that set the
    /// staging up: the staging directory starts as a copy of the installation
    /// being modified (or empty), and the staged reference links to the object.
    pub fn new(
        ref_: FsPath,
        prefix: InstallPrefixWithOrigin,
        tmp_obj: FsPath,
        tmp_ref: FsPath,
        permit_copy_rename: bool,
    ) -> (r: Result<(Transaction, Vec<FsAction>), TxError>)
        ensures
            spec_file_name(ref_@) is None ==> r matches Err(TxError::NoReferenceName),
            spec_file_name(ref_@) is Some && spec_file_name(prefix.dest.view()) is None ==> r matches Err(
                TxError::NoObjectName,
            ),
            spec_file_name(ref_@) is Some && spec_file_name(prefix.dest.view()) is Some ==> r is Ok,
            r matches Ok((tx, acts)) ==> {
                &&& tx.staging() == tmp_obj@
                &&& tx.staged_ref() == tmp_ref@
                &&& tx.reference() == ref_@
                &&& tx.prefix_path() == prefix.dest.view()
                &&& !tx.is_committed()
                &&& tx.permits_copy_rename() == permit_copy_rename
                &&& acts@.len() == 2
                &&& match prefix.orig {
                    Some(o) => acts@[0] matches FsAction::CopyDir { src, dest } && src@
                        == o.view() && dest@ == tmp_obj@,
                    None => is_ensure_dir(acts@[0], tmp_obj@),
                }
                &&& acts@[1] matches FsAction::SymlinkDir { target, link } && link@ == tmp_ref@
                    && target@ == "../toolchains/"@ + spec_file_name(prefix.dest.view())->0
            },
    {
        let (_ref_name, obj) = match Transaction::object_names(&ref_, &prefix) {
            Ok(names) => names,
            Err(e) => {
                return Err(e);
            },
        };
        let mut acts: Vec<FsAction> = Vec::new();
        match &prefix.orig {
            Some(orig) => {
                acts.push(FsAction::CopyDir { src: orig.path().duplicate(), dest: tmp_obj.duplicate() });
            },
            None => {
                acts.push(FsAction::EnsureDir { path: tmp_obj.duplicate() });
            },
        }
        let mut target = String::from_str("../toolchains/");
        target.append(obj.as_str());
        acts.push(FsAction::SymlinkDir { target, link: tmp_ref.duplicate() });
        let tx = Transaction {
            prefix: prefix.dest,
            ref_,
            tmp_obj,
            tmp_ref,
            committed: false,
            permit_copy_rename,
        };
        Ok((tx, acts))
    }

    /// The path in the staging directory for `relpath`, and the action that makes
    /// sure that its parent directory exists.
    pub fn dest_abs_path(&self, relpath: &FsPath) -> (r: (FsPath, Vec<FsAction>))
        requires
            !relpath@.absolute,
        ensures
            r.0@ == spec_join(self.staging(), relpath@),
            prepares_parent(r.1@, r.0@),
            key_within(self.staging().components, r.0@.components),
            stays_related(r.1@, self.staging().components),
    {
        let abs = self.tmp_obj.join(relpath);
        let mut acts: Vec<FsAction> = Vec::new();
        match abs.parent() {
            Some(p) => {
                acts.push(FsAction::EnsureDir { path: p });
            },
            None => {},
        }
        proof {
            let t = self.staging().components;
            let k = abs@.components;
            lemma_join_within(t, relpath@.components);
            assert forall|i: int, x: Key|
                0 <= i < acts@.len() && #[trigger] action_touches(acts@[i], x) implies related(
                t,
                x,
            ) by {
                let pk = k.drop_last();
                assert(key_within(pk, k)) by {
                    assert(pk =~= k.subrange(0, pk.len() as int));
                }
                lemma_within_trans(x, pk, k);
                lemma_prefix_related(t, k, x);
            }
        }
        (abs, acts)
    }

    /// Asks to create an empty file at `relpath` in the staging directory, for
    /// the caller to write into.
    pub fn add_file(&self, component: &str, relpath: &FsPath) -> (r: Vec<FsAction>)
        requires
            !relpath@.absolute,
        ensures
            r@.len() >= 1,
            prepares_parent(r@.drop_last(), spec_join(self.staging(), relpath@)),
            r@.last() matches FsAction::CreateFile { path } && path@ == spec_join(
                self.staging(),
                relpath@,
            ),
            stays_related(r@, self.staging().components),
    {
        let (abs, mut acts) = self.dest_abs_path(relpath);
        let ghost prep = acts@;
        let ghost absv = abs@;
        acts.push(FsAction::CreateFile { path: abs });
        proof {
            lemma_stays_push(prep, acts@.last(), self.staging().components, absv.components);
            assert(acts@.drop_last() =~= prep);
        }
        acts
    }

    /// Asks to copy the file `src` to `relpath` in the staging directory.
    pub fn copy_file(&self, component: &str, relpath: &FsPath, src: &FsPath) -> (r: Vec<FsAction>)
        requires
            !relpath@.absolute,
        ensures
            r@.len() >= 1,
            prepares_parent(r@.drop_last(), spec_join(self.staging(), relpath@)),
            r@.last() matches FsAction::CopyFile { src: s, dest } && s@ == src@ && dest@
                == spec_join(self.staging(), relpath@),
            stays_related(r@, self.staging().components),
    {
        let (abs, mut acts) = self.dest_abs_path(relpath);
        let ghost prep = acts@;
        let ghost absv = abs@;
        acts.push(FsAction::CopyFile { src: src.duplicate(), dest: abs });
        proof {
            lemma_stays_push(prep, acts@.last(), self.staging().components, absv.components);
            assert(acts@.drop_last() =~= prep);
        }
        acts
    }

    /// Asks to copy the directory `src`, with all it holds, to `relpath` in the
    /// staging directory.
    pub fn copy_dir(&self, component: &str, relpath: &FsPath, src: &FsPath) -> (r: Vec<FsAction>)
        requires
            !relpath@.absolute,
        ensures
            r@.len() >= 1,
            prepares_parent(r@.drop_last(), spec_join(self.staging(), relpath@)),
            r@.last() matches FsAction::CopyDir { src: s, dest } && s@ == src@ && dest@
                == spec_join(self.staging(), relpath@),
            stays_related(r@, self.staging().components),
    {
        let (abs, mut acts) = self.dest_abs_path(relpath);
        let ghost prep = acts@;
        let ghost absv = abs@;
        acts.push(FsAction::CopyDir { src: src.duplicate(), dest: abs });
        proof {
            lemma_stays_push(prep, acts@.last(), self.staging().components, absv.components);
            assert(acts@.drop_last() =~= prep);
        }
        acts
    }

    /// Asks to create a file with `content` at `relpath` in the staging directory.
    pub fn write_file(&self, component: &str, relpath: &FsPath, content: String) -> (r: Vec<
        FsAction,
    >)
        requires
            !relpath@.absolute,
        ensures
            r@.len() >= 1,
            prepares_parent(r@.drop_last(), spec_join(self.staging(), relpath@)),
            r@.last() matches FsAction::WriteFile { path, content: c } && path@ == spec_join(
                self.staging(),
                relpath@,
            ) && c@ == content@,
            stays_related(r@, self.staging().components),
    {
        let (abs, mut acts) = self.dest_abs_path(relpath);
        let ghost prep = acts@;
        let ghost absv = abs@;
        acts.push(FsAction::WriteFile { path: abs, content });
        proof {
            lemma_stays_push(prep, acts@.last(), self.staging().components, absv.components);
            assert(acts@.drop_last() =~= prep);
        }
        acts
    }

    /// Asks to move the file `src` to `relpath` in the staging directory.
    pub fn move_file(&self, component: &str, relpath: &FsPath, src: &FsPath) -> (r: Vec<FsAction>)
        requires
            !relpath@.absolute,
        ensures
            r@.len() >= 1,
            prepares_parent(r@.drop_last(), spec_join(self.staging(), relpath@)),
            is_rename(r@.last(), src@, spec_join(self.staging(), relpath@)),
            r@.last() matches FsAction::Rename { permit_copy, .. } && permit_copy
                == self.permits_copy_rename(),
            forall|i: int, x: Key|
                0 <= i < r@.len() && #[trigger] action_touches(r@[i], x) ==> related(
                    self.staging().components,
                    x,
                ) || key_within(src@.components, x),
    {
        self.stage_move(relpath, src)
    }

    /// Asks to move the directory `src`, with all it holds, to `relpath` in the
    /// staging directory.
    pub fn move_dir(&self, component: &str, relpath: &FsPath, src: &FsPath) -> (r: Vec<FsAction>)
        requires
            !relpath@.absolute,
        ensures
            r@.len() >= 1,
            prepares_parent(r@.drop_last(), spec_join(self.staging(), relpath@)),
            is_rename(r@.last(), src@, spec_join(self.staging(), relpath@)),
            r@.last() matches FsAction::Rename { permit_copy, .. } && permit_copy
                == self.permits_copy_rename(),
            forall|i: int, x: Key|
                0 <= i < r@.len() && #[trigger] action_touches(r@[i], x) ==> related(
                    self.staging().components,
                    x,
                ) || key_within(src@.components, x),
    {
        self.stage_move(relpath, src)
    }

    fn stage_move(&self, relpath: &FsPath, src: &FsPath) -> (r: Vec<FsAction>)
        requires
            !relpath@.absolute,
        ensures
            r@.len() >= 1,
            prepares_parent(r@.drop_last(), spec_join(self.staging(), relpath@)),
            is_rename(r@.last(), src@, spec_join(self.staging(), relpath@)),
            r@.last() matches FsAction::Rename { permit_copy, .. } && permit_copy
                == self.permits_copy_rename(),
            forall|i: int, x: Key|
                0 <= i < r@.len() && #[trigger] action_touches(r@[i], x) ==> related(
                    self.staging().components,
                    x,
                ) || key_within(src@.components, x),
    {
        let (abs, mut acts) = self.dest_abs_path(relpath);
        let ghost prep = acts@;
        let ghost absv = abs@;
        acts.push(FsAction::Rename { src: src.duplicate(), dest: abs, permit_copy: self.permit_copy_rename });
        proof {
            let t = self.staging().components;
            assert forall|i: int, x: Key|
                0 <= i < acts@.len() && #[trigger] action_touches(acts@[i], x) implies related(t, x)
                || key_within(src@.components, x) by {
                if i < prep.len() {
                    assert(acts@[i] == prep[i]);
                } else if key_within(absv.components, x) {
                    lemma_within_trans(t, absv.components, x);
                }
            }
            assert(acts@.drop_last() =~= prep);
        }
        acts
    }

    /// Decides on a request to remove the file at `relpath` in the staging
    /// directory, once the caller has carried out the actions of
    /// `dest_abs_path` and found whether the file is `present`.
    pub fn remove_file(&self, component: &str, relpath: &FsPath, present: bool) -> (r: Result<
        Vec<FsAction>,
        TxError,
    >)
        requires
            !relpath@.absolute,
        ensures
            !present ==> (r matches Err(TxError::ComponentMissingFile { name, path }) && name@
                == component@ && path@ == relpath@),
            present ==> (r matches Ok(acts) && acts@.len() == 1 && is_remove_file(
                acts@[0],
                spec_join(self.staging(), relpath@),
            )),
            r matches Ok(acts) ==> stays_related(acts@, self.staging().components),
    {
        if !present {
            return Err(TxError::ComponentMissingFile { name: String::from_str(component), path: relpath.duplicate() });
        }
        let abs = self.tmp_obj.join(relpath);
        let ghost absv = abs@;
        let mut acts: Vec<FsAction> = Vec::new();
        acts.push(FsAction::RemoveFile { path: abs });
        proof {
            lemma_join_within(self.staging().components, relpath@.components);
            lemma_stays_push(Seq::empty(), acts@.last(), self.staging().components, absv.components);
            assert(acts@ =~= Seq::<FsAction>::empty().push(acts@.last()));
        }
        Ok(acts)
    }

    /// Decides on a request to remove the directory at `relpath` in the staging
    /// directory, with all it holds, once the caller has carried out the actions
    /// of `dest_abs_path` and found whether the directory is `present`.
    pub fn remove_dir(&self, component: &str, relpath: &FsPath, present: bool) -> (r: Result<
        Vec<FsAction>,
        TxError,
    >)
        requires
            !relpath@.absolute,
        ensures
            !present ==> (r matches Err(TxError::ComponentMissingDir { name, path }) && name@
                == component@ && path@ == relpath@),
            present ==> (r matches Ok(acts) && acts@.len() == 1 && is_remove_dir(
                acts@[0],
                spec_join(self.staging(), relpath@),
            )),
            r matches Ok(acts) ==> stays_related(acts@, self.staging().components),
    {
        if !present {
            return Err(TxError::ComponentMissingDir { name: String::from_str(component), path: relpath.duplicate() });
        }
        let abs = self.tmp_obj.join(relpath);
        let ghost absv = abs@;
        let mut acts: Vec<FsAction> = Vec::new();
        acts.push(FsAction::RemoveDir { path: abs });
        proof {
            lemma_join_within(self.staging().components, relpath@.components);
            lemma_stays_push(Seq::empty(), acts@.last(), self.staging().components, absv.components);
            assert(acts@ =~= Seq::<FsAction>::empty().push(acts@.last()));
        }
        Ok(acts)
    }

    /// The actions that commit the transaction: the staged object moves to the
    /// installation prefix, then the staged reference to the reference path;
    /// each move may fall back to a copy when the transaction permits it.
    pub fn commit_actions(&self) -> (r: Vec<FsAction>)
        ensures
            commit_plan(r@, self.staging(), self.prefix_path(), self.staged_ref(), self.reference()),
            r@[0] matches FsAction::Rename { permit_copy, .. } && permit_copy
                == self.permits_copy_rename(),
            r@[1] matches FsAction::Rename { permit_copy, .. } && permit_copy
                == self.permits_copy_rename(),
    {
        let mut acts: Vec<FsAction> = Vec::new();
        acts.push(FsAction::Rename {
            src: self.tmp_obj.duplicate(),
            dest: self.prefix.path().duplicate(),
            permit_copy: self.permit_copy_rename,
        });
        acts.push(FsAction::Rename {
            src: self.tmp_ref.duplicate(),
            dest: self.ref_.duplicate(),
            permit_copy: self.permit_copy_rename,
        });
        acts
    }

    /// Records that the actions of `commit_actions` were all carried out; the
    /// object lock may then be released.
    pub fn mark_committed(&mut self)
        ensures
            final(self).is_committed(),
            final(self).staging() == old(self).staging(),
            final(self).staged_ref() == old(self).staged_ref(),
            final(self).reference() == old(self).reference(),
            final(self).prefix_path() == old(self).prefix_path(),
            final(self).permits_copy_rename() == old(self).permits_copy_rename(),
    {
        self.committed = true;
    }

    /// The actions that abandon the transaction, to be carried out all, past
    /// failures: none once it is committed; else the staged reference and the
    /// staged object are removed.
    pub fn rollback_actions(&self) -> (r: Vec<FsAction>)
        ensures
            self.is_committed() ==> r@.len() == 0,
            !self.is_committed() ==> rollback_plan(r@, self.staging(), self.staged_ref()),
    {
        let mut acts: Vec<FsAction> = Vec::new();
        if !self.committed {
            acts.push(FsAction::RemoveDir { path: self.tmp_ref.duplicate() });
            acts.push(FsAction::RemoveDir { path: self.tmp_obj.duplicate() });
        }
        acts
    }
}

/// Adding an action that changes only paths within `k`, itself within `t`,
/// keeps a list of actions on the lines of descent of `t`.
proof fn lemma_stays_push(prep: Seq<FsAction>, a: FsAction, t: Key, k: Key)
    requires
        stays_related(prep, t),
        key_within(t, k),
        forall|x: Key| #[trigger] action_touches(a, x) ==> key_within(k, x),
    ensures
        stays_related(prep.push(a), t),
{
    let acts = prep.push(a);
    assert forall|i: int, x: Key|
        0 <= i < acts.len() && #[trigger] action_touches(acts[i], x) implies related(t, x) by {
        if i < prep.len() {
            assert(acts[i] == prep[i]);
        } else {
            lemma_within_trans(t, k, x);
        }
    }
}

/// Committing publishes the staging: once the commit actions have all been
/// carried out, the installation prefix holds exactly what the staging directory
/// held, path for path, and the reference path holds what the staged reference
/// was. This holds when the installation prefix and the reference path lie on
/// no line of descent with the staged reference, nor the staging directory with
/// the staged reference.
pub proof fn lemma_commit_publishes(
    m: Map<Key, NodeView>,
    acts: Seq<FsAction>,
    staging: PathView,
    prefix: PathView,
    staged_ref: PathView,
    reference: PathView,
)
    requires
        commit_plan(acts, staging, prefix, staged_ref, reference),
        !related(prefix.components, staged_ref.components),
        !related(reference.components, prefix.components),
        !related(staging.components, staged_ref.components),
        run_effect(m, acts) is Some,
    ensures
        forall|r: Key|
            agree_between(
                run_effect(m, acts)->0,
                #[trigger] (prefix.components + r),
                m,
                staging.components + r,
            ),
        agree_between(run_effect(m, acts)->0, reference.components, m, staged_ref.components),
{
    let t = staging.components;
    let p = prefix.components;
    let tr = staged_ref.components;
    let rf = reference.components;
    let m2 = run_effect(m, acts)->0;
    assert(acts.drop_last().drop_last() =~= Seq::<FsAction>::empty());
    assert(acts.drop_last().last() == acts[0]);
    reveal_with_fuel(run_effect, 3);
    assert(run_effect(m, acts.drop_last()) is Some);
    let m1 = action_effect(m, acts[0])->0;
    assert(run_effect(m, acts.drop_last()) == Some(m1));
    assert(action_effect(m1, acts[1]) == Some(m2));
    assert forall|r: Key| agree_between(m2, #[trigger] (p + r), m, t + r) by {
        // the first move brings the staging to the prefix
        assert(agree_between(m1, p + r, m, t + r)) by {
            lemma_rename_moves(m, acts[0], t, p, r);
        }
        // the second move leaves the prefix alone
        assert(!action_touches(acts[1], p + r)) by {
            if key_within(tr, p + r) {
                lemma_join_within(p, r);
                lemma_prefix_related(tr, p + r, p);
            }
            if key_within(rf, p + r) {
                lemma_join_within(p, r);
                lemma_prefix_related(rf, p + r, p);
            }
        }
        crate::fs_model::lemma_action_frame(m1, acts[1], p + r);
    }
    assert(agree_between(m2, rf, m, tr)) by {
        assert(rf =~= rf + Seq::<Seq<char>>::empty());
        assert(tr =~= tr + Seq::<Seq<char>>::empty());
        lemma_rename_moves(m1, acts[1], tr, rf, Seq::empty());
        assert(!action_touches(acts[0], tr)) by {
            if key_within(t, tr) {
            }
            if key_within(p, tr) {
            }
        }
        crate::fs_model::lemma_action_frame(m, acts[0], tr);
    }
}

/// Committing points the reference at the object: after the set-up actions
/// that `new` gives (the second of which links the staged reference to
/// `link_text`, which `new` makes `../toolchains/` and the object's name), then
/// staging actions that change only paths on a line of descent with the staging
/// directory, then the commit actions, the reference path is a link to
/// `link_text`. This holds when the installation prefix and the reference path
/// lie on no line of descent with the staged reference, nor the staging
/// directory with the staged reference.
pub proof fn lemma_commit_links_reference(
    m: Map<Key, NodeView>,
    setup: Seq<FsAction>,
    staged: Seq<FsAction>,
    commit: Seq<FsAction>,
    staging: PathView,
    prefix: PathView,
    staged_ref: PathView,
    reference: PathView,
    link_text: Seq<char>,
)
    requires
        setup.len() == 2,
        setup[1] matches FsAction::SymlinkDir { target, link } && link@ == staged_ref && target@
            == link_text,
        stays_related(staged, staging.components),
        commit_plan(commit, staging, prefix, staged_ref, reference),
        !related(prefix.components, staged_ref.components),
        !related(reference.components, prefix.components),
        !related(staging.components, staged_ref.components),
        run_effect(m, setup) is Some,
        run_effect(run_effect(m, setup)->0, staged) is Some,
        run_effect(run_effect(run_effect(m, setup)->0, staged)->0, commit) is Some,
    ensures
        ({
            let done = run_effect(run_effect(run_effect(m, setup)->0, staged)->0, commit)->0;
            done.contains_key(reference.components) && done[reference.components] == NodeView::Link(
                link_text,
            )
        }),
{
    let tr = staged_ref.components;
    let m1 = run_effect(m, setup)->0;
    let m2 = run_effect(m1, staged)->0;
    // the set-up ends with the staged reference linking to the text
    reveal_with_fuel(run_effect, 3);
    assert(setup.drop_last().drop_last() =~= Seq::<FsAction>::empty());
    assert(setup.drop_last().last() == setup[0]);
    let m0 = run_effect(m, setup.drop_last())->0;
    assert(action_effect(m0, setup[1]) == Some(m1));
    assert(m1.contains_key(tr) && m1[tr] == NodeView::Link(link_text));
    // the staging actions leave the staged reference alone
    assert forall|i: int| 0 <= i < staged.len() implies !action_touches(#[trigger] staged[i], tr) by {
        if action_touches(staged[i], tr) {
            assert(related(staging.components, tr));
        }
    }
    crate::fs_model::lemma_run_frame(m1, staged, tr);
    // the commit moves the staged reference to the reference path
    lemma_commit_publishes(m2, commit, staging, prefix, staged_ref, reference);
}

/// A transaction on a fresh staging path starts empty: when nothing is at or
/// within the staging directory, the set-up actions of `new` for an
/// installation with no origin (a directory made at the staging path, then the
/// staged reference linked) leave the staging directory an empty directory.
/// This holds when the staging directory and the staged reference lie on no
/// line of descent with each other.
pub proof fn lemma_fresh_staging_is_empty(
    m: Map<Key, NodeView>,
    setup: Seq<FsAction>,
    staging: PathView,
    staged_ref: PathView,
)
    requires
        setup.len() == 2,
        is_ensure_dir(setup[0], staging),
        setup[1] matches FsAction::SymlinkDir { link, .. } && link@ == staged_ref,
        staging.components.len() > 0,
        !related(staging.components, staged_ref.components),
        forall|x: Key| key_within(staging.components, x) ==> !#[trigger] m.contains_key(x),
        run_effect(m, setup) is Some,
    ensures
        run_effect(m, setup)->0.contains_key(staging.components),
        run_effect(m, setup)->0[staging.components] is Dir,
        forall|x: Key|
            key_within(staging.components, x) && x != staging.components ==> !(#[trigger] run_effect(
                m,
                setup,
            )->0.contains_key(x)),
{
    let t = staging.components;
    reveal_with_fuel(run_effect, 3);
    assert(setup.drop_last().drop_last() =~= Seq::<FsAction>::empty());
    assert(setup.drop_last().last() == setup[0]);
    let m0 = run_effect(m, setup.drop_last())->0;
    let m1 = run_effect(m, setup)->0;
    assert(action_effect(m, setup[0]) == Some(m0));
    assert(m0 == crate::fs_model::with_dirs(m, t));
    assert(key_within(t, t)) by {
        assert(t =~= t.subrange(0, t.len() as int));
    }
    assert(action_effect(m0, setup[1]) == Some(m1));
    assert forall|x: Key| key_within(t, x) implies agree_at(m0, m1, x) by {
        assert(!action_touches(setup[1], x)) by {
            if x == staged_ref.components {
                assert(related(t, staged_ref.components));
            }
        }
        crate::fs_model::lemma_action_frame(m0, setup[1], x);
    }
    assert forall|x: Key| key_within(t, x) && x != t implies !(#[trigger] m1.contains_key(x)) by {
        assert(agree_at(m0, m1, x));
        if m0.contains_key(x) {
            assert(!m.contains_key(x));
            assert(key_within(x, t));
            assert(x.len() <= t.len() && t.len() <= x.len());
            assert(x =~= t) by {
                assert forall|i: int| 0 <= i < x.len() implies x[i] == t[i] by {
                    assert(x[i] == t[i]);
                }
            }
        }
    }
    assert(agree_at(m0, m1, t));
}

/// Whether `m1` holds at `k1` what `m2` holds at `k2`.
pub open spec fn agree_between(m1: Map<Key, NodeView>, k1: Key, m2: Map<Key, NodeView>, k2: Key) -> bool {
    m1.contains_key(k1) == m2.contains_key(k2) && (m1.contains_key(k1) ==> m1[k1] == m2[k2])
}

/// A move from `s` to `d` that succeeds puts at `d + r` what was at `s + r`.
proof fn lemma_rename_moves(m: Map<Key, NodeView>, a: FsAction, s: Key, d: Key, r: Key)
    requires
        a matches FsAction::Rename { src, dest, .. } && src@.components == s && dest@.components == d,
        action_effect(m, a) is Some,
    ensures
        agree_between(action_effect(m, a)->0, d + r, m, s + r),
{
    if s != d {
        let mv = crate::fs_model::moved_subtree(m, s, d);
        lemma_join_within(d, r);
        assert((d + r).skip(d.len() as int) =~= r);
        assert(mv.contains_key(d + r) == m.contains_key(s + r));
    }
}

/// Abandoning clears the staging: once the rollback actions have been carried
/// out, past failures, nothing is left within a staging directory or a staged
/// reference that was a directory, nor at a staged reference that was a link,
/// and every path on no line of descent with either holds what it held. This
/// holds when the staging directory and the staged reference lie on no line of
/// descent with each other.
pub proof fn lemma_rollback_clears(
    m: Map<Key, NodeView>,
    acts: Seq<FsAction>,
    staging: PathView,
    staged_ref: PathView,
)
    requires
        rollback_plan(acts, staging, staged_ref),
        !related(staging.components, staged_ref.components),
        staging.components.len() > 0,
        staged_ref.components.len() > 0,
    ensures
        m.contains_key(staging.components) && m[staging.components] is Dir ==> forall|x: Key|
            key_within(staging.components, x) ==> !(#[trigger] run_all_effect(m, acts).contains_key(x)),
        m.contains_key(staged_ref.components) && m[staged_ref.components] is Dir ==> forall|x: Key|
            key_within(staged_ref.components, x) ==> !(#[trigger] run_all_effect(m, acts).contains_key(x)),
        m.contains_key(staged_ref.components) && m[staged_ref.components] is Link ==> !run_all_effect(
            m,
            acts,
        ).contains_key(staged_ref.components),
        forall|x: Key|
            !related(staging.components, x) && !related(staged_ref.components, x) ==> agree_at(
                m,
                #[trigger] run_all_effect(m, acts),
                x,
            ),
{
    let t = staging.components;
    let tr = staged_ref.components;
    assert(acts.drop_last().drop_last() =~= Seq::<FsAction>::empty());
    assert(acts.drop_last().last() == acts[0]);
    reveal_with_fuel(run_all_effect, 3);
    let m1 = run_all_effect(m, acts.drop_last());
    let m2 = run_all_effect(m, acts);
    assert(m1 == match action_effect(m, acts[0]) {
        Some(mm) => mm,
        None => m,
    });
    // the first removal leaves the staging directory alone
    assert(!action_touches(acts[0], t)) by {
        if key_within(tr, t) {
        }
    }
    if action_effect(m, acts[0]) is Some {
        crate::fs_model::lemma_action_frame(m, acts[0], t);
    }
    if m.contains_key(t) && m[t] is Dir {
        assert(m2 == without(m1, t, true));
    }
    if m.contains_key(tr) && (m[tr] is Dir || m[tr] is Link) {
        assert(action_effect(m, acts[0]) is Some);
        assert forall|x: Key| key_within(tr, x) && #[trigger] m2.contains_key(x) implies m[tr] is Link && x != tr by {
            assert(!m1.contains_key(x) || (m[tr] is Link && x != tr));
            assert(!action_touches(acts[1], x)) by {
                if key_within(t, x) {
                    lemma_prefix_related(t, x, tr);
                }
            }
            if action_effect(m1, acts[1]) is Some {
                crate::fs_model::lemma_action_frame(m1, acts[1], x);
            }
        }
    }
    assert forall|x: Key| !related(t, x) && !related(tr, x) implies agree_at(
        m,
        #[trigger] run_all_effect(m, acts),
        x,
    ) by {
        crate::fs_model::lemma_run_all_frame(m, acts, x);
    }
}

/// An abandoned transaction leaves the rest of the tree alone: after staging
/// actions that change only paths on a line of descent with the staging
/// directory (as those of `add_file`, `copy_file`, `copy_dir`, `write_file`,
/// `remove_file` and `remove_dir` do) and the rollback actions, every path on no
/// line of descent with the staging directory or the staged reference holds
/// what it held before; the installation prefix and the reference path among
/// them, when they lie apart from both.
pub proof fn lemma_abandoned_leaves_rest(
    m: Map<Key, NodeView>,
    staged: Seq<FsAction>,
    rollback: Seq<FsAction>,
    staging: PathView,
    staged_ref: PathView,
    x: Key,
)
    requires
        run_effect(m, staged) is Some,
        stays_related(staged, staging.components),
        rollback_plan(rollback, staging, staged_ref),
        !related(staging.components, x),
        !related(staged_ref.components, x),
    ensures
        agree_at(m, run_all_effect(run_effect(m, staged)->0, rollback), x),
{
    assert forall|i: int| 0 <= i < staged.len() implies !action_touches(#[trigger] staged[i], x) by {
        if action_touches(staged[i], x) {
            assert(related(staging.components, x));
        }
    }
    assert forall|i: int| 0 <= i < rollback.len() implies !action_touches(
        #[trigger] rollback[i],
        x,
    ) by {}
    crate::fs_model::lemma_run_frame(m, staged, x);
    crate::fs_model::lemma_run_all_frame(run_effect(m, staged)->0, rollback, x);
}

} // verus!
