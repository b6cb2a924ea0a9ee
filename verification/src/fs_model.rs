//! An in-memory model of a file tree, and the file-system actions that a
//! transaction asks for, with their effect on the tree.
//!
//! The tree maps each path, taken by its components, to the node found there.
//! The root itself is not an entry: it always exists and is a directory.
use vstd::prelude::*;

use crate::path::{strings_view, FsPath};

verus! {

/// A path in the tree, by its components.
pub type Key = Seq<Seq<char>>;

/// What is found at a path.
#[derive(Debug)]
pub enum Node {
    File { content: String },
    Dir,
    Link { target: String },
}

/// The abstract value of a node.
pub enum NodeView {
    File(Seq<char>),
    Dir,
    Link(Seq<char>),
}

impl View for Node {
    type V = NodeView;

    open spec fn view(&self) -> NodeView {
        match self {
            Node::File { content } => NodeView::File(content@),
            Node::Dir => NodeView::Dir,
            Node::Link { target } => NodeView::Link(target@),
        }
    }
}

impl Node {
    /// A copy of this node.
    pub fn duplicate(&self) -> (r: Node)
        ensures
            r@ == self@,
    {
        match self {
            Node::File { content } => Node::File { content: content.clone() },
            Node::Dir => Node::Dir,
            Node::Link { target } => Node::Link { target: target.clone() },
        }
    }

    /// Whether this node is a directory.
    pub fn is_dir(&self) -> (r: bool)
        ensures
            r == (self@ is Dir),
    {
        match self {
            Node::Dir => true,
            _ => false,
        }
    }

    /// Whether this node is a regular file.
    pub fn is_file(&self) -> (r: bool)
        ensures
            r == (self@ is File),
    {
        match self {
            Node::File { .. } => true,
            _ => false,
        }
    }
}

/// Whether `p` is `k` or one of its ancestors.
pub open spec fn key_within(p: Key, k: Key) -> bool {
    p.is_prefix_of(k)
}

/// A file-system operation, as a transaction asks for it.
#[derive(Debug)]
pub enum FsAction {
    /// Creates the directory and all its missing ancestors.
    EnsureDir { path: FsPath },
    /// Creates an empty file, or empties an existing one.
    CreateFile { path: FsPath },
    /// Creates a file with the given content, or replaces an existing file's content.
    WriteFile { path: FsPath, content: String },
    /// Copies a file or a symbolic link.
    CopyFile { src: FsPath, dest: FsPath },
    /// Copies a directory and everything in it to a new path.
    CopyDir { src: FsPath, dest: FsPath },
    /// Removes a file or a symbolic link.
    RemoveFile { path: FsPath },
    /// Removes a directory and everything in it, or a symbolic link.
    RemoveDir { path: FsPath },
    /// Moves a file or a directory; `permit_copy` allows a copy and a removal in
    /// place of the move where the two paths are on different devices.
    Rename { src: FsPath, dest: FsPath, permit_copy: bool },
    /// Creates a symbolic link to a directory.
    SymlinkDir { target: String, link: FsPath },
}

/// Whether the parent of `k` exists and is a directory (the root always is).
pub open spec fn parent_is_dir(m: Map<Key, NodeView>, k: Key) -> bool {
    k.len() > 0 && (k.len() == 1 || (m.contains_key(k.drop_last()) && m[k.drop_last()] is Dir))
}

/// `m` with a directory at every missing non-root ancestor of `k`, `k` included.
pub open spec fn with_dirs(m: Map<Key, NodeView>, k: Key) -> Map<Key, NodeView> {
    Map::new(
        |x: Key| m.contains_key(x) || (x.len() > 0 && key_within(x, k)),
        |x: Key|
            if m.contains_key(x) {
                m[x]
            } else {
                NodeView::Dir
            },
    )
}

/// Whether `m` holds something strictly within `d`.
pub open spec fn has_descendant(m: Map<Key, NodeView>, d: Key) -> bool {
    exists|x: Key| #[trigger] m.contains_key(x) && key_within(d, x) && x != d
}

/// Whether a move from `s` may replace what is at `d`.
pub open spec fn rename_target_ok(m: Map<Key, NodeView>, s: Key, d: Key) -> bool {
    ||| !m.contains_key(d)
    ||| (m[s] is Dir && m[d] is Dir && !has_descendant(m, d))
    ||| (!(m[s] is Dir) && !(m[d] is Dir))
}

/// The tree after `a` on `m`, or none where the action fails. An action fails
/// where a disk would refuse it: a missing parent directory, a missing source,
/// a file where a directory is needed or the other way round, an existing
/// destination for a directory copy or a link, a non-empty directory as the
/// target of a move. The model also refuses to write a file through a link.
pub open spec fn action_effect(m: Map<Key, NodeView>, a: FsAction) -> Option<Map<Key, NodeView>> {
    match a {
        FsAction::EnsureDir { path } => {
            let k = path@.components;
            if forall|j: int|
                1 <= j <= k.len() && #[trigger] m.contains_key(k.take(j)) ==> m[k.take(j)] is Dir {
                Some(with_dirs(m, k))
            } else {
                None
            }
        },
        FsAction::CreateFile { path } => {
            let k = path@.components;
            if parent_is_dir(m, k) && (!m.contains_key(k) || m[k] is File) {
                Some(m.insert(k, NodeView::File(Seq::empty())))
            } else {
                None
            }
        },
        FsAction::WriteFile { path, content } => {
            let k = path@.components;
            if parent_is_dir(m, k) && (!m.contains_key(k) || m[k] is File) {
                Some(m.insert(k, NodeView::File(content@)))
            } else {
                None
            }
        },
        FsAction::CopyFile { src, dest } => {
            let s = src@.components;
            let d = dest@.components;
            if m.contains_key(s) && !(m[s] is Dir) && parent_is_dir(m, d) && (!m.contains_key(d)
                || m[d] is File) && s != d {
                Some(m.insert(d, m[s]))
            } else {
                None
            }
        },
        FsAction::CopyDir { src, dest } => {
            let s = src@.components;
            let d = dest@.components;
            if m.contains_key(s) && m[s] is Dir && !m.contains_key(d) && parent_is_dir(m, d)
                && !key_within(s, d) {
                Some(m.union_prefer_right(moved_subtree(m, s, d)))
            } else {
                None
            }
        },
        FsAction::RemoveFile { path } => {
            let k = path@.components;
            if k.len() > 0 && m.contains_key(k) && !(m[k] is Dir) {
                Some(m.remove(k))
            } else {
                None
            }
        },
        FsAction::RemoveDir { path } => {
            let k = path@.components;
            if k.len() > 0 && m.contains_key(k) && m[k] is Dir {
                Some(without(m, k, true))
            } else if k.len() > 0 && m.contains_key(k) && m[k] is Link {
                Some(m.remove(k))
            } else {
                None
            }
        },
        FsAction::Rename { src, dest, permit_copy } => {
            let s = src@.components;
            let d = dest@.components;
            if s == d {
                if s.len() > 0 && m.contains_key(s) {
                    Some(m)
                } else {
                    None
                }
            } else if s.len() > 0 && m.contains_key(s) && parent_is_dir(m, d) && !key_within(s, d)
                && rename_target_ok(m, s, d) {
                Some(
                    without(without(m, s, true), d, true).union_prefer_right(
                        moved_subtree(m, s, d),
                    ),
                )
            } else {
                None
            }
        },
        FsAction::SymlinkDir { target, link } => {
            let k = link@.components;
            if parent_is_dir(m, k) && !m.contains_key(k) {
                Some(m.insert(k, NodeView::Link(target@)))
            } else {
                None
            }
        },
    }
}

/// Whether the action may change what is at `x`.
pub open spec fn action_touches(a: FsAction, x: Key) -> bool {
    match a {
        FsAction::EnsureDir { path } => x.len() > 0 && key_within(x, path@.components),
        FsAction::CreateFile { path } => x == path@.components,
        FsAction::WriteFile { path, .. } => x == path@.components,
        FsAction::CopyFile { dest, .. } => x == dest@.components,
        FsAction::CopyDir { dest, .. } => key_within(dest@.components, x),
        FsAction::RemoveFile { path } => x == path@.components,
        FsAction::RemoveDir { path } => key_within(path@.components, x),
        FsAction::Rename { src, dest, .. } => key_within(src@.components, x) || key_within(
            dest@.components,
            x,
        ),
        FsAction::SymlinkDir { link, .. } => x == link@.components,
    }
}

/// Whether `m1` and `m2` hold the same thing at `x`.
pub open spec fn agree_at(m1: Map<Key, NodeView>, m2: Map<Key, NodeView>, x: Key) -> bool {
    m1.contains_key(x) == m2.contains_key(x) && (m1.contains_key(x) ==> m1[x] == m2[x])
}

/// An action changes nothing at a path that it does not name: neither the path
/// itself nor what is within it, nor (for a directory it ensures) an ancestor.
pub proof fn lemma_action_frame(m: Map<Key, NodeView>, a: FsAction, x: Key)
    requires
        !action_touches(a, x),
        action_effect(m, a) is Some,
    ensures
        agree_at(m, action_effect(m, a)->0, x),
{
    match a {
        FsAction::CopyDir { src, dest } => {
            assert(!moved_subtree(m, src@.components, dest@.components).contains_key(x));
        },
        FsAction::Rename { src, dest, permit_copy } => {
            assert(!moved_subtree(m, src@.components, dest@.components).contains_key(x));
        },
        _ => {},
    }
}

/// Whether `p` and `x` lie on one line of descent: one is within the other.
pub open spec fn related(p: Key, x: Key) -> bool {
    key_within(p, x) || key_within(x, p)
}

/// Actions change nothing at a path that none of them names.
pub proof fn lemma_run_frame(m: Map<Key, NodeView>, acts: Seq<FsAction>, x: Key)
    requires
        forall|i: int| 0 <= i < acts.len() ==> !action_touches(#[trigger] acts[i], x),
        run_effect(m, acts) is Some,
    ensures
        agree_at(m, run_effect(m, acts)->0, x),
    decreases acts.len(),
{
    if acts.len() > 0 {
        let init = acts.drop_last();
        assert forall|i: int| 0 <= i < init.len() implies !action_touches(#[trigger] init[i], x) by {
            assert(init[i] == acts[i]);
        }
        lemma_run_frame(m, init, x);
        let m1 = run_effect(m, init)->0;
        assert(!action_touches(acts[acts.len() - 1], x));
        lemma_action_frame(m1, acts.last(), x);
    }
}

/// Actions carried out past failures change nothing at a path that none of
/// them names.
pub proof fn lemma_run_all_frame(m: Map<Key, NodeView>, acts: Seq<FsAction>, x: Key)
    requires
        forall|i: int| 0 <= i < acts.len() ==> !action_touches(#[trigger] acts[i], x),
    ensures
        agree_at(m, run_all_effect(m, acts), x),
    decreases acts.len(),
{
    if acts.len() > 0 {
        let init = acts.drop_last();
        assert forall|i: int| 0 <= i < init.len() implies !action_touches(#[trigger] init[i], x) by {
            assert(init[i] == acts[i]);
        }
        lemma_run_all_frame(m, init, x);
        let m1 = run_all_effect(m, init);
        assert(!action_touches(acts[acts.len() - 1], x));
        if action_effect(m1, acts.last()) is Some {
            lemma_action_frame(m1, acts.last(), x);
        }
    }
}

struct Entry {
    key: Vec<String>,
    node: Node,
}

spec fn ekey(e: Entry) -> Key {
    strings_view(e.key@)
}

spec fn enode(e: Entry) -> NodeView {
    e.node@
}

spec fn distinct_keys(es: Seq<Entry>) -> bool {
    forall|i: int, j: int|
        0 <= i < es.len() && 0 <= j < es.len() && i != j ==> ekey(es[i]) != ekey(es[j])
}

spec fn has_key(es: Seq<Entry>, k: Key) -> bool {
    exists|i: int| 0 <= i < es.len() && #[trigger] ekey(es[i]) == k
}

spec fn entries_map(es: Seq<Entry>) -> Map<Key, NodeView> {
    Map::new(
        |k: Key| has_key(es, k),
        |k: Key| enode(es[choose|i: int| 0 <= i < es.len() && #[trigger] ekey(es[i]) == k]),
    )
}

proof fn lemma_entry_in_map(es: Seq<Entry>, i: int)
    requires
        distinct_keys(es),
        0 <= i < es.len(),
    ensures
        entries_map(es).contains_key(ekey(es[i])),
        entries_map(es)[ekey(es[i])] == enode(es[i]),
{
    let k = ekey(es[i]);
    assert(has_key(es, k));
    let j = choose|j: int| 0 <= j < es.len() && #[trigger] ekey(es[j]) == k;
    assert(j == i);
}

/// A distinct list of entries whose keys are those that satisfy `dom` and whose
/// nodes are given by `val` has the map of `dom` and `val`.
proof fn lemma_entries_map_is(es: Seq<Entry>, dom: spec_fn(Key) -> bool, val: spec_fn(Key) -> NodeView)
    requires
        distinct_keys(es),
        forall|k: Key| dom(k) <==> has_key(es, k),
        forall|i: int| 0 <= i < es.len() ==> enode(es[i]) == val(#[trigger] ekey(es[i])),
    ensures
        entries_map(es) == Map::new(dom, val),
{
    assert forall|k: Key| #[trigger] entries_map(es).contains_key(k) implies entries_map(es)[k]
        == val(k) by {
        let i = choose|i: int| 0 <= i < es.len() && #[trigger] ekey(es[i]) == k;
        lemma_entry_in_map(es, i);
    }
    assert(entries_map(es) =~= Map::new(dom, val));
}

/// Whether the keys `a` and `b` are equal.
fn keys_equal(a: &Vec<String>, b: &Vec<String>) -> (r: bool)
    ensures
        r == (strings_view(a@) == strings_view(b@)),
{
    if a.len() != b.len() {
        assert(strings_view(a@).len() != strings_view(b@).len());
        return false;
    }
    let mut i: usize = 0;
    while i < a.len()
        invariant
            a@.len() == b@.len(),
            i <= a@.len(),
            forall|j: int| 0 <= j < i ==> a@[j]@ == b@[j]@,
        decreases a@.len() - i,
    {
        if a[i] != b[i] {
            assert(strings_view(a@)[i as int] != strings_view(b@)[i as int]);
            return false;
        }
        i = i + 1;
    }
    assert(strings_view(a@) =~= strings_view(b@));
    true
}

/// Whether `p` is `k` or one of its ancestors.
fn key_starts_with(k: &Vec<String>, p: &Vec<String>) -> (r: bool)
    ensures
        r == key_within(strings_view(p@), strings_view(k@)),
{
    if p.len() > k.len() {
        return false;
    }
    let mut i: usize = 0;
    while i < p.len()
        invariant
            p@.len() <= k@.len(),
            i <= p@.len(),
            forall|j: int| 0 <= j < i ==> p@[j]@ == k@[j]@,
        decreases p@.len() - i,
    {
        if p[i] != k[i] {
            assert(strings_view(k@).subrange(0, p@.len() as int)[i as int] != strings_view(
                p@,
            )[i as int]);
            return false;
        }
        i = i + 1;
    }
    assert(strings_view(p@) =~= strings_view(k@).subrange(0, p@.len() as int));
    true
}

/// A copy of the first `n` strings of `v`.
fn copy_prefix(v: &Vec<String>, n: usize) -> (r: Vec<String>)
    requires
        n <= v@.len(),
    ensures
        strings_view(r@) == strings_view(v@).take(n as int),
{
    let mut r: Vec<String> = Vec::new();
    let mut i: usize = 0;
    while i < n
        invariant
            n <= v@.len(),
            i <= n,
            strings_view(r@) == strings_view(v@).take(i as int),
        decreases n - i,
    {
        let ghost before = r@;
        let c = v[i].clone();
        r.push(c);
        assert(strings_view(r@) =~= strings_view(before).push(v@[i as int]@));
        assert(strings_view(r@) =~= strings_view(v@).take(i + 1));
        i = i + 1;
    }
    r
}

/// Whether `x` is removed by a removal at `p`: the path itself, or, when
/// `subtree` holds, everything within it too.
pub open spec fn removal_covers(p: Key, x: Key, subtree: bool) -> bool {
    if subtree {
        key_within(p, x)
    } else {
        x == p
    }
}

/// The entries of `m` under `s`, moved under `d`.
pub open spec fn moved_subtree(m: Map<Key, NodeView>, s: Key, d: Key) -> Map<Key, NodeView> {
    Map::new(
        |x: Key| key_within(d, x) && m.contains_key(s + x.skip(d.len() as int)),
        |x: Key| m[s + x.skip(d.len() as int)],
    )
}

/// `m` without the entries that a removal at `p` covers.
pub open spec fn without(m: Map<Key, NodeView>, p: Key, subtree: bool) -> Map<Key, NodeView> {
    Map::new(|x: Key| m.contains_key(x) && !removal_covers(p, x, subtree), |x: Key| m[x])
}

impl Entry {
    fn duplicate(&self) -> (r: Entry)
        ensures
            ekey(r) == ekey(*self),
            enode(r) == enode(*self),
    {
        let key = copy_prefix(&self.key, self.key.len());
        assert(strings_view(self.key@).take(self.key@.len() as int) =~= strings_view(
            self.key@,
        ));
        Entry { key, node: self.node.duplicate() }
    }
}

proof fn lemma_entries_map_push(es: Seq<Entry>, e: Entry)
    requires
        distinct_keys(es),
        !has_key(es, ekey(e)),
    ensures
        distinct_keys(es.push(e)),
        entries_map(es.push(e)) == entries_map(es).insert(ekey(e), enode(e)),
{
    let es2 = es.push(e);
    let m = entries_map(es);
    assert forall|a: int, b: int|
        0 <= a < es2.len() && 0 <= b < es2.len() && a != b implies ekey(es2[a]) != ekey(
        es2[b],
    ) by {
        if a < es.len() && b < es.len() {
            assert(ekey(es[a]) != ekey(es[b]));
        } else if a < es.len() {
            assert(ekey(es2[a]) == ekey(es[a]));
        } else {
            assert(ekey(es2[b]) == ekey(es[b]));
        }
    }
    assert forall|x: Key| (m.contains_key(x) || x == ekey(e)) <==> has_key(es2, x) by {
        if m.contains_key(x) {
            let j = choose|j: int| 0 <= j < es.len() && #[trigger] ekey(es[j]) == x;
            assert(ekey(es2[j]) == x);
        }
        if x == ekey(e) {
            assert(ekey(es2[es.len() as int]) == x);
        }
        if has_key(es2, x) {
            let j = choose|j: int| 0 <= j < es2.len() && #[trigger] ekey(es2[j]) == x;
            if j < es.len() {
                assert(ekey(es[j]) == x);
            }
        }
    }
    assert forall|j: int| 0 <= j < es2.len() implies enode(es2[j]) == m.insert(
        ekey(e),
        enode(e),
    )[#[trigger] ekey(es2[j])] by {
        if j < es.len() {
            lemma_entry_in_map(es, j);
        }
    }
    lemma_entries_map_is(
        es2,
        |x: Key| m.contains_key(x) || x == ekey(e),
        |x: Key| m.insert(ekey(e), enode(e))[x],
    );
    assert(entries_map(es2) =~= m.insert(ekey(e), enode(e)));
}

proof fn lemma_within_split(s: Key, k: Key)
    requires
        key_within(s, k),
    ensures
        s + k.skip(s.len() as int) == k,
{
    assert(s + k.skip(s.len() as int) =~= k);
}

proof fn lemma_join_skip(d: Key, t: Key)
    ensures
        (d + t).skip(d.len() as int) == t,
        key_within(d, d + t),
{
    assert((d + t).skip(d.len() as int) =~= t);
    assert(d =~= (d + t).subrange(0, d.len() as int));
}

spec fn moved_entry(e: Entry, o: Entry, sv: Key, dv: Key) -> bool {
    key_within(sv, ekey(o)) && ekey(e) == dv + ekey(o).skip(sv.len() as int) && enode(e)
        == enode(o)
}

/// The key `d` followed by the components of `k` after its first `from`.
fn rekey(d: &Vec<String>, k: &Vec<String>, from: usize) -> (r: Vec<String>)
    requires
        from <= k@.len(),
    ensures
        strings_view(r@) == strings_view(d@) + strings_view(k@).skip(from as int),
{
    let mut r = copy_prefix(d, d.len());
    assert(strings_view(d@).take(d@.len() as int) =~= strings_view(d@));
    let mut i: usize = from;
    while i < k.len()
        invariant
            from <= i <= k@.len(),
            strings_view(r@) == strings_view(d@) + strings_view(k@).subrange(from as int, i as int),
        decreases k@.len() - i,
    {
        let ghost before = r@;
        let c = k[i].clone();
        r.push(c);
        assert(strings_view(r@) =~= strings_view(before).push(k@[i as int]@));
        assert(strings_view(r@) =~= strings_view(d@) + strings_view(k@).subrange(
            from as int,
            i + 1,
        ));
        i = i + 1;
    }
    assert(strings_view(k@).subrange(from as int, k@.len() as int) =~= strings_view(k@).skip(
        from as int,
    ));
    r
}

fn copy_key(k: &Vec<String>) -> (r: Vec<String>)
    ensures
        strings_view(r@) == strings_view(k@),
{
    let r = copy_prefix(k, k.len());
    assert(strings_view(k@).take(k@.len() as int) =~= strings_view(k@));
    r
}

/// The model refused an action: on a disk it would fail.
#[derive(Debug)]
pub struct ActionRefused;

/// The tree after the actions of `acts` in turn, or none where one fails.
pub open spec fn run_effect(m: Map<Key, NodeView>, acts: Seq<FsAction>) -> Option<
    Map<Key, NodeView>,
>
    decreases acts.len(),
{
    if acts.len() == 0 {
        Some(m)
    } else {
        match run_effect(m, acts.drop_last()) {
            Some(m1) => action_effect(m1, acts.last()),
            None => None,
        }
    }
}

/// The tree after the actions of `acts` in turn, where a failing action changes
/// nothing and the next one is still carried out.
pub open spec fn run_all_effect(m: Map<Key, NodeView>, acts: Seq<FsAction>) -> Map<Key, NodeView>
    decreases acts.len(),
{
    if acts.len() == 0 {
        m
    } else {
        let m1 = run_all_effect(m, acts.drop_last());
        match action_effect(m1, acts.last()) {
            Some(m2) => m2,
            None => m1,
        }
    }
}

/// A file tree.
pub struct FsModel {
    entries: Vec<Entry>,
}

impl View for FsModel {
    type V = Map<Key, NodeView>;

    closed spec fn view(&self) -> Map<Key, NodeView> {
        entries_map(self.entries@)
    }
}

impl FsModel {
    /// Whether the entries are a well-formed tree representation.
    pub closed spec fn wf(&self) -> bool {
        distinct_keys(self.entries@)
    }

    /// An empty tree: only the root exists.
    pub fn new() -> (r: FsModel)
        ensures
            r.wf(),
            r@ == Map::<Key, NodeView>::empty(),
    {
        let r = FsModel { entries: Vec::new() };
        assert(r@ =~= Map::<Key, NodeView>::empty());
        r
    }

    /// The position of the entry for `k`.
    fn find(&self, k: &Vec<String>) -> (r: Option<usize>)
        requires
            self.wf(),
        ensures
            r matches Some(i) ==> i < self.entries@.len() && ekey(self.entries@[i as int])
                == strings_view(k@) && self@.contains_key(strings_view(k@)) && self@[strings_view(
                k@,
            )] == enode(self.entries@[i as int]),
            r is None ==> !self@.contains_key(strings_view(k@)),
    {
        let mut i: usize = 0;
        while i < self.entries.len()
            invariant
                distinct_keys(self.entries@),
                i <= self.entries@.len(),
                forall|j: int| 0 <= j < i ==> ekey(self.entries@[j]) != strings_view(k@),
            decreases self.entries@.len() - i,
        {
            if keys_equal(&self.entries[i].key, k) {
                proof {
                    lemma_entry_in_map(self.entries@, i as int);
                }
                return Some(i);
            }
            i = i + 1;
        }
        None
    }

    /// Sets the node at `k`.
    fn insert(&mut self, k: Vec<String>, node: Node)
        requires
            old(self).wf(),
        ensures
            final(self).wf(),
            final(self)@ == old(self)@.insert(strings_view(k@), node@),
    {
        let ghost m = self@;
        let ghost kv = strings_view(k@);
        let ghost nv = node@;
        match self.find(&k) {
            Some(i) => {
                let ghost before = self.entries@;
                self.entries.set(i, Entry { key: k, node });
                proof {
                    let es = self.entries@;
                    assert(distinct_keys(es)) by {
                        assert forall|a: int, b: int|
                            0 <= a < es.len() && 0 <= b < es.len() && a != b implies ekey(es[a])
                            != ekey(es[b]) by {
                            assert(ekey(before[a]) != ekey(before[b]));
                        }
                    }
                    assert forall|x: Key| (m.contains_key(x) || x == kv) <==> has_key(es, x) by {
                        if m.contains_key(x) {
                            let j = choose|j: int|
                                0 <= j < before.len() && #[trigger] ekey(before[j]) == x;
                            assert(ekey(es[j]) == x);
                        }
                        if x == kv {
                            assert(ekey(es[i as int]) == x);
                        }
                        if has_key(es, x) {
                            let j = choose|j: int| 0 <= j < es.len() && #[trigger] ekey(es[j]) == x;
                            if j != i {
                                assert(ekey(before[j]) == x);
                            }
                        }
                    }
                    assert forall|j: int| 0 <= j < es.len() implies enode(es[j]) == m.insert(
                        kv,
                        nv,
                    )[#[trigger] ekey(es[j])] by {
                        if j != i {
                            lemma_entry_in_map(before, j);
                        }
                    }
                    lemma_entries_map_is(
                        es,
                        |x: Key| m.contains_key(x) || x == kv,
                        |x: Key| m.insert(kv, nv)[x],
                    );
                    assert(self@ =~= m.insert(kv, nv));
                }
            },
            None => {
                let ghost before = self.entries@;
                self.entries.push(Entry { key: k, node });
                proof {
                    let es = self.entries@;
                    assert(distinct_keys(es)) by {
                        assert forall|a: int, b: int|
                            0 <= a < es.len() && 0 <= b < es.len() && a != b implies ekey(es[a])
                            != ekey(es[b]) by {
                            if a < before.len() && b < before.len() {
                                assert(ekey(before[a]) != ekey(before[b]));
                            } else if a < before.len() {
                                assert(has_key(before, ekey(before[a])));
                            } else {
                                assert(has_key(before, ekey(before[b])));
                            }
                        }
                    }
                    assert forall|x: Key| (m.contains_key(x) || x == kv) <==> has_key(es, x) by {
                        if m.contains_key(x) {
                            let j = choose|j: int|
                                0 <= j < before.len() && #[trigger] ekey(before[j]) == x;
                            assert(ekey(es[j]) == x);
                        }
                        if x == kv {
                            assert(ekey(es[before.len() as int]) == x);
                        }
                        if has_key(es, x) {
                            let j = choose|j: int| 0 <= j < es.len() && #[trigger] ekey(es[j]) == x;
                            if j < before.len() {
                                assert(ekey(before[j]) == x);
                            }
                        }
                    }
                    assert forall|j: int| 0 <= j < es.len() implies enode(es[j]) == m.insert(
                        kv,
                        nv,
                    )[#[trigger] ekey(es[j])] by {
                        if j < before.len() {
                            lemma_entry_in_map(before, j);
                        }
                    }
                    lemma_entries_map_is(
                        es,
                        |x: Key| m.contains_key(x) || x == kv,
                        |x: Key| m.insert(kv, nv)[x],
                    );
                    assert(self@ =~= m.insert(kv, nv));
                }
            },
        }
    }

    /// Removes the entry at `p`, and with `subtree` everything within it.
    fn remove_covered(&mut self, p: &Vec<String>, subtree: bool)
        requires
            old(self).wf(),
        ensures
            final(self).wf(),
            final(self)@ == without(old(self)@, strings_view(p@), subtree),
    {
        let ghost m = self@;
        let ghost pv = strings_view(p@);
        let ghost orig = self.entries@;
        let mut kept: Vec<Entry> = Vec::new();
        let mut i: usize = 0;
        while i < self.entries.len()
            invariant
                self.entries@ == orig,
                distinct_keys(orig),
                m == entries_map(orig),
                pv == strings_view(p@),
                i <= orig.len(),
                distinct_keys(kept@),
                forall|a: int|
                    0 <= a < kept@.len() ==> exists|j: int|
                        0 <= j < i && #[trigger] ekey(orig[j]) == ekey(#[trigger] kept@[a]),
                forall|a: int|
                    0 <= a < kept@.len() ==> m.contains_key(#[trigger] ekey(kept@[a])) && enode(
                        kept@[a],
                    ) == m[ekey(kept@[a])] && !removal_covers(pv, ekey(kept@[a]), subtree),
                forall|j: int|
                    0 <= j < i && !removal_covers(pv, #[trigger] ekey(orig[j]), subtree)
                        ==> has_key(kept@, ekey(orig[j])),
            decreases orig.len() - i,
        {
            let covered = if subtree {
                key_starts_with(&self.entries[i].key, p)
            } else {
                keys_equal(&self.entries[i].key, p)
            };
            if !covered {
                let e = self.entries[i].duplicate();
                proof {
                    lemma_entry_in_map(orig, i as int);
                    if has_key(kept@, ekey(e)) {
                        let a = choose|a: int| 0 <= a < kept@.len() && #[trigger] ekey(kept@[a]) == ekey(e);
                        let j = choose|j: int| 0 <= j < i && #[trigger] ekey(orig[j]) == ekey(kept@[a]);
                        assert(ekey(orig[j]) != ekey(orig[i as int]));
                    }
                    lemma_entries_map_push(kept@, e);
                }
                let ghost before = kept@;
                kept.push(e);
                proof {
                    assert forall|a: int| 0 <= a < kept@.len() implies exists|j: int|
                        0 <= j < i + 1 && #[trigger] ekey(orig[j]) == ekey(#[trigger] kept@[a]) by {
                        if a < before.len() {
                            assert(kept@[a] == before[a]);
                        } else {
                            assert(ekey(orig[i as int]) == ekey(kept@[a]));
                        }
                    }
                    assert forall|j: int|
                        0 <= j < i + 1 && !removal_covers(pv, #[trigger] ekey(orig[j]), subtree)
                        implies has_key(kept@, ekey(orig[j])) by {
                        if j < i {
                            let a = choose|a: int| 0 <= a < before.len() && #[trigger] ekey(before[a]) == ekey(orig[j]);
                            assert(ekey(kept@[a]) == ekey(orig[j]));
                        } else {
                            assert(ekey(kept@[before.len() as int]) == ekey(orig[j]));
                        }
                    }
                }
            }
            i = i + 1;
        }
        proof {
            assert forall|x: Key| (m.contains_key(x) && !removal_covers(pv, x, subtree)) <==> has_key(kept@, x) by {
                if m.contains_key(x) && !removal_covers(pv, x, subtree) {
                    let j = choose|j: int| 0 <= j < orig.len() && #[trigger] ekey(orig[j]) == x;
                    assert(has_key(kept@, ekey(orig[j])));
                }
                if has_key(kept@, x) {
                    let a = choose|a: int| 0 <= a < kept@.len() && #[trigger] ekey(kept@[a]) == x;
                }
            }
            lemma_entries_map_is(
                kept@,
                |x: Key| m.contains_key(x) && !removal_covers(pv, x, subtree),
                |x: Key| m[x],
            );
        }
        self.entries = kept;
        assert(self@ =~= without(m, pv, subtree));
    }

    /// The entries under `src`, moved under `dst`.
    fn collect_moved(&self, src: &Vec<String>, dst: &Vec<String>) -> (r: Vec<Entry>)
        requires
            self.wf(),
        ensures
            distinct_keys(r@),
            entries_map(r@) == moved_subtree(self@, strings_view(src@), strings_view(dst@)),
    {
        let ghost m = self@;
        let ghost sv = strings_view(src@);
        let ghost dv = strings_view(dst@);
        let ghost orig = self.entries@;
        let mut out: Vec<Entry> = Vec::new();
        let ghost mut from: Seq<int> = Seq::empty();
        let mut i: usize = 0;
        while i < self.entries.len()
            invariant
                self.entries@ == orig,
                distinct_keys(orig),
                m == entries_map(orig),
                sv == strings_view(src@),
                dv == strings_view(dst@),
                i <= orig.len(),
                distinct_keys(out@),
                from.len() == out@.len(),
                forall|a: int|
                    0 <= a < out@.len() ==> 0 <= #[trigger] from[a] < i && moved_entry(
                        out@[a],
                        orig[from[a]],
                        sv,
                        dv,
                    ),
                forall|j: int|
                    0 <= j < i && key_within(sv, #[trigger] ekey(orig[j])) ==> has_key(
                        out@,
                        dv + ekey(orig[j]).skip(sv.len() as int),
                    ),
            decreases orig.len() - i,
        {
            if key_starts_with(&self.entries[i].key, src) {
                let key = rekey(dst, &self.entries[i].key, src.len());
                let e = Entry { key, node: self.entries[i].node.duplicate() };
                proof {
                    let ki = ekey(orig[i as int]);
                    if has_key(out@, ekey(e)) {
                        let a = choose|a: int| 0 <= a < out@.len() && #[trigger] ekey(out@[a]) == ekey(e);
                        let j = from[a];
                        assert(moved_entry(out@[a], orig[j], sv, dv));
                        let kj = ekey(orig[j]);
                        lemma_join_skip(dv, kj.skip(sv.len() as int));
                        lemma_join_skip(dv, ki.skip(sv.len() as int));
                        lemma_within_split(sv, kj);
                        lemma_within_split(sv, ki);
                        assert(kj == ki);
                        assert(ekey(orig[j]) != ekey(orig[i as int]));
                    }
                    lemma_entries_map_push(out@, e);
                }
                let ghost before = out@;
                out.push(e);
                proof {
                    from = from.push(i as int);
                    assert forall|a: int|
                        0 <= a < out@.len() implies 0 <= #[trigger] from[a] < i + 1 && moved_entry(
                        out@[a],
                        orig[from[a]],
                        sv,
                        dv,
                    ) by {
                        if a < before.len() {
                            assert(out@[a] == before[a]);
                        }
                    }
                    assert forall|j: int|
                        0 <= j < i + 1 && key_within(sv, #[trigger] ekey(orig[j])) implies has_key(
                        out@,
                        dv + ekey(orig[j]).skip(sv.len() as int),
                    ) by {
                        if j < i {
                            let a = choose|a: int|
                                0 <= a < before.len() && #[trigger] ekey(before[a]) == dv + ekey(
                                    orig[j],
                                ).skip(sv.len() as int);
                            assert(ekey(out@[a]) == ekey(before[a]));
                        } else {
                            assert(ekey(out@[before.len() as int]) == ekey(e));
                        }
                    }
                }
            }
            i = i + 1;
        }
        proof {
            let target = moved_subtree(m, sv, dv);
            assert forall|x: Key| target.contains_key(x) <==> has_key(out@, x) by {
                if target.contains_key(x) {
                    let k = sv + x.skip(dv.len() as int);
                    let j = choose|j: int| 0 <= j < orig.len() && #[trigger] ekey(orig[j]) == k;
                    lemma_join_skip(sv, x.skip(dv.len() as int));
                    lemma_within_split(dv, x);
                    assert(has_key(out@, dv + ekey(orig[j]).skip(sv.len() as int)));
                }
                if has_key(out@, x) {
                    let a = choose|a: int| 0 <= a < out@.len() && #[trigger] ekey(out@[a]) == x;
                    let j = from[a];
                    assert(moved_entry(out@[a], orig[j], sv, dv));
                    let kj = ekey(orig[j]);
                    lemma_join_skip(dv, kj.skip(sv.len() as int));
                    lemma_within_split(sv, kj);
                    assert(has_key(orig, kj));
                }
            }
            assert forall|a: int| 0 <= a < out@.len() implies enode(out@[a]) == target[#[trigger] ekey(out@[a])] by {
                let j = from[a];
                assert(moved_entry(out@[a], orig[j], sv, dv));
                let kj = ekey(orig[j]);
                lemma_join_skip(dv, kj.skip(sv.len() as int));
                lemma_within_split(sv, kj);
                lemma_entry_in_map(orig, j);
            }
            lemma_entries_map_is(out@, |x: Key| target.contains_key(x), |x: Key| target[x]);
            assert(entries_map(out@) =~= target);
        }
        out
    }

    /// Sets the nodes of all `list`'s entries.
    fn insert_all(&mut self, list: &Vec<Entry>)
        requires
            old(self).wf(),
            distinct_keys(list@),
        ensures
            final(self).wf(),
            final(self)@ == old(self)@.union_prefer_right(entries_map(list@)),
    {
        let ghost m = self@;
        let mut i: usize = 0;
        assert(entries_map(list@.take(0)) =~= Map::<Key, NodeView>::empty());
        assert(m.union_prefer_right(Map::<Key, NodeView>::empty()) =~= m);
        while i < list.len()
            invariant
                self.wf(),
                distinct_keys(list@),
                i <= list@.len(),
                self@ == m.union_prefer_right(entries_map(list@.take(i as int))),
            decreases list@.len() - i,
        {
            let e = list[i].duplicate();
            proof {
                let pre = list@.take(i as int);
                assert(list@.take(i + 1) =~= pre.push(list@[i as int]));
                assert(distinct_keys(pre));
                if has_key(pre, ekey(list@[i as int])) {
                    let j = choose|j: int| 0 <= j < pre.len() && #[trigger] ekey(pre[j]) == ekey(list@[i as int]);
                    assert(ekey(list@[j]) == ekey(list@[i as int]));
                }
                lemma_entries_map_push(pre, list@[i as int]);
            }
            self.insert(e.key, e.node);
            assert(self@ =~= m.union_prefer_right(entries_map(list@.take(i + 1))));
            i = i + 1;
        }
        assert(list@.take(list@.len() as int) =~= list@);
    }

    /// Whether the parent of `k` is the root or a directory.
    fn parent_dir_ok(&self, k: &Vec<String>) -> (r: bool)
        requires
            self.wf(),
        ensures
            r == parent_is_dir(self@, strings_view(k@)),
    {
        let n = k.len();
        if n == 0 {
            return false;
        }
        if n == 1 {
            return true;
        }
        let parent = copy_prefix(k, n - 1);
        assert(strings_view(k@).take(n - 1) =~= strings_view(k@).drop_last());
        match self.find(&parent) {
            Some(i) => self.entries[i].node.is_dir(),
            None => false,
        }
    }

    /// Whether something lies strictly within `d`.
    fn has_descendant_exec(&self, d: &Vec<String>) -> (r: bool)
        requires
            self.wf(),
        ensures
            r == has_descendant(self@, strings_view(d@)),
    {
        let ghost dv = strings_view(d@);
        let mut i: usize = 0;
        while i < self.entries.len()
            invariant
                self.wf(),
                dv == strings_view(d@),
                i <= self.entries@.len(),
                forall|j: int|
                    0 <= j < i ==> !(key_within(dv, #[trigger] ekey(self.entries@[j])) && ekey(
                        self.entries@[j],
                    ) != dv),
            decreases self.entries@.len() - i,
        {
            if key_starts_with(&self.entries[i].key, d) && !keys_equal(&self.entries[i].key, d) {
                proof {
                    lemma_entry_in_map(self.entries@, i as int);
                    let x = ekey(self.entries@[i as int]);
                    assert(self@.contains_key(x) && key_within(dv, x) && x != dv);
                }
                return true;
            }
            i = i + 1;
        }
        proof {
            assert forall|x: Key| #[trigger] self@.contains_key(x) && key_within(dv, x) implies x
                == dv by {
                let j = choose|j: int|
                    0 <= j < self.entries@.len() && #[trigger] ekey(self.entries@[j]) == x;
            }
        }
        false
    }

    /// The node at `k`, if any.
    fn node_of(&self, k: &Vec<String>) -> (r: Option<&Node>)
        requires
            self.wf(),
        ensures
            r matches Some(n) ==> self@.contains_key(strings_view(k@)) && self@[strings_view(
                k@,
            )] == n@,
            r is None ==> !self@.contains_key(strings_view(k@)),
    {
        match self.find(k) {
            Some(i) => Some(&self.entries[i].node),
            None => None,
        }
    }

    fn ensure_dir(&mut self, k: &Vec<String>) -> (r: bool)
        requires
            old(self).wf(),
        ensures
            final(self).wf(),
            r == (forall|j: int|
                1 <= j <= strings_view(k@).len() && #[trigger] old(self)@.contains_key(
                    strings_view(k@).take(j),
                ) ==> old(self)@[strings_view(k@).take(j)] is Dir),
            r ==> final(self)@ == with_dirs(old(self)@, strings_view(k@)),
            !r ==> final(self)@ == old(self)@,
    {
        let ghost m = self@;
        let ghost kv = strings_view(k@);
        let n = k.len();
        let mut j: usize = 0;
        while j < n
            invariant
                self.wf(),
                self@ == m,
                kv == strings_view(k@),
                n == kv.len(),
                j <= n,
                forall|t: int|
                    1 <= t <= j && #[trigger] m.contains_key(kv.take(t)) ==> m[kv.take(t)] is Dir,
            decreases n - j,
        {
            let prefix = copy_prefix(k, j + 1);
            match self.node_of(&prefix) {
                Some(node) => {
                    if !node.is_dir() {
                        return false;
                    }
                },
                None => {},
            }
            j = j + 1;
        }
        let mut j: usize = 0;
        assert(with_dirs(m, kv.take(0)) =~= m) by {
            assert forall|x: Key| x.len() > 0 implies !key_within(x, kv.take(0)) by {}
        }
        while j < n
            invariant
                self.wf(),
                kv == strings_view(k@),
                n == kv.len(),
                j <= n,
                forall|t: int|
                    1 <= t <= n && #[trigger] m.contains_key(kv.take(t)) ==> m[kv.take(t)] is Dir,
                self@ == with_dirs(m, kv.take(j as int)),
            decreases n - j,
        {
            let prefix = copy_prefix(k, j + 1);
            let ghost before = self@;
            match self.find(&prefix) {
                Some(_) => {},
                None => {
                    self.insert(prefix, Node::Dir);
                },
            }
            proof {
                assert forall|x: Key| #[trigger] key_within(x, kv.take(j + 1)) && x.len() > 0
                    implies key_within(x, kv.take(j as int)) || x == kv.take(j + 1) by {
                    if x.len() < j + 1 {
                        assert(x =~= kv.take(j as int).subrange(0, x.len() as int));
                    } else {
                        assert(x =~= kv.take(j + 1));
                    }
                }
                assert forall|x: Key| #[trigger] key_within(x, kv.take(j as int)) implies key_within(
                    x,
                    kv.take(j + 1),
                ) by {
                    assert(x =~= kv.take(j + 1).subrange(0, x.len() as int));
                }
                assert(key_within(kv.take(j + 1), kv.take(j + 1)));
                assert(self@ =~= with_dirs(m, kv.take(j + 1)));
            }
            j = j + 1;
        }
        proof {
            assert(kv.take(n as int) =~= kv);
            assert forall|t: int|
                1 <= t <= kv.len() && #[trigger] m.contains_key(kv.take(t)) implies m[kv.take(
                t,
            )] is Dir by {}
        }
        true
    }

    fn put_file(&mut self, k: &Vec<String>, content: String) -> (r: Result<(), ActionRefused>)
        requires
            old(self).wf(),
        ensures
            final(self).wf(),
            ({
                let m = old(self)@;
                let kv = strings_view(k@);
                let ok = parent_is_dir(m, kv) && (!m.contains_key(kv) || m[kv] is File);
                &&& r is Ok <==> ok
                &&& ok ==> final(self)@ == m.insert(kv, NodeView::File(content@))
                &&& !ok ==> final(self)@ == m
            }),
    {
        if !self.parent_dir_ok(k) {
            return Err(ActionRefused);
        }
        let replaceable = match self.node_of(k) {
            Some(node) => node.is_file(),
            None => true,
        };
        if !replaceable {
            return Err(ActionRefused);
        }
        self.insert(copy_key(k), Node::File { content });
        Ok(())
    }

    /// Carries out `a` on the tree.
    pub fn apply(&mut self, a: &FsAction) -> (r: Result<(), ActionRefused>)
        requires
            old(self).wf(),
        ensures
            final(self).wf(),
            r is Ok ==> action_effect(old(self)@, *a) == Some(final(self)@),
            r is Err ==> action_effect(old(self)@, *a) is None && final(self)@ == old(self)@,
    {
        let ghost m = self@;
        match a {
            FsAction::EnsureDir { path } => {
                if self.ensure_dir(path.components()) {
                    Ok(())
                } else {
                    Err(ActionRefused)
                }
            },
            FsAction::CreateFile { path } => self.put_file(path.components(), String::new()),
            FsAction::WriteFile { path, content } => self.put_file(
                path.components(),
                content.clone(),
            ),
            FsAction::CopyFile { src, dest } => {
                let s = src.components();
                let d = dest.components();
                let node = match self.node_of(s) {
                    Some(n) => {
                        if n.is_dir() {
                            return Err(ActionRefused);
                        }
                        n.duplicate()
                    },
                    None => {
                        return Err(ActionRefused);
                    },
                };
                if !self.parent_dir_ok(d) || keys_equal(s, d) {
                    return Err(ActionRefused);
                }
                let replaceable = match self.node_of(d) {
                    Some(n) => n.is_file(),
                    None => true,
                };
                if !replaceable {
                    return Err(ActionRefused);
                }
                self.insert(copy_key(d), node);
                Ok(())
            },
            FsAction::CopyDir { src, dest } => {
                let s = src.components();
                let d = dest.components();
                let src_is_dir = match self.node_of(s) {
                    Some(n) => n.is_dir(),
                    None => false,
                };
                let dest_free = match self.node_of(d) {
                    Some(_) => false,
                    None => true,
                };
                if !src_is_dir || !dest_free || !self.parent_dir_ok(d) || key_starts_with(d, s) {
                    return Err(ActionRefused);
                }
                let moved = self.collect_moved(s, d);
                self.insert_all(&moved);
                Ok(())
            },
            FsAction::RemoveFile { path } => {
                let k = path.components();
                let removable = match self.node_of(k) {
                    Some(n) => !n.is_dir(),
                    None => false,
                };
                if k.len() == 0 || !removable {
                    return Err(ActionRefused);
                }
                self.remove_covered(k, false);
                assert(self@ =~= m.remove(path@.components));
                Ok(())
            },
            FsAction::RemoveDir { path } => {
                let k = path.components();
                if k.len() == 0 {
                    return Err(ActionRefused);
                }
                let (is_dir, is_link) = match self.node_of(k) {
                    Some(n) => (n.is_dir(), !n.is_dir() && !n.is_file()),
                    None => (false, false),
                };
                if is_dir {
                    self.remove_covered(k, true);
                    Ok(())
                } else if is_link {
                    self.remove_covered(k, false);
                    assert(self@ =~= m.remove(path@.components));
                    Ok(())
                } else {
                    Err(ActionRefused)
                }
            },
            FsAction::Rename { src, dest, permit_copy } => {
                let s = src.components();
                let d = dest.components();
                let src_is_dir = match self.node_of(s) {
                    Some(n) => n.is_dir(),
                    None => {
                        return Err(ActionRefused);
                    },
                };
                if s.len() == 0 {
                    return Err(ActionRefused);
                }
                if keys_equal(s, d) {
                    return Ok(());
                }
                if !self.parent_dir_ok(d) || key_starts_with(d, s) {
                    return Err(ActionRefused);
                }
                let target_ok = match self.node_of(d) {
                    None => true,
                    Some(n) => {
                        if n.is_dir() {
                            src_is_dir && !self.has_descendant_exec(d)
                        } else {
                            !src_is_dir
                        }
                    },
                };
                if !target_ok {
                    return Err(ActionRefused);
                }
                let moved = self.collect_moved(s, d);
                self.remove_covered(s, true);
                self.remove_covered(d, true);
                self.insert_all(&moved);
                Ok(())
            },
            FsAction::SymlinkDir { target, link } => {
                let k = link.components();
                let free = match self.node_of(k) {
                    Some(_) => false,
                    None => true,
                };
                if !self.parent_dir_ok(k) || !free {
                    return Err(ActionRefused);
                }
                self.insert(copy_key(k), Node::Link { target: target.clone() });
                Ok(())
            },
        }
    }

    /// Carries out the actions of `acts` in turn, stopping at the first that
    /// fails; the error gives its position.
    pub fn run(&mut self, acts: &Vec<FsAction>) -> (r: Result<(), usize>)
        requires
            old(self).wf(),
        ensures
            final(self).wf(),
            r is Ok ==> run_effect(old(self)@, acts@) == Some(final(self)@),
            r matches Err(k) ==> k < acts@.len(),
            r matches Err(k) ==> run_effect(old(self)@, acts@.take(k as int)) == Some(final(self)@),
            r matches Err(k) ==> action_effect(final(self)@, acts@[k as int]) is None,
    {
        let ghost m = self@;
        let mut i: usize = 0;
        assert(acts@.take(0) =~= Seq::<FsAction>::empty());
        while i < acts.len()
            invariant
                self.wf(),
                i <= acts@.len(),
                m == old(self)@,
                run_effect(m, acts@.take(i as int)) == Some(self@),
            decreases acts@.len() - i,
        {
            let a = &acts[i];
            assert(*a == acts@[i as int]);
            match self.apply(a) {
                Ok(()) => {},
                Err(_) => {
                    return Err(i);
                },
            }
            assert(acts@.take(i + 1).drop_last() =~= acts@.take(i as int));
            i = i + 1;
        }
        assert(acts@.take(acts@.len() as int) =~= acts@);
        Ok(())
    }

    /// Carries out all the actions of `acts` in turn, going on past those that
    /// fail; gives how many failed.
    pub fn run_all(&mut self, acts: &Vec<FsAction>) -> (r: usize)
        requires
            old(self).wf(),
        ensures
            final(self).wf(),
            final(self)@ == run_all_effect(old(self)@, acts@),
            r <= acts@.len(),
    {
        let ghost m = self@;
        let mut failed: usize = 0;
        let mut i: usize = 0;
        assert(acts@.take(0) =~= Seq::<FsAction>::empty());
        while i < acts.len()
            invariant
                self.wf(),
                i <= acts@.len(),
                failed <= i,
                m == old(self)@,
                run_all_effect(m, acts@.take(i as int)) == self@,
            decreases acts@.len() - i,
        {
            match self.apply(&acts[i]) {
                Ok(()) => {},
                Err(_) => {
                    failed = failed + 1;
                },
            }
            assert(acts@.take(i + 1).drop_last() =~= acts@.take(i as int));
            i = i + 1;
        }
        assert(acts@.take(acts@.len() as int) =~= acts@);
        failed
    }

    /// Whether something is at `path`; the root always is.
    pub fn path_exists(&self, path: &FsPath) -> (r: bool)
        requires
            self.wf(),
        ensures
            r == (path@.components.len() == 0 || self@.contains_key(path@.components)),
    {
        let k = path.components();
        if k.len() == 0 {
            return true;
        }
        match self.find(k) {
            Some(_) => true,
            None => false,
        }
    }

    /// Whether a regular file is at `path`.
    pub fn is_file(&self, path: &FsPath) -> (r: bool)
        requires
            self.wf(),
        ensures
            r == (self@.contains_key(path@.components) && self@[path@.components] is File),
    {
        match self.node_of(path.components()) {
            Some(n) => n.is_file(),
            None => false,
        }
    }

    /// A copy of the node at `path`, if any.
    pub fn node_at(&self, path: &FsPath) -> (r: Option<Node>)
        requires
            self.wf(),
        ensures
            r matches Some(n) ==> self@.contains_key(path@.components) && self@[path@.components]
                == n@,
            r is None ==> !self@.contains_key(path@.components),
    {
        match self.node_of(path.components()) {
            Some(n) => Some(n.duplicate()),
            None => None,
        }
    }
}

} // verus!
