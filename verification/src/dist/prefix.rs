//! The target of an installation, where its files go, and the A/B addressing of
//! installation objects.
use vstd::prelude::*;

use crate::path::{
    is_path_component, spec_file_name, spec_join, spec_parent, text_path, FsPath, PathView,
};

verus! {

/// The file name of the distribution manifest.
pub const DIST_MANIFEST: &'static str = "multirust-channel-manifest.toml";

/// The components of the manifest directory of an installation, relative to it.
pub open spec fn rel_manifest_dir_components() -> Seq<Seq<char>> {
    seq![seq!['l', 'i', 'b'], seq!['r', 'u', 's', 't', 'l', 'i', 'b']]
}

/// The names of the manifests of the components that a v1 installation has.
pub open spec fn v1_manifest_names() -> Seq<Seq<char>> {
    seq![
        "manifest-"@ + "cargo"@,
        "manifest-"@ + "rustc"@,
        "manifest-"@ + "rust-docs"@,
    ]
}

/// Where an installation goes.
#[derive(Debug)]
pub struct InstallPrefix {
    path: FsPath,
}

/// The target of an installation and, when it modifies an existing installation,
/// that installation.
#[derive(Debug)]
pub struct InstallPrefixWithOrigin {
    pub dest: InstallPrefix,
    pub orig: Option<InstallPrefix>,
}

/// The `lib/rustlib` directory, relative.
fn rel_manifest_dir() -> (r: FsPath)
    ensures
        r@ == (PathView { absolute: false, components: rel_manifest_dir_components() }),
{
    let empty = FsPath::parse("");
    proof {
        reveal_strlit("");
        reveal_strlit("lib");
        reveal_strlit("rustlib");
        assert(crate::path::path_components(Seq::<char>::empty()) =~= Seq::<Seq<char>>::empty());
        let l = seq!['l', 'i', 'b'];
        assert("lib"@ =~= l);
        assert forall|j: int| 0 <= j < l.len() implies l[j] != '/' by {}
        assert(l != seq!['.']);
    }
    let lib = empty.push_component(String::from_str("lib"));
    proof {
        let rl = seq!['r', 'u', 's', 't', 'l', 'i', 'b'];
        assert("rustlib"@ =~= rl);
        assert forall|j: int| 0 <= j < rl.len() implies rl[j] != '/' by {}
        assert(rl != seq!['.']);
        assert("lib"@ =~= seq!['l', 'i', 'b']);
    }
    let r = lib.push_component(String::from_str("rustlib"));
    assert(r@.components =~= rel_manifest_dir_components());
    r
}

impl InstallPrefix {
    /// The prefix at `path`.
    pub fn from_path(path: FsPath) -> (r: InstallPrefix)
        ensures
            r@ == path@,
    {
        InstallPrefix { path }
    }

    /// The path of the prefix.
    pub closed spec fn view(&self) -> PathView {
        self.path@
    }

    /// The path of the prefix.
    pub fn path(&self) -> (r: &FsPath)
        ensures
            r@ == self.view(),
    {
        &self.path
    }

    /// A copy of this prefix.
    pub fn duplicate(&self) -> (r: InstallPrefix)
        ensures
            r.view() == self.view(),
    {
        InstallPrefix { path: self.path.duplicate() }
    }

    /// `path` taken relative to the prefix.
    pub fn abs_path(&self, path: &FsPath) -> (r: FsPath)
        ensures
            r@ == spec_join(self.view(), path@),
    {
        self.path.join(path)
    }

    /// The manifest directory of the installation.
    pub fn manifest_dir(&self) -> (r: FsPath)
        ensures
            r@ == (PathView {
                absolute: self.view().absolute,
                components: self.view().components + rel_manifest_dir_components(),
            }),
    {
        self.path.join(&rel_manifest_dir())
    }

    /// The manifest file `name` of the installation.
    pub fn manifest_file(&self, name: &str) -> (r: FsPath)
        ensures
            r@ == spec_join(
                PathView {
                    absolute: self.view().absolute,
                    components: self.view().components + rel_manifest_dir_components(),
                },
                text_path(name@),
            ),
    {
        self.manifest_dir().join_str(name)
    }

    /// Where the distribution manifest of the installation is, which is there
    /// only when the installation came from a distribution.
    pub fn dist_manifest_path(&self) -> (r: FsPath)
        ensures
            r@ == spec_join(
                PathView {
                    absolute: self.view().absolute,
                    components: self.view().components + rel_manifest_dir_components(),
                },
                text_path(DIST_MANIFEST@),
            ),
    {
        self.manifest_file(DIST_MANIFEST)
    }

    /// The distribution manifest of the installation when it is there;
    /// `present` says whether it is (at `dist_manifest_path`).
    pub fn dist_manifest(&self, present: bool) -> (r: Option<FsPath>)
        ensures
            r is Some <==> present,
            r matches Some(p) ==> p@ == spec_join(
                PathView {
                    absolute: self.view().absolute,
                    components: self.view().components + rel_manifest_dir_components(),
                },
                text_path(DIST_MANIFEST@),
            ),
    {
        if present {
            Some(self.dist_manifest_path())
        } else {
            None
        }
    }

    /// The manifest file `name`, relative to the prefix.
    pub fn rel_manifest_file(&self, name: &str) -> (r: FsPath)
        ensures
            r@ == spec_join(
                PathView { absolute: false, components: rel_manifest_dir_components() },
                text_path(name@),
            ),
    {
        rel_manifest_dir().join_str(name)
    }

    /// The manifests whose presence marks a v1 installation, in order.
    pub fn v1_manifest_files(&self) -> (r: Vec<FsPath>)
        ensures
            r@.len() == v1_manifest_names().len(),
            forall|i: int|
                0 <= i < r@.len() ==> (#[trigger] r@[i])@ == spec_join(
                    PathView {
                        absolute: self.view().absolute,
                        components: self.view().components + rel_manifest_dir_components(),
                    },
                    text_path(v1_manifest_names()[i]),
                ),
    {
        let mut r: Vec<FsPath> = Vec::new();
        let mut name = String::from_str("manifest-");
        name.append("cargo");
        r.push(self.manifest_file(name.as_str()));
        let mut name = String::from_str("manifest-");
        name.append("rustc");
        r.push(self.manifest_file(name.as_str()));
        let mut name = String::from_str("manifest-");
        name.append("rust-docs");
        r.push(self.manifest_file(name.as_str()));
        r
    }

    /// Whether an installation is likely a v1 one: all the manifests of
    /// `v1_manifest_files` are present. `present` says, in the same order,
    /// which of them are.
    pub fn guess_v1_manifest(&self, present: &Vec<bool>) -> (r: bool)
        requires
            present@.len() == v1_manifest_names().len(),
        ensures
            r == (forall|i: int| 0 <= i < present@.len() ==> present@[i]),
    {
        let mut i: usize = 0;
        while i < present.len()
            invariant
                i <= present@.len(),
                forall|j: int| 0 <= j < i ==> present@[j],
            decreases present@.len() - i,
        {
            if !present[i] {
                return false;
            }
            i = i + 1;
        }
        true
    }
}

/// One of the two places an installation object can live in.
#[derive(Debug)]
pub enum Partition {
    A,
    B,
}

/// The end of the name of an object in the partition `p`.
pub open spec fn partition_suffix(p: Partition) -> Seq<char> {
    match p {
        Partition::A => seq!['-', 'A'],
        Partition::B => seq!['-', 'B'],
    }
}

/// The partition that an object named `name` lives in, if any.
pub open spec fn spec_partition_of(name: Seq<char>) -> Option<Partition> {
    if name.len() >= 2 && name.subrange(name.len() - 2, name.len() as int) == seq!['-', 'A'] {
        Some(Partition::A)
    } else if name.len() >= 2 && name.subrange(name.len() - 2, name.len() as int) == seq![
        '-',
        'B',
    ] {
        Some(Partition::B)
    } else {
        None
    }
}

/// The partition that a new installation goes to when the reference points
/// into `current`: the other one, and `A` when it points into none.
pub open spec fn next_partition(current: Option<Partition>) -> Partition {
    match current {
        Some(Partition::A) => Partition::B,
        _ => Partition::A,
    }
}

/// A link target's partition is read from the last two characters of its name
/// alone: whatever text `p` comes before (dashes included), the name `p-A` is in
/// partition A and `p-B` in partition B, and a name that ends in neither is in
/// none. So a new installation goes to `-B` when the reference points into a
/// `-A` object, and to `-A` when it points into a `-B` object or into neither.
pub proof fn lemma_partition_by_last_two(p: Seq<char>, n: Seq<char>)
    ensures
        spec_partition_of(p + seq!['-', 'A']) == Some(Partition::A),
        spec_partition_of(p + seq!['-', 'B']) == Some(Partition::B),
        !(n.len() >= 2 && n[n.len() - 2] == '-' && (n.last() == 'A' || n.last() == 'B'))
            ==> spec_partition_of(n) is None,
        partition_suffix(next_partition(spec_partition_of(p + seq!['-', 'A']))) == seq!['-', 'B'],
        partition_suffix(next_partition(spec_partition_of(p + seq!['-', 'B']))) == seq!['-', 'A'],
        spec_partition_of(n) is None ==> partition_suffix(next_partition(spec_partition_of(n)))
            == seq!['-', 'A'],
{
    let a = p + seq!['-', 'A'];
    let b = p + seq!['-', 'B'];
    assert(a.subrange(a.len() - 2, a.len() as int) =~= seq!['-', 'A']);
    assert(b.subrange(b.len() - 2, b.len() as int) =~= seq!['-', 'B']);
    if n.len() >= 2 {
        let t = n.subrange(n.len() - 2, n.len() as int);
        if t == seq!['-', 'A'] || t == seq!['-', 'B'] {
            assert(t[0] == n[n.len() - 2] && t[1] == n.last());
        }
    }
}

/// What was found on disk at a reference path.
#[derive(Debug)]
pub struct ReferenceState {
    /// The file name of where the reference links to, when it is a symbolic
    /// link whose target has a file name that is valid Unicode.
    pub link_name: Option<String>,
    /// Whether something is at the reference path.
    pub exists: bool,
}

/// Why an installation target could not be chosen.
#[derive(Debug)]
pub enum AddressError {
    /// The reference path has no file name.
    NoFileName,
}

/// Chooses where an installation goes for a reference path.
pub trait AddressingStrategy {
    /// The target of an installation for `reference`, given what is found on disk there.
    fn address(&self, reference: &InstallPrefix, state: &ReferenceState) -> Result<
        InstallPrefixWithOrigin,
        AddressError,
    >;
}

/// A/B addressing: objects live in a heap directory, in one of two partitions
/// per reference, and a new installation goes to the partition that the
/// reference does not point into.
pub struct AbAddressing {
    heap: FsPath,
}

impl AbAddressing {
    /// Addressing with objects in the directory `heap`.
    pub fn new(heap: FsPath) -> (r: AbAddressing)
        ensures
            r.heap_view() == heap@,
    {
        AbAddressing { heap }
    }

    /// The heap directory.
    pub closed spec fn heap_view(&self) -> PathView {
        self.heap@
    }

    /// The heap directory.
    pub fn heap(&self) -> (r: &FsPath)
        ensures
            r@ == self.heap_view(),
    {
        &self.heap
    }

    /// The partition that a reference points into when its link target has
    /// the file name `name`.
    pub fn partition(name: &str) -> (r: Option<Partition>)
        ensures
            r == spec_partition_of(name@),
    {
        let len = name.unicode_len();
        if len < 2 {
            return None;
        }
        let dash = name.get_char(len - 2);
        let last = name.get_char(len - 1);
        let ghost tail = name@.subrange(len - 2, len as int);
        assert(tail =~= seq![dash, last]);
        if dash == '-' && last == 'A' {
            Some(Partition::A)
        } else if dash == '-' && last == 'B' {
            Some(Partition::B)
        } else {
            assert(tail != seq!['-', 'A'] && tail != seq!['-', 'B']) by {
                if tail == seq!['-', 'A'] {
                    assert(tail[0] == '-' && tail[1] == 'A');
                }
                if tail == seq!['-', 'B'] {
                    assert(tail[0] == '-' && tail[1] == 'B');
                }
            }
            None
        }
    }
}

impl AddressingStrategy for AbAddressing {
    fn address(&self, reference: &InstallPrefix, state: &ReferenceState) -> (r: Result<
        InstallPrefixWithOrigin,
        AddressError,
    >)
        ensures
            spec_file_name(reference.view()) is None <==> r is Err,
            r matches Ok(t) ==> {
                let p = next_partition(
                    match state.link_name {
                        Some(n) => spec_partition_of(n@),
                        None => None,
                    },
                );
                &&& t.dest.view() == (PathView {
                    absolute: self.heap_view().absolute,
                    components: self.heap_view().components.push(
                        spec_file_name(reference.view())->0 + partition_suffix(p),
                    ),
                })
                &&& (t.orig is Some <==> state.exists)
                &&& (t.orig matches Some(o) ==> o.view() == reference.view())
            },
    {
        let name = match reference.path().file_name() {
            Some(n) => n,
            None => {
                return Err(AddressError::NoFileName);
            },
        };
        let current = match &state.link_name {
            Some(n) => AbAddressing::partition(n.as_str()),
            None => None,
        };
        let partition = match current {
            Some(Partition::A) => Partition::B,
            _ => Partition::A,
        };
        let mut object = name;
        let ghost base = object@;
        match partition {
            Partition::A => {
                object.append("-A");
                proof {
                    reveal_strlit("-A");
                }
            },
            Partition::B => {
                object.append("-B");
                proof {
                    reveal_strlit("-B");
                }
            },
        }
        proof {
            let suffix = partition_suffix(partition);
            assert(object@ =~= base + suffix);
            assert forall|j: int| 0 <= j < object@.len() implies object@[j] != '/' by {
                if j < base.len() {
                    assert(object@[j] == base[j]);
                } else {
                    assert(object@[j] == suffix[j - base.len()]);
                }
            }
            assert(object@.len() >= 2);
        }
        let dest = self.heap.push_component(object);
        let orig = if state.exists {
            Some(reference.duplicate())
        } else {
            None
        };
        Ok(InstallPrefixWithOrigin { dest: InstallPrefix::from_path(dest), orig })
    }
}

} // verus!
