//! Paths as sequences of components.
//!
//! A path is held as a flag that says whether it starts at the root and the list
//! of its normal components: empty pieces (from repeated or trailing `/`) and `.`
//! pieces are dropped, as `std::path::Path::components` drops them. `..` is kept
//! as a literal component.
//!
//! Paths here follow the POSIX rules, as `std::path` applies them on Unix: `/`
//! is the only separator, and a path is absolute exactly when it starts with
//! `/`. Windows rules (`\` as a second separator, drive prefixes such as `C:\`)
//! are not modelled.
use vstd::prelude::*;

verus! {

/// A piece of a path text that names something: neither empty nor `.`.
pub open spec fn is_normal_component(c: Seq<char>) -> bool {
    c.len() > 0 && c != seq!['.']
}

/// Adds the piece in progress to the finished components when it is normal.
pub open spec fn flush_piece(done: Seq<Seq<char>>, cur: Seq<char>) -> Seq<Seq<char>> {
    if is_normal_component(cur) {
        done.push(cur)
    } else {
        done
    }
}

/// Reads `s` left to right, splitting at `/`: the normal components finished so far
/// and the piece in progress.
pub open spec fn scan_components(s: Seq<char>) -> (Seq<Seq<char>>, Seq<char>)
    decreases s.len(),
{
    if s.len() == 0 {
        (Seq::empty(), Seq::empty())
    } else {
        let prev = scan_components(s.drop_last());
        if s.last() == '/' {
            (flush_piece(prev.0, prev.1), Seq::empty())
        } else {
            (prev.0, prev.1.push(s.last()))
        }
    }
}

/// The normal components of the path text `s`.
pub open spec fn path_components(s: Seq<char>) -> Seq<Seq<char>> {
    flush_piece(scan_components(s).0, scan_components(s).1)
}

/// A normal piece without a separator in it: what a path component can be.
pub open spec fn is_path_component(c: Seq<char>) -> bool {
    is_normal_component(c) && !c.contains('/')
}

/// Whether every element of `cs` can be a path component.
pub open spec fn components_wf(cs: Seq<Seq<char>>) -> bool {
    forall|i: int| 0 <= i < cs.len() ==> is_path_component(#[trigger] cs[i])
}

proof fn lemma_scan_wf(s: Seq<char>)
    ensures
        components_wf(scan_components(s).0),
        !scan_components(s).1.contains('/'),
    decreases s.len(),
{
    if s.len() > 0 {
        lemma_scan_wf(s.drop_last());
        let prev = scan_components(s.drop_last());
        if s.last() != '/' {
            let cur = prev.1.push(s.last());
            assert forall|j: int| 0 <= j < cur.len() implies cur[j] != '/' by {
                if j < prev.1.len() {
                    assert(cur[j] == prev.1[j]);
                }
            }
        }
    }
}

/// Every component of a path text is a normal piece without a separator.
pub proof fn lemma_path_components_wf(s: Seq<char>)
    ensures
        components_wf(path_components(s)),
{
    lemma_scan_wf(s);
}

proof fn lemma_scan_append(x: Seq<char>, b: Seq<char>)
    requires
        scan_components(x).1.len() == 0,
    ensures
        scan_components(x + b) == (scan_components(x).0 + scan_components(b).0, scan_components(
            b,
        ).1),
    decreases b.len(),
{
    if b.len() == 0 {
        assert(x + b =~= x);
        assert(scan_components(x).0 + Seq::<Seq<char>>::empty() =~= scan_components(x).0);
    } else {
        lemma_scan_append(x, b.drop_last());
        assert((x + b).drop_last() =~= x + b.drop_last());
        let c = scan_components(x).0;
        let prev = scan_components(b.drop_last());
        if b.last() == '/' {
            if is_normal_component(prev.1) {
                assert(c + prev.0.push(prev.1) =~= (c + prev.0).push(prev.1));
            }
        }
    }
}

/// Joining path texts with a separator joins their components: the components
/// of `a`, a `/`, then `b` are those of `a` followed by those of `b`.
pub proof fn lemma_text_join_components(a: Seq<char>, b: Seq<char>)
    ensures
        path_components(a.push('/') + b) == path_components(a) + path_components(b),
{
    let x = a.push('/');
    assert(x.drop_last() =~= a);
    lemma_scan_append(x, b);
    let c = path_components(a);
    let sb = scan_components(b);
    if is_normal_component(sb.1) {
        assert(c + sb.0.push(sb.1) =~= (c + sb.0).push(sb.1));
    }
}

/// Whether the path text `s` starts at the root.
pub open spec fn text_is_absolute(s: Seq<char>) -> bool {
    s.len() > 0 && s[0] == '/'
}

/// The abstract value of a path.
pub struct PathView {
    pub absolute: bool,
    pub components: Seq<Seq<char>>,
}

/// The path that the text `s` names.
pub open spec fn text_path(s: Seq<char>) -> PathView {
    PathView { absolute: text_is_absolute(s), components: path_components(s) }
}

/// `b` appended to `a`, as `Path::join` does: an absolute `b` replaces `a`.
pub open spec fn spec_join(a: PathView, b: PathView) -> PathView {
    if b.absolute {
        b
    } else {
        PathView { absolute: a.absolute, components: a.components + b.components }
    }
}

/// The path without its last component, as `Path::parent` gives it; none for a
/// path without components.
pub open spec fn spec_parent(p: PathView) -> Option<PathView> {
    if p.components.len() == 0 {
        None
    } else {
        Some(PathView { absolute: p.absolute, components: p.components.drop_last() })
    }
}

/// The last component, as `Path::file_name` gives it; none when the path has no
/// component or ends in `..`.
pub open spec fn spec_file_name(p: PathView) -> Option<Seq<char>> {
    if p.components.len() == 0 || p.components.last() == seq!['.', '.'] {
        None
    } else {
        Some(p.components.last())
    }
}

/// The views of a list of strings.
pub open spec fn strings_view(v: Seq<String>) -> Seq<Seq<char>> {
    Seq::new(v.len(), |i: int| v[i]@)
}

/// A path, held by its normal components.
#[derive(Debug)]
pub struct FsPath {
    absolute: bool,
    components: Vec<String>,
}

impl FsPath {
    #[verifier::type_invariant]
    spec fn components_are_wf(&self) -> bool {
        components_wf(strings_view(self.components@))
    }
}

impl View for FsPath {
    type V = PathView;

    closed spec fn view(&self) -> PathView {
        PathView { absolute: self.absolute, components: strings_view(self.components@) }
    }
}

/// Appends `c` to `s`, by `String::push`.
#[verifier::external_body]
pub(crate) fn push_char(s: &mut String, c: char)
    ensures
        final(s)@ == old(s)@.push(c),
{
    s.push(c);
}

/// A copy of `v` from position `from` on.
fn copy_strings(v: &Vec<String>, from: usize) -> (r: Vec<String>)
    requires
        from <= v@.len(),
    ensures
        strings_view(r@) == strings_view(v@).subrange(from as int, v@.len() as int),
{
    let mut r: Vec<String> = Vec::new();
    let mut i: usize = from;
    while i < v.len()
        invariant
            from <= i <= v@.len(),
            strings_view(r@) == strings_view(v@).subrange(from as int, i as int),
        decreases v@.len() - i,
    {
        let ghost before = r@;
        let c = v[i].clone();
        r.push(c);
        assert(strings_view(r@) =~= strings_view(before).push(v@[i as int]@));
        assert(strings_view(r@) =~= strings_view(v@).subrange(from as int, i + 1));
        i = i + 1;
    }
    r
}

fn piece_is_normal(cur: &String, len: usize, first: char) -> (r: bool)
    requires
        len == cur@.len(),
        len > 0 ==> first == cur@[0],
    ensures
        r == is_normal_component(cur@),
{
    if len == 0 {
        false
    } else if len == 1 && first == '.' {
        assert(cur@ =~= seq!['.']);
        false
    } else {
        assert(len != 1 ==> cur@.len() != seq!['.'].len());
        true
    }
}

impl FsPath {
    /// Reads a path text by the POSIX rules: it splits at `/` only, and the
    /// path is absolute when the text starts with `/`.
    pub fn parse(s: &str) -> (r: FsPath)
        ensures
            r@.absolute == text_is_absolute(s@),
            r@.components == path_components(s@),
    {
        let n = s.unicode_len();
        let mut comps: Vec<String> = Vec::new();
        let mut cur = String::new();
        let mut cur_len: usize = 0;
        let mut cur_first: char = ' ';
        let mut i: usize = 0;
        assert(s@.take(0) =~= Seq::<char>::empty());
        while i < n
            invariant
                n == s@.len(),
                i <= n,
                strings_view(comps@) == scan_components(s@.take(i as int)).0,
                cur@ == scan_components(s@.take(i as int)).1,
                cur_len == cur@.len(),
                cur_len <= i,
                cur_len > 0 ==> cur_first == cur@[0],
            decreases n - i,
        {
            let c = s.get_char(i);
            assert(s@.take(i + 1).drop_last() =~= s@.take(i as int));
            assert(s@.take(i + 1).last() == c);
            if c == '/' {
                if piece_is_normal(&cur, cur_len, cur_first) {
                    let ghost old_comps = comps@;
                    comps.push(cur);
                    assert(strings_view(comps@) =~= strings_view(old_comps).push(
                        scan_components(s@.take(i as int)).1,
                    ));
                }
                cur = String::new();
                cur_len = 0;
            } else {
                if cur_len == 0 {
                    cur_first = c;
                }
                push_char(&mut cur, c);
                cur_len = cur_len + 1;
            }
            i = i + 1;
        }
        assert(s@.take(n as int) =~= s@);
        if piece_is_normal(&cur, cur_len, cur_first) {
            let ghost old_comps = comps@;
            comps.push(cur);
            assert(strings_view(comps@) =~= strings_view(old_comps).push(
                scan_components(s@).1,
            ));
        }
        let absolute = n > 0 && s.get_char(0) == '/';
        proof {
            lemma_path_components_wf(s@);
        }
        FsPath { absolute, components: comps }
    }

    /// A copy of this path.
    pub fn duplicate(&self) -> (r: FsPath)
        ensures
            r@ == self@,
    {
        proof {
            use_type_invariant(self);
        }
        let comps = copy_strings(&self.components, 0);
        assert(strings_view(self.components@).subrange(0, self.components@.len() as int)
            =~= strings_view(self.components@));
        FsPath { absolute: self.absolute, components: comps }
    }

    /// Whether the path starts at the root.
    pub fn is_absolute(&self) -> (r: bool)
        ensures
            r == self@.absolute,
    {
        self.absolute
    }

    /// The normal components of the path, in order.
    pub fn components(&self) -> (r: &Vec<String>)
        ensures
            strings_view(r@) == self@.components,
    {
        &self.components
    }

    /// `other` appended to this path; an absolute `other` replaces it.
    pub fn join(&self, other: &FsPath) -> (r: FsPath)
        ensures
            r@ == spec_join(self@, other@),
    {
        proof {
            use_type_invariant(self);
            use_type_invariant(other);
        }
        if other.absolute {
            other.duplicate()
        } else {
            let mut comps = copy_strings(&self.components, 0);
            assert(strings_view(self.components@).subrange(0, self.components@.len() as int)
                =~= strings_view(self.components@));
            let ghost front = comps@;
            let mut i: usize = 0;
            while i < other.components.len()
                invariant
                    i <= other.components@.len(),
                    strings_view(front) == strings_view(self.components@),
                    strings_view(comps@) == strings_view(front) + strings_view(
                        other.components@,
                    ).take(i as int),
                decreases other.components@.len() - i,
            {
                let ghost before = comps@;
                let c = other.components[i].clone();
                comps.push(c);
                assert(strings_view(comps@) =~= strings_view(before).push(
                    other.components@[i as int]@,
                ));
                assert(strings_view(comps@) =~= strings_view(front) + strings_view(
                    other.components@,
                ).take(i + 1));
                i = i + 1;
            }
            assert(strings_view(other.components@).take(i as int) =~= strings_view(
                other.components@,
            ));
            assert(components_wf(strings_view(comps@))) by {
                let a = strings_view(self.components@);
                let b = strings_view(other.components@);
                assert forall|t: int| 0 <= t < (a + b).len() implies is_path_component(
                    #[trigger] (a + b)[t],
                ) by {
                    if t < a.len() {
                        assert((a + b)[t] == a[t]);
                    } else {
                        assert((a + b)[t] == b[t - a.len()]);
                    }
                }
            }
            FsPath { absolute: self.absolute, components: comps }
        }
    }

    /// This path with one more component, `c`, at its end.
    pub fn push_component(&self, c: String) -> (r: FsPath)
        requires
            is_path_component(c@),
        ensures
            r@ == (PathView { absolute: self@.absolute, components: self@.components.push(c@) }),
    {
        proof {
            use_type_invariant(self);
        }
        let mut comps = copy_strings(&self.components, 0);
        assert(strings_view(self.components@).subrange(0, self.components@.len() as int)
            =~= strings_view(self.components@));
        let ghost before = comps@;
        comps.push(c);
        assert(strings_view(comps@) =~= strings_view(before).push(c@));
        FsPath { absolute: self.absolute, components: comps }
    }

    /// The path text `name` appended to this path.
    pub fn join_str(&self, name: &str) -> (r: FsPath)
        ensures
            r@ == spec_join(self@, text_path(name@)),
    {
        let other = FsPath::parse(name);
        self.join(&other)
    }

    /// The path without its last component.
    pub fn parent(&self) -> (r: Option<FsPath>)
        ensures
            r matches Some(q) ==> spec_parent(self@) == Some(q@),
            r is None ==> spec_parent(self@) is None,
    {
        proof {
            use_type_invariant(self);
        }
        let n = self.components.len();
        if n == 0 {
            None
        } else {
            let mut comps = copy_strings(&self.components, 0);
            assert(strings_view(self.components@).subrange(0, n as int) =~= strings_view(
                self.components@,
            ));
            let ghost full = comps@;
            comps.pop();
            assert(comps@ =~= full.drop_last());
            assert(strings_view(comps@) =~= strings_view(self.components@).drop_last());
            Some(FsPath { absolute: self.absolute, components: comps })
        }
    }

    /// The last component, unless the path has none or ends in `..`.
    pub fn file_name(&self) -> (r: Option<String>)
        ensures
            r matches Some(s) ==> spec_file_name(self@) == Some(s@) && is_path_component(s@),
            r is None ==> spec_file_name(self@) is None,
    {
        proof {
            use_type_invariant(self);
        }
        let n = self.components.len();
        if n == 0 {
            return None;
        }
        let last = &self.components[n - 1];
        assert(last@ == self@.components.last());
        let len = last.unicode_len();
        if len == 2 && last.as_str().get_char(0) == '.' && last.as_str().get_char(1) == '.' {
            assert(last@ =~= seq!['.', '.']);
            None
        } else {
            assert(len != 2 ==> last@.len() != seq!['.', '.'].len());
            Some(last.clone())
        }
    }
}

} // verus!
