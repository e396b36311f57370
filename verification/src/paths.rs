//! Ordering file paths the way `std::path::Path` orders them: by their
//! components, where a path is read as an optional root, an optional
//! leading `.`, and its `/`-separated segments with empty and `.` segments
//! skipped.

use vstd::prelude::*;

use crate::text::{chars_equal, chars_of, index_of_from, lemma_next_index_of, lemma_next_index_shift, next_index_of};

verus! {

/// One component of a path.
pub enum PathComponent {
    /// The root, `/` at the start.
    RootDir,
    /// A `.` at the start of a relative path.
    CurDir,
    /// A `..` segment.
    ParentDir,
    /// Any other segment.
    Normal(Seq<char>),
}

/// The components of the `/`-separated segments of `s`: empty and `.`
/// segments are skipped.
pub open spec fn segment_components(s: Seq<char>) -> Seq<PathComponent>
    decreases s.len(),
{
    if s.len() == 0 {
        Seq::empty()
    } else {
        let end = next_index_of(s, '/', 0);
        let segment = s.take(end);
        let head = if segment.len() == 0 || segment == seq!['.'] {
            Seq::empty()
        } else if segment == seq!['.', '.'] {
            seq![PathComponent::ParentDir]
        } else {
            seq![PathComponent::Normal(segment)]
        };
        if end >= s.len() {
            head
        } else {
            proof {
                lemma_next_index_of(s, '/', 0);
            }
            head + segment_components(s.skip(end + 1))
        }
    }
}

/// The components of the path `s`.
pub open spec fn path_components(s: Seq<char>) -> Seq<PathComponent> {
    if s.len() > 0 && s[0] == '/' {
        seq![PathComponent::RootDir] + segment_components(s.skip(1))
    } else if s.len() > 0 && s[0] == '.' && (s.len() == 1 || s[1] == '/') {
        seq![PathComponent::CurDir] + segment_components(s.skip(1))
    } else {
        segment_components(s)
    }
}

/// The order of the kinds of component: the root first, then `.`, then
/// `..`, then named segments.
pub open spec fn component_rank(c: PathComponent) -> int {
    match c {
        PathComponent::RootDir => 1,
        PathComponent::CurDir => 2,
        PathComponent::ParentDir => 3,
        PathComponent::Normal(_) => 4,
    }
}

/// The comparison of `a` and `b` character by character, a prefix first:
/// -1, 0 or 1.
pub open spec fn chars_order(a: Seq<char>, b: Seq<char>) -> int
    decreases a.len(),
{
    if a.len() == 0 {
        if b.len() == 0 {
            0
        } else {
            -1
        }
    } else if b.len() == 0 {
        1
    } else if a[0] < b[0] {
        -1
    } else if a[0] > b[0] {
        1
    } else {
        chars_order(a.drop_first(), b.drop_first())
    }
}

/// The comparison of two components: by kind, then by name.
pub open spec fn component_order(a: PathComponent, b: PathComponent) -> int {
    if component_rank(a) < component_rank(b) {
        -1
    } else if component_rank(a) > component_rank(b) {
        1
    } else {
        match (a, b) {
            (PathComponent::Normal(x), PathComponent::Normal(y)) => chars_order(x, y),
            _ => 0,
        }
    }
}

/// The comparison of two component sequences, component by component, a
/// prefix first.
pub open spec fn components_order(a: Seq<PathComponent>, b: Seq<PathComponent>) -> int
    decreases a.len(),
{
    if a.len() == 0 {
        if b.len() == 0 {
            0
        } else {
            -1
        }
    } else if b.len() == 0 {
        1
    } else if component_order(a[0], b[0]) != 0 {
        component_order(a[0], b[0])
    } else {
        components_order(a.drop_first(), b.drop_first())
    }
}

/// The comparison of two paths by their components: -1, 0 or 1.
pub open spec fn path_order(a: Seq<char>, b: Seq<char>) -> int {
    components_order(path_components(a), path_components(b))
}

/// Character order is a total order: swapping the sides flips the sign,
/// only equal names compare equal, and it is transitive.
pub proof fn lemma_chars_order(a: Seq<char>, b: Seq<char>, c: Seq<char>)
    ensures
        chars_order(a, b) == -chars_order(b, a),
        chars_order(a, b) == 0 <==> a == b,
        chars_order(a, b) <= 0 && chars_order(b, c) <= 0 ==> chars_order(a, c) <= 0,
        -1 <= chars_order(a, b) <= 1,
    decreases a.len(),
{
    if a.len() > 0 && b.len() > 0 {
        lemma_chars_order(a.drop_first(), b.drop_first(), if c.len() > 0 {
            c.drop_first()
        } else {
            c
        });
        if a[0] == b[0] && chars_order(a.drop_first(), b.drop_first()) == 0 {
            assert(a =~= seq![a[0]] + a.drop_first());
            assert(b =~= seq![b[0]] + b.drop_first());
        }
        if a == b {
            assert(a.drop_first() =~= b.drop_first());
        }
    } else if a.len() == 0 && b.len() == 0 {
        assert(a =~= b);
    }
}

/// Component order is a total order, as [`lemma_chars_order`] says of
/// names.
pub proof fn lemma_component_order(a: PathComponent, b: PathComponent, c: PathComponent)
    ensures
        component_order(a, b) == -component_order(b, a),
        component_order(a, b) == 0 <==> a == b,
        component_order(a, b) <= 0 && component_order(b, c) <= 0 ==> component_order(a, c) <= 0,
        -1 <= component_order(a, b) <= 1,
{
    match (a, b, c) {
        (PathComponent::Normal(x), PathComponent::Normal(y), PathComponent::Normal(z)) => {
            lemma_chars_order(x, y, z);
        },
        (PathComponent::Normal(x), PathComponent::Normal(y), _) => {
            lemma_chars_order(x, y, y);
        },
        _ => {},
    }
}

/// Component sequences are totally ordered, component by component.
pub proof fn lemma_components_order(a: Seq<PathComponent>, b: Seq<PathComponent>, c: Seq<PathComponent>)
    ensures
        components_order(a, b) == -components_order(b, a),
        components_order(a, b) == 0 <==> a == b,
        components_order(a, b) <= 0 && components_order(b, c) <= 0 ==> components_order(a, c) <= 0,
    decreases a.len(),
{
    if a.len() > 0 && b.len() > 0 {
        if c.len() > 0 {
            lemma_component_order(a[0], b[0], c[0]);
            lemma_component_order(b[0], c[0], a[0]);
            lemma_component_order(a[0], c[0], b[0]);
            lemma_components_order(a.drop_first(), b.drop_first(), c.drop_first());
        } else {
            lemma_component_order(a[0], b[0], b[0]);
            lemma_components_order(a.drop_first(), b.drop_first(), b.drop_first());
        }
        if component_order(a[0], b[0]) == 0 && components_order(a.drop_first(), b.drop_first()) == 0 {
            assert(a =~= seq![a[0]] + a.drop_first());
            assert(b =~= seq![b[0]] + b.drop_first());
        }
        if a == b {
            assert(a.drop_first() =~= b.drop_first());
        }
    } else if a.len() == 0 && b.len() == 0 {
        assert(a =~= b);
    }
}

/// Paths are totally ordered by their components, and only paths with the
/// same components compare equal.
pub proof fn lemma_path_order(a: Seq<char>, b: Seq<char>, c: Seq<char>)
    ensures
        path_order(a, b) == -path_order(b, a),
        path_order(a, b) == 0 <==> path_components(a) == path_components(b),
        path_order(a, b) <= 0 && path_order(b, c) <= 0 ==> path_order(a, c) <= 0,
{
    lemma_components_order(path_components(a), path_components(b), path_components(c));
}

/// A component of a path, held.
pub enum Component {
    RootDir,
    CurDir,
    ParentDir,
    Normal(Vec<char>),
}

impl View for Component {
    type V = PathComponent;

    open spec fn view(&self) -> PathComponent {
        match self {
            Component::RootDir => PathComponent::RootDir,
            Component::CurDir => PathComponent::CurDir,
            Component::ParentDir => PathComponent::ParentDir,
            Component::Normal(name) => PathComponent::Normal(name@),
        }
    }
}

/// The views of a sequence of components.
pub open spec fn component_views(cs: Seq<Component>) -> Seq<PathComponent> {
    cs.map_values(|c: Component| c@)
}

/// Appends the components of the segments of `s` from index `from`.
fn push_segments(s: &[char], from: usize, out: &mut Vec<Component>)
    requires
        from <= s@.len(),
    ensures
        component_views(final(out)@) == component_views(old(out)@) + segment_components(s@.skip(from as int)),
    decreases s@.len() - from,
{
    let ghost rest = s@.skip(from as int);
    let ghost start = out@;
    if from == s.len() {
        proof {
            assert(component_views(out@) =~= component_views(start) + segment_components(rest));
        }
        return;
    }
    let end = index_of_from(s, '/', from);
    proof {
        lemma_next_index_of(s@, '/', from as int);
        lemma_next_index_shift(s@, '/', from as int, 0);
        assert(rest.take(end - from) =~= s@.subrange(from as int, end as int));
    }
    let len = end - from;
    if len == 0 || (len == 1 && s[from] == '.') {
        proof {
            if len == 1 {
                assert(s@.subrange(from as int, end as int) =~= seq!['.']);
            }
        }
    } else if len == 2 && s[from] == '.' && s[from + 1] == '.' {
        proof {
            assert(s@.subrange(from as int, end as int) =~= seq!['.', '.']);
        }
        out.push(Component::ParentDir);
    } else {
        let mut name: Vec<char> = Vec::new();
        let mut i = from;
        while i < end
            invariant
                from <= i <= end <= s@.len(),
                name@ == s@.subrange(from as int, i as int),
            decreases end - i,
        {
            name.push(s[i]);
            proof {
                assert(name@ =~= s@.subrange(from as int, i + 1));
            }
            i = i + 1;
        }
        proof {
            if len == 1 {
                assert(name@ != seq!['.']) by {
                    assert(name@[0] != '.');
                }
            }
            if len == 2 {
                assert(name@ != seq!['.', '.']) by {
                    assert(name@[0] != '.' || name@[1] != '.');
                }
            }
        }
        out.push(Component::Normal(name));
    }
    let ghost mid = out@;
    proof {
        assert(component_views(mid) =~= component_views(start) + (if len == 0 || s@.subrange(
            from as int,
            end as int,
        ) == seq!['.'] {
            Seq::<PathComponent>::empty()
        } else if s@.subrange(from as int, end as int) == seq!['.', '.'] {
            seq![PathComponent::ParentDir]
        } else {
            seq![PathComponent::Normal(s@.subrange(from as int, end as int))]
        }));
    }
    if end < s.len() {
        push_segments(s, end + 1, out);
        proof {
            assert(rest.skip(end - from + 1) =~= s@.skip(end + 1));
            assert(component_views(out@) =~= component_views(start) + segment_components(rest));
        }
    } else {
        proof {
            assert(component_views(out@) =~= component_views(start) + segment_components(rest));
        }
    }
}

/// The components of the path `path`.
pub fn components(path: &str) -> (r: Vec<Component>)
    ensures
        component_views(r@) == path_components(path@),
{
    let s = chars_of(path);
    let mut out: Vec<Component> = Vec::new();
    proof {
        assert(component_views(out@) =~= Seq::<PathComponent>::empty());
    }
    if s.len() > 0 && s[0] == '/' {
        out.push(Component::RootDir);
        push_segments(s.as_slice(), 1, &mut out);
        proof {
            assert(component_views(seq![Component::RootDir]) =~= seq![PathComponent::RootDir]);
        }
    } else if s.len() > 0 && s[0] == '.' && (s.len() == 1 || s[1] == '/') {
        out.push(Component::CurDir);
        push_segments(s.as_slice(), 1, &mut out);
        proof {
            assert(component_views(seq![Component::CurDir]) =~= seq![PathComponent::CurDir]);
        }
    } else {
        push_segments(s.as_slice(), 0, &mut out);
        proof {
            assert(s@.skip(0) =~= s@);
        }
    }
    out
}


/// The comparison of two character sequences, a prefix first.
fn compare_chars(a: &[char], b: &[char]) -> (r: i8)
    ensures
        r as int == chars_order(a@, b@),
{
    proof {
        assert(a@.skip(0) =~= a@);
        assert(b@.skip(0) =~= b@);
    }
    let mut i: usize = 0;
    while i < a.len() && i < b.len()
        invariant
            i <= a@.len(),
            i <= b@.len(),
            chars_order(a@, b@) == chars_order(a@.skip(i as int), b@.skip(i as int)),
        decreases a@.len() - i,
    {
        proof {
            assert(a@.skip(i as int)[0] == a@[i as int]);
            assert(b@.skip(i as int)[0] == b@[i as int]);
        }
        if a[i] < b[i] {
            return -1;
        }
        if a[i] > b[i] {
            return 1;
        }
        proof {
            assert(a@.skip(i as int).drop_first() =~= a@.skip(i + 1));
            assert(b@.skip(i as int).drop_first() =~= b@.skip(i + 1));
        }
        i = i + 1;
    }
    if i < b.len() {
        -1
    } else if i < a.len() {
        1
    } else {
        0
    }
}

/// The rank of a component's kind.
fn rank(c: &Component) -> (r: i8)
    ensures
        r as int == component_rank(c@),
{
    match c {
        Component::RootDir => 1,
        Component::CurDir => 2,
        Component::ParentDir => 3,
        Component::Normal(_) => 4,
    }
}

/// The comparison of two components.
fn compare_components(a: &Component, b: &Component) -> (r: i8)
    ensures
        r as int == component_order(a@, b@),
{
    let ra = rank(a);
    let rb = rank(b);
    if ra < rb {
        -1
    } else if ra > rb {
        1
    } else {
        match (a, b) {
            (Component::Normal(x), Component::Normal(y)) => compare_chars(x.as_slice(), y.as_slice()),
            _ => 0,
        }
    }
}

/// The comparison of two paths by their components: -1, 0 or 1.
pub fn compare_paths(a: &str, b: &str) -> (r: i8)
    ensures
        r as int == path_order(a@, b@),
{
    let ca = components(a);
    let cb = components(b);
    let ghost va = component_views(ca@);
    let ghost vb = component_views(cb@);
    proof {
        assert(va.skip(0) =~= va);
        assert(vb.skip(0) =~= vb);
    }
    let mut i: usize = 0;
    while i < ca.len() && i < cb.len()
        invariant
            i <= ca@.len(),
            i <= cb@.len(),
            va == component_views(ca@),
            vb == component_views(cb@),
            va == path_components(a@),
            vb == path_components(b@),
            components_order(va, vb) == components_order(va.skip(i as int), vb.skip(i as int)),
        decreases ca@.len() - i,
    {
        let c = compare_components(&ca[i], &cb[i]);
        proof {
            assert(va.skip(i as int)[0] == ca@[i as int]@);
            assert(vb.skip(i as int)[0] == cb@[i as int]@);
            assert(va.skip(i as int).len() > 0 && vb.skip(i as int).len() > 0);
        }
        if c != 0 {
            proof {
                let x = va.skip(i as int);
                let y = vb.skip(i as int);
                assert(component_order(x[0], y[0]) == c as int);
                assert(components_order(x, y) == component_order(x[0], y[0]));
            }
            return c;
        }
        proof {
            assert(va.skip(i as int).drop_first() =~= va.skip(i + 1));
            assert(vb.skip(i as int).drop_first() =~= vb.skip(i + 1));
        }
        i = i + 1;
    }
    if i < cb.len() {
        -1
    } else if i < ca.len() {
        1
    } else {
        0
    }
}

/// Whether two components are the same.
fn same_component(a: &Component, b: &Component) -> (r: bool)
    ensures
        r == (a@ == b@),
{
    match (a, b) {
        (Component::RootDir, Component::RootDir) => true,
        (Component::CurDir, Component::CurDir) => true,
        (Component::ParentDir, Component::ParentDir) => true,
        (Component::Normal(x), Component::Normal(y)) => chars_equal(x.as_slice(), y.as_slice()),
        _ => false,
    }
}

/// Whether two paths are the same path: whether they have the same
/// components, so that `/a/b/` and `/a/./b` are both `/a/b`.
pub fn same_path(a: &str, b: &str) -> (r: bool)
    ensures
        r == (path_components(a@) == path_components(b@)),
{
    let ca = components(a);
    let cb = components(b);
    let ghost va = component_views(ca@);
    let ghost vb = component_views(cb@);
    if ca.len() != cb.len() {
        proof {
            assert(va.len() != vb.len());
        }
        return false;
    }
    let mut i: usize = 0;
    while i < ca.len()
        invariant
            ca@.len() == cb@.len(),
            i <= ca@.len(),
            va == component_views(ca@),
            vb == component_views(cb@),
            va == path_components(a@),
            vb == path_components(b@),
            forall|k: int| 0 <= k < i ==> va[k] == vb[k],
        decreases ca@.len() - i,
    {
        if !same_component(&ca[i], &cb[i]) {
            proof {
                assert(va[i as int] == ca@[i as int]@ && vb[i as int] == cb@[i as int]@);
                assert(va[i as int] != vb[i as int]);
            }
            return false;
        }
        proof {
            assert(va[i as int] == ca@[i as int]@ && vb[i as int] == cb@[i as int]@);
        }
        i = i + 1;
    }
    proof {
        assert(va =~= vb);
    }
    true
}

} // verus!
