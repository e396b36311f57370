//! Annotations that change what is displayed when a document is rendered,
//! commonly called virtual text: inline annotations, grapheme overlays, line
//! annotations, and raw terminal content such as inline images.

use vstd::prelude::*;

use std::ops::Range;
use std::sync::Arc;

verus! {

/// `Arc::clone`, which the standard library documents as making another
/// pointer to the same allocation: the value it points to is the same.
#[verifier::external_body]
pub(crate) fn share<T>(a: &Arc<T>) -> (res: Arc<T>)
    ensures
        res == *a,
{
    Arc::clone(a)
}

/// A position on the screen: a row and a column.
#[derive(Clone, Copy, Debug, PartialEq, Eq)]
pub struct Position {
    pub row: usize,
    pub col: usize,
}

impl Position {
    pub fn new(row: usize, col: usize) -> (p: Position)
        ensures
            p == (Position { row, col }),
    {
        Position { row, col }
    }
}

/// A highlight: an index into the theme's list of scopes.
#[derive(Clone, Copy, Debug, PartialEq, Eq)]
pub struct Highlight(pub usize);

/// Something anchored at a character index of the document.
pub trait Anchored {
    spec fn anchor(&self) -> usize;

    /// The character index the item is anchored at.
    fn char_idx(&self) -> (r: usize)
        ensures
            r == self.anchor(),
    ;
}

/// Continuous text shown on the screen before the grapheme that starts at
/// `char_idx`.
#[derive(Debug)]
pub struct InlineAnnotation {
    pub text: String,
    pub char_idx: usize,
}

impl InlineAnnotation {
    pub fn new(char_idx: usize, text: String) -> (a: InlineAnnotation)
        ensures
            a.char_idx == char_idx,
            a.text == text,
    {
        InlineAnnotation { char_idx, text }
    }
}

impl Clone for InlineAnnotation {
    fn clone(&self) -> (r: InlineAnnotation)
        ensures
            r == *self,
    {
        InlineAnnotation { text: self.text.clone(), char_idx: self.char_idx }
    }
}

impl Anchored for InlineAnnotation {
    open spec fn anchor(&self) -> usize {
        self.char_idx
    }

    fn char_idx(&self) -> (r: usize) {
        self.char_idx
    }
}

/// A single grapheme of the document, starting at `char_idx`, that is shown
/// as `grapheme` instead. `grapheme` should be one grapheme, and `char_idx`
/// should be at a grapheme boundary.
#[derive(Debug)]
pub struct Overlay {
    pub char_idx: usize,
    pub grapheme: String,
}

impl Overlay {
    pub fn new(char_idx: usize, grapheme: String) -> (o: Overlay)
        ensures
            o.char_idx == char_idx,
            o.grapheme == grapheme,
    {
        Overlay { char_idx, grapheme }
    }
}

impl Clone for Overlay {
    fn clone(&self) -> (r: Overlay)
        ensures
            r == *self,
    {
        Overlay { char_idx: self.char_idx, grapheme: self.grapheme.clone() }
    }
}

impl Anchored for Overlay {
    open spec fn anchor(&self) -> usize {
        self.char_idx
    }

    fn char_idx(&self) -> (r: usize) {
        self.char_idx
    }
}

/// Raw terminal content, such as an inline image, written to the terminal
/// with space reserved for it. The editor does not look inside the payload:
/// it writes the bytes and reserves `height` lines.
#[derive(Debug)]
pub struct RawContent {
    /// The identity of the content, which rendering compares instead of the
    /// payload. Two records with the same id are the same content.
    pub id: u64,
    /// The bytes to write, shared so that cloning is cheap.
    pub payload: Arc<Vec<u8>>,
    /// How many lines the content takes up.
    pub height: u16,
    /// The character index the content is inserted at.
    pub char_idx: usize,
    /// Width in terminal columns, for content drawn with placeholder text.
    pub width: Option<u16>,
    /// Rows of placeholder text drawn in normal cells each frame, where the
    /// payload is sent only once.
    pub placeholder_rows: Option<Arc<Vec<String>>>,
    /// Whether the content is animated, which asks for continuous redraws.
    pub is_animating: bool,
}

impl Clone for RawContent {
    fn clone(&self) -> (r: RawContent)
        ensures
            r == *self,
    {
        RawContent {
            id: self.id,
            payload: share(&self.payload),
            height: self.height,
            char_idx: self.char_idx,
            width: self.width,
            placeholder_rows: match &self.placeholder_rows {
                Some(rows) => Some(share(rows)),
                None => None,
            },
            is_animating: self.is_animating,
        }
    }
}

impl RawContent {
    /// Content of `height` lines at `char_idx`, not animated and without
    /// placeholder text.
    pub fn new(char_idx: usize, id: u64, payload: Vec<u8>, height: u16) -> (rc: RawContent)
        ensures
            rc.char_idx == char_idx,
            rc.id == id,
            *rc.payload == payload,
            rc.height == height,
            rc.width is None,
            rc.placeholder_rows is None,
            !rc.is_animating,
    {
        RawContent {
            char_idx,
            id,
            payload: Arc::new(payload),
            height,
            width: None,
            placeholder_rows: None,
            is_animating: false,
        }
    }

    /// Content drawn with placeholder text: the payload is sent once and the
    /// placeholder rows are drawn as normal text each frame.
    pub fn with_placeholders(
        char_idx: usize,
        id: u64,
        payload: Vec<u8>,
        height: u16,
        width: u16,
        placeholder_rows: Vec<String>,
    ) -> (rc: RawContent)
        ensures
            rc.char_idx == char_idx,
            rc.id == id,
            *rc.payload == payload,
            rc.height == height,
            rc.width == Some(width),
            rc.placeholder_rows matches Some(rows) && *rows == placeholder_rows,
            !rc.is_animating,
    {
        RawContent {
            char_idx,
            id,
            payload: Arc::new(payload),
            height,
            width: Some(width),
            placeholder_rows: Some(Arc::new(placeholder_rows)),
            is_animating: false,
        }
    }

    /// Whether the content is drawn with placeholder text.
    pub fn uses_placeholders(&self) -> (r: bool)
        ensures
            r == self.placeholder_rows is Some,
    {
        self.placeholder_rows.is_some()
    }

    /// The same content, marked animated or not.
    pub fn with_animating(self, animating: bool) -> (rc: RawContent)
        ensures
            rc == (RawContent { is_animating: animating, ..self }),
    {
        let mut rc = self;
        rc.is_animating = animating;
        rc
    }
}

/// Identity is the id alone: two records with the same id are the same
/// content, wherever edits have moved them.
impl PartialEq for RawContent {
    fn eq(&self, other: &Self) -> (r: bool) {
        self.id == other.id
    }
}

impl vstd::std_specs::cmp::PartialEqSpecImpl for RawContent {
    open spec fn obeys_eq_spec() -> bool {
        true
    }

    open spec fn eq_spec(&self, other: &RawContent) -> bool {
        self.id == other.id
    }
}

impl Eq for RawContent {

}

impl Anchored for RawContent {
    open spec fn anchor(&self) -> usize {
        self.char_idx
    }

    fn char_idx(&self) -> (r: usize) {
        self.char_idx
    }
}

/// Whether the items are in order of their character index.
pub open spec fn sorted_by_anchor<A: Anchored>(s: Seq<A>) -> bool {
    forall|i: int, j: int| 0 <= i <= j < s.len() ==> s[i].anchor() <= s[j].anchor()
}

/// How many items are anchored at or before `c`.
pub open spec fn count_at_or_before<A: Anchored>(s: Seq<A>, c: usize) -> nat
    decreases s.len(),
{
    if s.len() == 0 {
        0
    } else {
        count_at_or_before(s.drop_last(), c) + (if s.last().anchor() <= c {
            1nat
        } else {
            0nat
        })
    }
}

/// `s` with `x` inserted after every item anchored at or before it: where `s`
/// is sorted, the place that keeps it sorted and keeps items anchored at the
/// same index in the order they came.
pub open spec fn insert_sorted<A: Anchored>(s: Seq<A>, x: A) -> Seq<A> {
    s.insert(count_at_or_before(s, x.anchor()) as int, x)
}

/// `s` stably sorted by character index: in order of their index, and in
/// the order they came in where the index is the same.
pub open spec fn stable_sort<A: Anchored>(s: Seq<A>) -> Seq<A>
    decreases s.len(),
{
    if s.len() == 0 {
        s
    } else {
        insert_sorted(stable_sort(s.drop_last()), s.last())
    }
}

/// The items of `s` that `keep` accepts, in order.
pub open spec fn kept<A>(s: Seq<A>, keep: spec_fn(A) -> bool) -> Seq<A>
    decreases s.len(),
{
    if s.len() == 0 {
        s
    } else if keep(s.last()) {
        kept(s.drop_last(), keep).push(s.last())
    } else {
        kept(s.drop_last(), keep)
    }
}

/// At most all items are anchored at or before any index.
pub proof fn lemma_count_at_most_len<A: Anchored>(s: Seq<A>, c: usize)
    ensures
        count_at_or_before(s, c) <= s.len(),
    decreases s.len(),
{
    if s.len() > 0 {
        lemma_count_at_most_len(s.drop_last(), c);
    }
}

/// In a sorted sequence, the items anchored at or before `c` are exactly the
/// first `count_at_or_before(s, c)` ones.
pub proof fn lemma_count_is_boundary<A: Anchored>(s: Seq<A>, c: usize)
    requires
        sorted_by_anchor(s),
    ensures
        count_at_or_before(s, c) <= s.len(),
        forall|i: int| 0 <= i < count_at_or_before(s, c) ==> #[trigger] s[i].anchor() <= c,
        forall|i: int| count_at_or_before(s, c) <= i < s.len() ==> #[trigger] s[i].anchor() > c,
    decreases s.len(),
{
    if s.len() > 0 {
        let init = s.drop_last();
        assert(sorted_by_anchor(init)) by {
            assert forall|i: int, j: int| 0 <= i <= j < init.len() implies init[i].anchor()
                <= init[j].anchor() by {
                assert(init[i] == s[i] && init[j] == s[j]);
            }
        }
        lemma_count_is_boundary(init, c);
        let k = count_at_or_before(init, c);
        if s.last().anchor() <= c {
            assert forall|i: int| 0 <= i < k + 1 implies #[trigger] s[i].anchor() <= c by {
                if i < k {
                    assert(s[i] == init[i]);
                }
            }
            if k < init.len() {
                assert(init[k as int].anchor() > c);
                assert(s[k as int].anchor() <= s[s.len() - 1].anchor());
                assert(false);
            }
        } else {
            assert forall|i: int| 0 <= i < k implies #[trigger] s[i].anchor() <= c by {
                assert(s[i] == init[i]);
            }
            assert forall|i: int| k <= i < s.len() implies #[trigger] s[i].anchor() > c by {
                if i < s.len() - 1 {
                    assert(s[i] == init[i]);
                }
            }
        }
    }
}

/// Inserting an item at its sorted place keeps a sorted sequence sorted.
pub proof fn lemma_insert_sorted_sorted<A: Anchored>(s: Seq<A>, x: A)
    requires
        sorted_by_anchor(s),
    ensures
        sorted_by_anchor(insert_sorted(s, x)),
        insert_sorted(s, x).len() == s.len() + 1,
{
    lemma_count_is_boundary(s, x.anchor());
    let p = count_at_or_before(s, x.anchor()) as int;
    let r = insert_sorted(s, x);
    assert forall|i: int, j: int| 0 <= i <= j < r.len() implies r[i].anchor() <= r[j].anchor() by {
        if i < p && j < p {
            assert(r[i] == s[i] && r[j] == s[j]);
        } else if i < p && j == p {
            assert(r[i] == s[i]);
        } else if i < p {
            assert(r[i] == s[i] && r[j] == s[j - 1]);
        } else if i == p && j > p {
            assert(r[j] == s[j - 1]);
        } else if i > p {
            assert(r[i] == s[i - 1] && r[j] == s[j - 1]);
        }
    }
}

/// A stable sort gives a sorted sequence of the same length.
pub proof fn lemma_stable_sort_sorted<A: Anchored>(s: Seq<A>)
    ensures
        sorted_by_anchor(stable_sort(s)),
        stable_sort(s).len() == s.len(),
    decreases s.len(),
{
    if s.len() > 0 {
        lemma_stable_sort_sorted(s.drop_last());
        lemma_insert_sorted_sorted(stable_sort(s.drop_last()), s.last());
    }
}

/// A sorted sequence is its own stable sort.
pub proof fn lemma_stable_sort_of_sorted<A: Anchored>(s: Seq<A>)
    requires
        sorted_by_anchor(s),
    ensures
        stable_sort(s) == s,
    decreases s.len(),
{
    if s.len() > 0 {
        let init = s.drop_last();
        assert(sorted_by_anchor(init)) by {
            assert forall|i: int, j: int| 0 <= i <= j < init.len() implies init[i].anchor()
                <= init[j].anchor() by {
                assert(init[i] == s[i] && init[j] == s[j]);
            }
        }
        lemma_stable_sort_of_sorted(init);
        lemma_count_is_boundary(init, s.last().anchor());
        let k = count_at_or_before(init, s.last().anchor());
        if k < init.len() {
            assert(init[k as int].anchor() > s.last().anchor());
            assert(s[k as int].anchor() <= s[s.len() - 1].anchor());
        }
        assert(k == init.len());
        assert(init.insert(k as int, s.last()) =~= s);
    }
}

/// How many of `v` are anchored at or before `c`.
fn count_anchored_at_or_before<A: Anchored>(v: &[A], c: usize) -> (n: usize)
    ensures
        n == count_at_or_before(v@, c),
{
    let mut n: usize = 0;
    let mut i: usize = 0;
    while i < v.len()
        invariant
            i <= v@.len(),
            n == count_at_or_before(v@.take(i as int), c),
            n <= i,
        decreases v@.len() - i,
    {
        proof {
            assert(v@.take(i as int + 1).drop_last() =~= v@.take(i as int));
        }
        if v[i].char_idx() <= c {
            n = n + 1;
        }
        i = i + 1;
    }
    proof {
        assert(v@.take(v@.len() as int) =~= v@);
    }
    n
}

/// Inserts `x` into `v` after every item anchored at or before it.
fn insert_in_order<A: Anchored>(v: &mut Vec<A>, x: A)
    ensures
        final(v)@ == insert_sorted(old(v)@, x),
{
    let p = count_anchored_at_or_before(v.as_slice(), x.char_idx());
    proof {
        lemma_count_at_most_len(old(v)@, x.anchor());
    }
    v.insert(p, x);
}

/// Stably sorts `v` by character index.
pub(crate) fn sort_by_anchor<A: Anchored>(v: Vec<A>) -> (r: Vec<A>)
    ensures
        r@ == stable_sort(v@),
{
    let ghost items = v@;
    let mut v = v;
    let mut sorted: Vec<A> = Vec::new();
    let mut k: usize = 0;
    proof {
        assert(items.len() == v.len());
    }
    while v.len() > 0
        invariant
            items.len() <= usize::MAX,
            k <= items.len(),
            v@ == items.skip(k as int),
            sorted@ == stable_sort(items.take(k as int)),
        decreases v@.len(),
    {
        proof {
            assert(v@.len() == items.len() - k);
        }
        let x = v.remove(0);
        proof {
            assert(x == items[k as int]);
            assert(items.take(k as int + 1).drop_last() =~= items.take(k as int));
            assert(items.take(k as int + 1).last() == items[k as int]);
            assert(v@ =~= items.skip(k as int + 1));
        }
        insert_in_order(&mut sorted, x);
        k = k + 1;
    }
    proof {
        assert(items.take(k as int) =~= items);
    }
    sorted
}


/// Keeping some items of a sorted sequence leaves it sorted.
pub proof fn lemma_kept_sorted<A: Anchored>(s: Seq<A>, keep: spec_fn(A) -> bool)
    requires
        sorted_by_anchor(s),
    ensures
        sorted_by_anchor(kept(s, keep)),
        forall|i: int| 0 <= i < kept(s, keep).len() ==> s.contains(#[trigger] kept(s, keep)[i]),
    decreases s.len(),
{
    if s.len() > 0 {
        let init = s.drop_last();
        assert(sorted_by_anchor(init)) by {
            assert forall|i: int, j: int| 0 <= i <= j < init.len() implies init[i].anchor()
                <= init[j].anchor() by {
                assert(init[i] == s[i] && init[j] == s[j]);
            }
        }
        lemma_kept_sorted(init, keep);
        let k = kept(init, keep);
        assert forall|i: int| 0 <= i < k.len() implies s.contains(#[trigger] k[i]) by {
            let j = choose|j: int| 0 <= j < init.len() && init[j] == k[i];
            assert(s[j] == init[j]);
        }
        if keep(s.last()) {
            let r = k.push(s.last());
            assert(s[s.len() - 1] == s.last());
            assert forall|i: int, j: int| 0 <= i <= j < r.len() implies r[i].anchor()
                <= r[j].anchor() by {
                if j == r.len() - 1 && i < j {
                    let m = choose|m: int| 0 <= m < s.len() && s[m] == r[i];
                    assert(r[i] == k[i]);
                    assert(s[m].anchor() <= s[s.len() - 1].anchor());
                } else if j < r.len() - 1 {
                    assert(r[i] == k[i] && r[j] == k[j]);
                }
            }
            assert forall|i: int| 0 <= i < r.len() implies s.contains(#[trigger] r[i]) by {
                if i < k.len() {
                    assert(r[i] == k[i]);
                }
            }
        }
    }
}

/// The items of `v` anchored at or before `limit`, in order.
fn keep_at_or_before(v: Vec<RawContent>, limit: usize) -> (r: Vec<RawContent>)
    ensures
        r@ == kept(v@, |rc: RawContent| rc.char_idx <= limit),
{
    let ghost items = v@;
    let mut v = v;
    let mut out: Vec<RawContent> = Vec::new();
    let mut k: usize = 0;
    proof {
        assert(items.len() == v.len());
    }
    while v.len() > 0
        invariant
            items.len() <= usize::MAX,
            k <= items.len(),
            v@ == items.skip(k as int),
            out@ == kept(items.take(k as int), |rc: RawContent| rc.char_idx <= limit),
        decreases v@.len(),
    {
        proof {
            assert(v@.len() == items.len() - k);
        }
        let x = v.remove(0);
        proof {
            assert(x == items[k as int]);
            assert(items.take(k as int + 1).drop_last() =~= items.take(k as int));
            assert(items.take(k as int + 1).last() == items[k as int]);
            assert(v@ =~= items.skip(k as int + 1));
        }
        if x.char_idx <= limit {
            out.push(x);
        }
        k = k + 1;
    }
    proof {
        assert(items.take(k as int) =~= items);
    }
    out
}

/// Whether content has an id other than `id`.
pub open spec fn other_id(id: u64) -> spec_fn(RawContent) -> bool {
    |rc: RawContent| rc.id != id
}

/// The items of `v` whose id is not `id`, in order.
fn keep_other_ids(v: Vec<RawContent>, id: u64) -> (r: Vec<RawContent>)
    ensures
        r@ == kept(v@, other_id(id)),
{
    let ghost items = v@;
    let mut v = v;
    let mut out: Vec<RawContent> = Vec::new();
    let mut k: usize = 0;
    proof {
        assert(items.len() == v.len());
    }
    while v.len() > 0
        invariant
            items.len() <= usize::MAX,
            k <= items.len(),
            v@ == items.skip(k as int),
            out@ == kept(items.take(k as int), other_id(id)),
        decreases v@.len(),
    {
        proof {
            assert(v@.len() == items.len() - k);
        }
        let x = v.remove(0);
        proof {
            assert(x == items[k as int]);
            assert(items.take(k as int + 1).drop_last() =~= items.take(k as int));
            assert(items.take(k as int + 1).last() == items[k as int]);
            assert(v@ =~= items.skip(k as int + 1));
        }
        if x.id != id {
            out.push(x);
        }
        k = k + 1;
    }
    proof {
        assert(items.take(k as int) =~= items);
    }
    out
}

/// The items of `s` at the places where `keep` is set, in order.
pub open spec fn selected<A>(s: Seq<A>, keep: Seq<bool>) -> Seq<A>
    decreases s.len(),
{
    if s.len() == 0 || keep.len() == 0 {
        Seq::empty()
    } else if keep.last() {
        selected(s.drop_last(), keep.drop_last()).push(s.last())
    } else {
        selected(s.drop_last(), keep.drop_last())
    }
}

/// Keeping some items of a sorted sequence by a mask leaves it sorted.
pub proof fn lemma_selected_sorted<A: Anchored>(s: Seq<A>, keep: Seq<bool>)
    requires
        sorted_by_anchor(s),
        keep.len() == s.len(),
    ensures
        sorted_by_anchor(selected(s, keep)),
        forall|i: int| 0 <= i < selected(s, keep).len() ==> s.contains(
            #[trigger] selected(s, keep)[i],
        ),
    decreases s.len(),
{
    if s.len() > 0 {
        let init = s.drop_last();
        assert(sorted_by_anchor(init)) by {
            assert forall|i: int, j: int| 0 <= i <= j < init.len() implies init[i].anchor()
                <= init[j].anchor() by {
                assert(init[i] == s[i] && init[j] == s[j]);
            }
        }
        lemma_selected_sorted(init, keep.drop_last());
        let k = selected(init, keep.drop_last());
        assert forall|i: int| 0 <= i < k.len() implies s.contains(#[trigger] k[i]) by {
            let j = choose|j: int| 0 <= j < init.len() && init[j] == k[i];
            assert(s[j] == init[j]);
        }
        if keep.last() {
            let r = k.push(s.last());
            assert(s[s.len() - 1] == s.last());
            assert forall|i: int, j: int| 0 <= i <= j < r.len() implies r[i].anchor()
                <= r[j].anchor() by {
                if j == r.len() - 1 && i < j {
                    let m = choose|m: int| 0 <= m < s.len() && s[m] == r[i];
                    assert(r[i] == k[i]);
                    assert(s[m].anchor() <= s[s.len() - 1].anchor());
                } else if j < r.len() - 1 {
                    assert(r[i] == k[i] && r[j] == k[j]);
                }
            }
            assert forall|i: int| 0 <= i < r.len() implies s.contains(#[trigger] r[i]) by {
                if i < k.len() {
                    assert(r[i] == k[i]);
                }
            }
        }
    }
}

/// `after` is `before` after an edit of the buffer: the entries past
/// `old_len` dropped, every other entry moved to a position that `moves`
/// allows for its own, those that land past `new_len` dropped, and the rest
/// stably sorted.
pub open spec fn raw_content_remapped(
    before: Seq<RawContent>,
    after: Seq<RawContent>,
    old_len: usize,
    new_len: usize,
    moves: spec_fn(usize, usize) -> bool,
) -> bool {
    exists|moved: Seq<RawContent>|
        #![trigger moved.len()]
        {
            let kept_before = kept(before, |rc: RawContent| rc.char_idx <= old_len);
            &&& moved.len() == kept_before.len()
            &&& forall|i: int|
                0 <= i < moved.len() ==> #[trigger] moved[i] == (RawContent {
                    char_idx: moved[i].char_idx,
                    ..kept_before[i]
                }) && moves(kept_before[i].char_idx, moved[i].char_idx)
            &&& after == stable_sort(kept(moved, |rc: RawContent| rc.char_idx <= new_len))
        }
}

/// A remapping whose moves `narrow` allows is one that any `wide` allowing
/// at least as much allows.
pub proof fn lemma_raw_content_remapped_weaken(
    before: Seq<RawContent>,
    after: Seq<RawContent>,
    old_len: usize,
    new_len: usize,
    narrow: spec_fn(usize, usize) -> bool,
    wide: spec_fn(usize, usize) -> bool,
)
    requires
        raw_content_remapped(before, after, old_len, new_len, narrow),
        forall|p: usize, q: usize| #[trigger] narrow(p, q) ==> wide(p, q),
    ensures
        raw_content_remapped(before, after, old_len, new_len, wide),
{
    let moved = choose|moved: Seq<RawContent>|
        #![trigger moved.len()]
        {
            let kept_before = kept(before, |rc: RawContent| rc.char_idx <= old_len);
            &&& moved.len() == kept_before.len()
            &&& forall|i: int|
                0 <= i < moved.len() ==> #[trigger] moved[i] == (RawContent {
                    char_idx: moved[i].char_idx,
                    ..kept_before[i]
                }) && narrow(kept_before[i].char_idx, moved[i].char_idx)
            &&& after == stable_sort(kept(moved, |rc: RawContent| rc.char_idx <= new_len))
        };
    assert(moved.len() == kept(before, |rc: RawContent| rc.char_idx <= old_len).len());
}

/// Nothing to remap stays nothing.
pub proof fn lemma_raw_content_remapped_empty(
    old_len: usize,
    new_len: usize,
    moves: spec_fn(usize, usize) -> bool,
)
    ensures
        raw_content_remapped(Seq::empty(), Seq::empty(), old_len, new_len, moves),
{
    let moved = Seq::<RawContent>::empty();
    assert(kept(Seq::<RawContent>::empty(), |rc: RawContent| rc.char_idx <= old_len) =~= moved);
    assert(kept(moved, |rc: RawContent| rc.char_idx <= new_len) =~= moved);
    assert(moved.len() == 0);
}

/// Every item kept passes the test it was kept by.
pub proof fn lemma_kept_pass<A>(s: Seq<A>, keep: spec_fn(A) -> bool)
    ensures
        forall|i: int| 0 <= i < kept(s, keep).len() ==> keep(#[trigger] kept(s, keep)[i]),
    decreases s.len(),
{
    if s.len() > 0 {
        lemma_kept_pass(s.drop_last(), keep);
        let k = kept(s.drop_last(), keep);
        if keep(s.last()) {
            assert forall|i: int| 0 <= i < kept(s, keep).len() implies keep(#[trigger] kept(s, keep)[i]) by {
                if i < k.len() {
                    assert(kept(s, keep)[i] == k[i]);
                }
            }
        }
    }
}

/// Keeping again what was kept changes nothing.
pub proof fn lemma_kept_twice<A>(s: Seq<A>, keep: spec_fn(A) -> bool)
    ensures
        kept(kept(s, keep), keep) == kept(s, keep),
    decreases s.len(),
{
    if s.len() > 0 {
        lemma_kept_twice(s.drop_last(), keep);
        if keep(s.last()) {
            let k = kept(s.drop_last(), keep).push(s.last());
            assert(k.drop_last() =~= kept(s.drop_last(), keep));
        }
    }
}

/// Inserting an item that is not kept leaves what is kept unchanged.
pub proof fn lemma_kept_insert_rejected<A>(s: Seq<A>, k: int, x: A, keep: spec_fn(A) -> bool)
    requires
        0 <= k <= s.len(),
        !keep(x),
    ensures
        kept(s.insert(k, x), keep) == kept(s, keep),
    decreases s.len(),
{
    let t = s.insert(k, x);
    if k == s.len() {
        assert(t.drop_last() =~= s);
    } else {
        assert(t.drop_last() =~= s.drop_last().insert(k, x));
        assert(t.last() == s.last());
        lemma_kept_insert_rejected(s.drop_last(), k, x, keep);
    }
}

/// Replacing content by id is idempotent: replacing `rc` a second time
/// leaves what replacing it once left.
pub proof fn lemma_replace_by_id_idempotent(s: Seq<RawContent>, rc: RawContent)
    ensures
        insert_sorted(kept(insert_sorted(kept(s, other_id(rc.id)), rc), other_id(rc.id)), rc)
            == insert_sorted(kept(s, other_id(rc.id)), rc),
{
    let once = kept(s, other_id(rc.id));
    lemma_count_at_most_len(once, rc.anchor());
    lemma_kept_insert_rejected(once, count_at_or_before(once, rc.anchor()) as int, rc, other_id(rc.id));
    lemma_kept_twice(s, other_id(rc.id));
}

/// Pushing into sorted content is a stable insertion: with `k` the number
/// of items anchored at or before `x`, the new item stands at `k`, after
/// every item anchored at or before it (those of the same index among them)
/// and before every item anchored after it; taking it back out gives the
/// old items in their old order; and the result holds the old items and `x`
/// and nothing else.
pub proof fn lemma_insert_sorted_is_stable<A: Anchored>(s: Seq<A>, x: A)
    requires
        sorted_by_anchor(s),
    ensures
        ({
            let k = count_at_or_before(s, x.anchor()) as int;
            let r = insert_sorted(s, x);
            &&& 0 <= k <= s.len()
            &&& r.len() == s.len() + 1
            &&& r[k] == x
            &&& r.remove(k) == s
            &&& forall|i: int| 0 <= i < k ==> (#[trigger] s[i]).anchor() <= x.anchor()
            &&& forall|i: int| k <= i < s.len() ==> (#[trigger] s[i]).anchor() > x.anchor()
            &&& r.to_multiset() == s.to_multiset().insert(x)
        }),
{
    broadcast use vstd::seq_lib::group_to_multiset_ensures;

    let k = count_at_or_before(s, x.anchor()) as int;
    let r = insert_sorted(s, x);
    lemma_count_is_boundary(s, x.anchor());
    assert(r.remove(k) =~= s);
    assert(r.remove(k).to_multiset() =~= r.to_multiset().remove(r[k]));
    assert(r.to_multiset().count(x) > 0) by {
        assert(r.contains(x)) by {
            assert(r[k] == x);
        }
    }
    assert(r.to_multiset() =~= s.to_multiset().insert(x));
}

/// After content replaced by id, the new content is the only item with its
/// id, wherever the old one stood.
pub proof fn lemma_replace_by_id_single(s: Seq<RawContent>, rc: RawContent)
    ensures
        ({
            let r = insert_sorted(kept(s, other_id(rc.id)), rc);
            let k = count_at_or_before(kept(s, other_id(rc.id)), rc.anchor()) as int;
            &&& r[k] == rc
            &&& forall|i: int| 0 <= i < r.len() && (#[trigger] r[i]).id == rc.id ==> i == k
        }),
{
    let once = kept(s, other_id(rc.id));
    let k = count_at_or_before(once, rc.anchor()) as int;
    lemma_count_at_most_len(once, rc.anchor());
    lemma_kept_pass(s, other_id(rc.id));
    let r = insert_sorted(once, rc);
    assert forall|i: int| 0 <= i < r.len() && (#[trigger] r[i]).id == rc.id implies i == k by {
        if i < k {
            assert(r[i] == once[i]);
            assert(other_id(rc.id)(once[i]));
        } else if i > k {
            assert(r[i] == once[i - 1]);
            assert(other_id(rc.id)(once[i - 1]));
        }
    }
}

/// Raw content kept in order of character index.
///
/// Lookups during rendering search the sequence by position, which is only
/// right on sorted content, so every operation that changes it leaves it
/// sorted. Identity is by id (see [`RawContent`]); the order is by position
/// alone.
#[derive(Debug)]
pub struct SortedRawContent(Vec<RawContent>);

impl View for SortedRawContent {
    type V = Seq<RawContent>;

    closed spec fn view(&self) -> Seq<RawContent> {
        self.0@
    }
}

impl Clone for SortedRawContent {
    fn clone(&self) -> (r: SortedRawContent)
        ensures
            r@ == self@,
    {
        proof {
            use_type_invariant(self);
        }
        let items = self.0.clone();
        proof {
            assert forall|i: int| 0 <= i < items@.len() implies items@[i] == self.0@[i] by {
                assert(cloned::<RawContent>(self.0@[i], items@[i]));
            }
            assert(items@ =~= self.0@);
        }
        SortedRawContent(items)
    }
}

impl core::default::Default for SortedRawContent {
    fn default() -> (r: SortedRawContent)
        ensures
            r@ == Seq::<RawContent>::empty(),
    {
        SortedRawContent(Vec::new())
    }
}

impl SortedRawContent {
    #[verifier::type_invariant]
    spec fn sorted(self) -> bool {
        sorted_by_anchor(self.0@)
    }

    /// No content.
    pub fn new() -> (r: SortedRawContent)
        ensures
            r@ == Seq::<RawContent>::empty(),
    {
        SortedRawContent(Vec::new())
    }

    /// The content, in order of position.
    pub fn as_slice(&self) -> (r: &[RawContent])
        ensures
            r@ == self@,
            sorted_by_anchor(self@),
    {
        proof {
            use_type_invariant(self);
        }
        self.0.as_slice()
    }

    pub fn is_empty(&self) -> (r: bool)
        ensures
            r == (self@.len() == 0),
    {
        self.0.len() == 0
    }

    pub fn len(&self) -> (r: usize)
        ensures
            r == self@.len(),
    {
        self.0.len()
    }

    /// An iterator over the content, in order of position.
    pub fn iter(&self) -> (r: std::slice::Iter<'_, RawContent>)
        ensures
            vstd::std_specs::iter::IteratorSpec::remaining(&r).unref() == self@,
    {
        self.0.iter()
    }

    /// Adds `rc` after all content at or before its position.
    pub fn push(&mut self, rc: RawContent)
        ensures
            final(self)@ == insert_sorted(old(self)@, rc),
            sorted_by_anchor(final(self)@),
    {
        proof {
            use_type_invariant(&*self);
            lemma_insert_sorted_sorted(self.0@, rc);
        }
        let mut items: Vec<RawContent> = Vec::new();
        std::mem::swap(&mut items, &mut self.0);
        insert_in_order(&mut items, rc);
        self.0 = items;
    }

    /// Adds `rc` after dropping every entry with the same id, wherever it
    /// is: one record per id, replaced in place even where edits have moved
    /// it.
    pub fn replace_by_id(&mut self, rc: RawContent)
        ensures
            final(self)@ == insert_sorted(kept(old(self)@, other_id(rc.id)), rc),
            sorted_by_anchor(final(self)@),
    {
        proof {
            use_type_invariant(&*self);
            lemma_kept_sorted(self.0@, other_id(rc.id));
            lemma_insert_sorted_sorted(kept(self.0@, other_id(rc.id)), rc);
        }
        let mut items: Vec<RawContent> = Vec::new();
        std::mem::swap(&mut items, &mut self.0);
        let mut items = keep_other_ids(items, rc.id);
        insert_in_order(&mut items, rc);
        self.0 = items;
    }

    /// Replaces the content with `content`, stably sorted by position.
    pub fn set(&mut self, content: Vec<RawContent>)
        ensures
            final(self)@ == stable_sort(content@),
            sorted_by_anchor(final(self)@),
    {
        proof {
            lemma_stable_sort_sorted(content@);
        }
        let sorted = sort_by_anchor(content);
        self.0 = sorted;
    }

    /// Drops all content.
    pub fn clear(&mut self)
        ensures
            final(self)@ == Seq::<RawContent>::empty(),
    {
        self.0 = Vec::new();
    }

    /// Keeps the entries that `f` accepts, in order. Keeping cannot reorder
    /// what remains, so the content stays sorted.
    pub fn retain<F: Fn(&RawContent) -> bool>(&mut self, f: F)
        requires
            forall|rc: &RawContent| f.requires((rc,)),
        ensures
            exists|keep: Seq<bool>|
                {
                    &&& keep.len() == old(self)@.len()
                    &&& forall|i: int|
                        0 <= i < keep.len() ==> f.ensures((&old(self)@[i],), #[trigger] keep[i])
                    &&& final(self)@ == selected(old(self)@, keep)
                },
            sorted_by_anchor(final(self)@),
    {
        proof {
            use_type_invariant(&*self);
        }
        let ghost items = self.0@;
        let mut v: Vec<RawContent> = Vec::new();
        std::mem::swap(&mut v, &mut self.0);
        let mut out: Vec<RawContent> = Vec::new();
        let ghost mut keep: Seq<bool> = Seq::empty();
        let mut k: usize = 0;
        proof {
            assert(items.len() == v.len());
        }
        while v.len() > 0
            invariant
                forall|rc: &RawContent| f.requires((rc,)),
                items.len() <= usize::MAX,
                k <= items.len(),
                keep.len() == k,
                v@ == items.skip(k as int),
                forall|i: int| 0 <= i < k ==> f.ensures((&items[i],), #[trigger] keep[i]),
                out@ == selected(items.take(k as int), keep),
            decreases v@.len(),
        {
            proof {
                assert(v@.len() == items.len() - k);
            }
            let x = v.remove(0);
            let accept = f(&x);
            proof {
                assert(x == items[k as int]);
                assert(items.take(k as int + 1).drop_last() =~= items.take(k as int));
                assert(items.take(k as int + 1).last() == items[k as int]);
                assert(v@ =~= items.skip(k as int + 1));
                assert(keep.push(accept).drop_last() =~= keep);
            }
            if accept {
                out.push(x);
            }
            proof {
                keep = keep.push(accept);
            }
            k = k + 1;
        }
        proof {
            assert(items.take(k as int) =~= items);
            lemma_selected_sorted(items, keep);
        }
        self.0 = out;
        proof {
            assert(items == old(self)@);
            assert(self@ == selected(old(self)@, keep));
            assert(keep.len() == old(self)@.len());
            assert(forall|i: int|
                0 <= i < keep.len() ==> f.ensures((&old(self)@[i],), #[trigger] keep[i]));
        }
    }

    /// Follows an edit of the buffer: drops entries past `old_len`, moves
    /// every other entry to the position `map_pos` gives for it, drops
    /// entries that land past `new_len`, and sorts again.
    pub fn remap_positions<F: Fn(usize) -> usize>(&mut self, old_len: usize, new_len: usize, map_pos: F)
        requires
            forall|p: usize| map_pos.requires((p,)),
        ensures
            raw_content_remapped(
                old(self)@,
                final(self)@,
                old_len,
                new_len,
                |p: usize, q: usize| map_pos.ensures((p,), q),
            ),
            sorted_by_anchor(final(self)@),
    {
        let mut items: Vec<RawContent> = Vec::new();
        std::mem::swap(&mut items, &mut self.0);
        let before = keep_at_or_before(items, old_len);
        let ghost before_view = before@;
        let mut v = before;
        let mut moved: Vec<RawContent> = Vec::new();
        let mut k: usize = 0;
        proof {
            assert(before_view.len() == v.len());
        }
        while v.len() > 0
            invariant
                forall|p: usize| map_pos.requires((p,)),
                before_view.len() <= usize::MAX,
                k <= before_view.len(),
                v@ == before_view.skip(k as int),
                moved@.len() == k,
                forall|i: int|
                    0 <= i < k ==> #[trigger] moved@[i] == (RawContent {
                        char_idx: moved@[i].char_idx,
                        ..before_view[i]
                    }) && map_pos.ensures((before_view[i].char_idx,), moved@[i].char_idx),
            decreases v@.len(),
        {
            proof {
                assert(v@.len() == before_view.len() - k);
            }
            let mut x = v.remove(0);
            proof {
                assert(x == before_view[k as int]);
                assert(v@ =~= before_view.skip(k as int + 1));
            }
            x.char_idx = map_pos(x.char_idx);
            moved.push(x);
            k = k + 1;
        }
        let ghost moved_view = moved@;
        let after = keep_at_or_before(moved, new_len);
        proof {
            lemma_stable_sort_sorted(after@);
        }
        let sorted = sort_by_anchor(after);
        self.0 = sorted;
        proof {
            assert(moved_view.len() == before_view.len());
        }
    }
}


/// Line annotations insert virtual lines of text between the lines of the
/// document. Their height is usually not known ahead of time, so they are
/// asked at the end of every visual line how many virtual lines to reserve.
///
/// When a traversal of the document starts, `reset_pos` is called; it returns
/// the character index of the next anchor the annotation is interested in,
/// or `usize::MAX` for none.
pub trait LineAnnotation {
    /// Resets the internal position to `char_idx`, returning the next anchor.
    /// An annotation that keeps no anchors has none: its next anchor is
    /// `usize::MAX`.
    fn reset_pos(&mut self, char_idx: usize) -> (r: usize)
        default_ensures
            r == usize::MAX,
    {
        usize::MAX
    }

    /// Called where concealed text holds an anchor of this annotation:
    /// returns the next anchor after `conceal_end_char_idx`, as
    /// `reset_pos` finds it.
    fn skip_concealed_anchors(&mut self, conceal_end_char_idx: usize) -> usize {
        self.reset_pos(conceal_end_char_idx)
    }

    /// Whether this annotation reports through `reserved` what it reserves;
    /// one that does not promises nothing of its counts.
    open spec fn reports_reserved(&self) -> bool {
        false
    }

    /// The virtual lines, as rows and columns, that this annotation in its
    /// present state reserves after the visual line of the document line
    /// `doc_line` that ends at `line_end_char_idx` and at
    /// `line_end_visual_pos`.
    open spec fn reserved(&self, line_end_char_idx: usize, line_end_visual_pos: Position, doc_line: usize) -> Position {
        Position { row: 0, col: 0 }
    }

    /// Called at the end of every visual line: returns the number of virtual
    /// lines to reserve after it. `doc_line` is the index of the document
    /// line, which is never the largest `usize`.
    fn insert_virtual_lines(
        &mut self,
        line_end_char_idx: usize,
        line_end_visual_pos: Position,
        doc_line: usize,
    ) -> (r: Position)
        requires
            doc_line < usize::MAX,
        ensures
            old(self).reports_reserved() ==> r == old(self).reserved(line_end_char_idx, line_end_visual_pos, doc_line),
    ;
}

/// A layer of annotations as the model sees it: the annotations, the index
/// of the next one to look at, and the layer's metadata.
pub struct LayerModel<A, M> {
    pub annotations: Seq<A>,
    pub index: nat,
    pub metadata: M,
}

/// Where a lookup for the annotations at `c` starts: the first annotation not
/// anchored before `c`, where the annotations are sorted.
pub open spec fn is_reset_index<A: Anchored>(annotations: Seq<A>, c: usize, index: nat) -> bool {
    &&& index <= annotations.len()
    &&& sorted_by_anchor(annotations) ==> {
        &&& forall|i: int| 0 <= i < index ==> #[trigger] annotations[i].anchor() < c
        &&& forall|i: int| index <= i < annotations.len() ==> c <= #[trigger] annotations[i].anchor()
    }
}

impl<A: Anchored, M> LayerModel<A, M> {
    /// Whether the next annotation of the layer is anchored at `c`.
    pub open spec fn has_next_at(self, c: usize) -> bool {
        self.index < self.annotations.len() && self.annotations[self.index as int].anchor() == c
    }

    pub open spec fn with_index(self, index: nat) -> Self {
        LayerModel { index, ..self }
    }
}

/// A layer of annotations that a traversal of the document consumes in
/// order of position.
pub struct Layer<'a, A, M> {
    annotations: &'a [A],
    current_index: usize,
    metadata: M,
}

impl<'a, A, M> View for Layer<'a, A, M> {
    type V = LayerModel<A, M>;

    closed spec fn view(&self) -> LayerModel<A, M> {
        LayerModel {
            annotations: self.annotations@,
            index: self.current_index as nat,
            metadata: self.metadata,
        }
    }
}

impl<'a, A: Anchored, M> Layer<'a, A, M> {
    /// A layer over `annotations`, starting at the first one.
    fn new(annotations: &'a [A], metadata: M) -> (l: Self)
        ensures
            l@ == (LayerModel { annotations: annotations@, index: 0, metadata }),
    {
        Layer { annotations, current_index: 0, metadata }
    }

    /// The layer's metadata.
    fn metadata(&self) -> (m: &M)
        ensures
            *m == self@.metadata,
    {
        &self.metadata
    }

    /// Moves to the first annotation not anchored before `char_idx`.
    pub fn reset_pos(&mut self, char_idx: usize)
        ensures
            final(self)@ == old(self)@.with_index(final(self)@.index),
            is_reset_index(old(self)@.annotations, char_idx, final(self)@.index),
    {
        let mut lo: usize = 0;
        let mut hi: usize = self.annotations.len();
        while lo < hi
            invariant
                lo <= hi <= self.annotations@.len(),
                sorted_by_anchor(self.annotations@) ==> forall|i: int|
                    0 <= i < lo ==> #[trigger] self.annotations@[i].anchor() < char_idx,
                sorted_by_anchor(self.annotations@) ==> forall|i: int|
                    hi <= i < self.annotations@.len() ==> char_idx
                        <= #[trigger] self.annotations@[i].anchor(),
            decreases hi - lo,
        {
            let mid = lo + (hi - lo) / 2;
            if self.annotations[mid].char_idx() < char_idx {
                proof {
                    if sorted_by_anchor(self.annotations@) {
                        assert forall|i: int| 0 <= i < mid + 1 implies #[trigger] self.annotations@[
                            i
                        ].anchor() < char_idx by {
                            assert(self.annotations@[i].anchor() <= self.annotations@[mid as int].anchor());
                        }
                    }
                }
                lo = mid + 1;
            } else {
                proof {
                    if sorted_by_anchor(self.annotations@) {
                        assert forall|i: int| mid <= i < self.annotations@.len() implies char_idx
                            <= #[trigger] self.annotations@[i].anchor() by {
                            assert(self.annotations@[mid as int].anchor() <= self.annotations@[i].anchor());
                        }
                    }
                }
                hi = mid;
            }
        }
        self.current_index = lo;
    }

    /// Takes the next annotation if it is anchored at `char_idx`.
    pub fn consume(&mut self, char_idx: usize) -> (r: Option<&'a A>)
        ensures
            old(self)@.has_next_at(char_idx) ==> {
                &&& r == Some(&old(self)@.annotations[old(self)@.index as int])
                &&& final(self)@ == old(self)@.with_index(old(self)@.index + 1)
            },
            !old(self)@.has_next_at(char_idx) ==> r is None && final(self)@ == old(self)@,
    {
        if self.current_index >= self.annotations.len() {
            return None;
        }
        let annot = &self.annotations[self.current_index];
        if annot.char_idx() == char_idx {
            self.current_index = self.current_index + 1;
            Some(annot)
        } else {
            None
        }
    }
}

/// The models of a sequence of layers.
pub closed spec fn layer_models<'a, A, M>(layers: Seq<Layer<'a, A, M>>) -> Seq<LayerModel<A, M>> {
    layers.map_values(|l: Layer<'a, A, M>| l@)
}

/// Resets every layer of `layers` to `pos`.
fn reset_layers<'a, A: Anchored, M>(layers: &mut Vec<Layer<'a, A, M>>, pos: usize)
    ensures
        same_layers(layer_models(old(layers)@), layer_models(final(layers)@)),
        layers_reset_at(layer_models(final(layers)@), pos),
{
    let mut i: usize = 0;
    while i < layers.len()
        invariant
            i <= layers@.len(),
            layers@.len() == old(layers)@.len(),
            forall|k: int|
                0 <= k < i ==> {
                    &&& #[trigger] layers@[k]@ == old(layers)@[k]@.with_index(layers@[k]@.index)
                    &&& is_reset_index(old(layers)@[k]@.annotations, pos, layers@[k]@.index)
                },
            forall|k: int| i <= k < layers@.len() ==> #[trigger] layers@[k] == old(layers)@[k],
        decreases layers@.len() - i,
    {
        layers[i].reset_pos(pos);
        i = i + 1;
    }
    proof {
        assert(layer_models(layers@).len() == layers@.len());
        assert forall|k: int| 0 <= k < layers@.len() implies #[trigger] layer_models(layers@)[k]
            == layer_models(old(layers)@)[k].with_index(layer_models(layers@)[k].index) by {
            assert(layers@[k]@ == old(layers)@[k]@.with_index(layers@[k]@.index));
        }
        assert forall|k: int| 0 <= k < layers@.len() implies is_reset_index(
            #[trigger] layer_models(layers@)[k].annotations,
            pos,
            layer_models(layers@)[k].index,
        ) by {
            assert(is_reset_index(old(layers)@[k]@.annotations, pos, layers@[k]@.index));
        }
    }
}


/// The index of the last item of `s` anchored at `c`, or -1 where none is.
pub open spec fn last_anchored_at<A: Anchored>(s: Seq<A>, c: usize) -> int
    decreases s.len(),
{
    if s.len() == 0 {
        -1
    } else if s.last().anchor() == c {
        s.len() - 1
    } else {
        last_anchored_at(s.drop_last(), c)
    }
}

proof fn lemma_last_anchored_at<A: Anchored>(s: Seq<A>, c: usize)
    ensures
        -1 <= last_anchored_at(s, c) < s.len(),
        last_anchored_at(s, c) >= 0 ==> s[last_anchored_at(s, c)].anchor() == c,
        forall|j: int| last_anchored_at(s, c) < j < s.len() ==> #[trigger] s[j].anchor() != c,
    decreases s.len(),
{
    if s.len() > 0 && s.last().anchor() != c {
        lemma_last_anchored_at(s.drop_last(), c);
        assert forall|j: int| last_anchored_at(s, c) < j < s.len() implies #[trigger] s[j].anchor()
            != c by {
            if j < s.len() - 1 {
                assert(s.drop_last()[j] == s[j]);
            }
        }
    }
}

/// What a lookup of the annotations at `c` finds in a sorted layer that was
/// moved to `c`, where the lookup stops at `end`: `end` is past the run of
/// annotations anchored at `c`, the next layer position is the one for
/// `c + 1`, and the last annotation at `c` is the one before `end`.
proof fn lemma_run_at<A: Anchored>(s: Seq<A>, c: usize, start: int, end: int)
    requires
        sorted_by_anchor(s),
        is_reset_index(s, c, start as nat),
        0 <= start <= end <= s.len(),
        forall|i: int| start <= i < end ==> #[trigger] s[i].anchor() == c,
        end == s.len() || s[end].anchor() != c,
    ensures
        c < usize::MAX ==> is_reset_index(s, (c + 1) as usize, end as nat),
        last_anchored_at(s, c) == (if start < end { end - 1 } else { -1 }),
{
    lemma_last_anchored_at(s, c);
    assert forall|i: int| end <= i < s.len() implies c < #[trigger] s[i].anchor() by {
        assert(s[end].anchor() <= s[i].anchor());
    }
    let last = last_anchored_at(s, c);
    if start < end {
        assert(s[end - 1].anchor() == c);
        if last >= 0 {
            assert(s[last].anchor() == c);
        }
    } else {
        if last >= 0 {
            assert(s[last].anchor() == c);
        }
    }
}

/// The overlay shown at `c`: of the layers that hold an overlay anchored at
/// `c`, the one added last decides, and within it the last such overlay.
pub open spec fn shown_overlay(layers: Seq<LayerModel<Overlay, Option<Highlight>>>, c: usize) -> Option<
    (Overlay, Option<Highlight>),
>
    decreases layers.len(),
{
    if layers.len() == 0 {
        None
    } else {
        let layer = layers.last();
        let i = last_anchored_at(layer.annotations, c);
        if i >= 0 {
            Some((layer.annotations[i], layer.metadata))
        } else {
            shown_overlay(layers.drop_last(), c)
        }
    }
}

/// The highlights of the overlays shown at the positions `start..end`, one
/// single-character range for each position whose overlay has a highlight.
pub open spec fn overlay_highlight_spans(
    layers: Seq<LayerModel<Overlay, Option<Highlight>>>,
    start: int,
    end: int,
) -> Seq<(Highlight, Range<usize>)>
    decreases end - start,
{
    if end <= start {
        Seq::empty()
    } else {
        let before = overlay_highlight_spans(layers, start, end - 1);
        match shown_overlay(layers, (end - 1) as usize) {
            Some((_, Some(h))) => before.push((h, Range { start: (end - 1) as usize, end: end as usize })),
            _ => before,
        }
    }
}

/// Every layer is sorted by anchor.
pub open spec fn layers_sorted<A: Anchored, M>(layers: Seq<LayerModel<A, M>>) -> bool {
    forall|i: int| 0 <= i < layers.len() ==> sorted_by_anchor(#[trigger] layers[i].annotations)
}

/// Every layer stands where a lookup at `c` starts.
pub open spec fn layers_reset_at<A: Anchored, M>(layers: Seq<LayerModel<A, M>>, c: usize) -> bool {
    forall|i: int| 0 <= i < layers.len() ==> is_reset_index(#[trigger] layers[i].annotations, c, layers[i].index)
}

/// `after` holds the layers of `before`, each possibly at another position.
pub open spec fn same_layers<A: Anchored, M>(before: Seq<LayerModel<A, M>>, after: Seq<LayerModel<A, M>>) -> bool {
    &&& after.len() == before.len()
    &&& forall|i: int| 0 <= i < after.len() ==> #[trigger] after[i] == before[i].with_index(after[i].index)
}

/// The highlights of overlays, as the rendering code takes them.
pub enum OverlayHighlights {
    /// One highlight over all the ranges.
    Homogeneous { highlight: Highlight, ranges: Vec<Range<usize>> },
    /// A highlight for each range.
    Heterogenous { highlights: Vec<(Highlight, Range<usize>)> },
}

/// The annotations as the model sees them: the layers of each kind, and the
/// next anchor of each line annotation.
pub struct TextAnnotationsModel {
    pub inline_annotations: Seq<LayerModel<InlineAnnotation, Option<Highlight>>>,
    pub overlays: Seq<LayerModel<Overlay, Option<Highlight>>>,
    pub line_anchors: Seq<usize>,
    pub raw_content: Seq<LayerModel<RawContent, ()>>,
}

impl TextAnnotationsModel {
    /// Every layer is sorted by anchor, as the layers must be when added.
    pub open spec fn wf(self) -> bool {
        &&& layers_sorted(self.inline_annotations)
        &&& layers_sorted(self.overlays)
        &&& layers_sorted(self.raw_content)
    }

    /// `other` holds the same layers and as many line annotations, each
    /// layer possibly at another position.
    pub open spec fn same_content(self, other: Self) -> bool {
        &&& same_layers(self.inline_annotations, other.inline_annotations)
        &&& same_layers(self.overlays, other.overlays)
        &&& same_layers(self.raw_content, other.raw_content)
        &&& other.line_anchors.len() == self.line_anchors.len()
    }
}

/// Annotations that change what is displayed when the document is rendered,
/// also called virtual text.
///
/// Line annotations are held as `L`, which is a trait object by default.
pub struct TextAnnotations<'a, L: LineAnnotation + ?Sized + 'a = dyn LineAnnotation + 'a> {
    inline_annotations: Vec<Layer<'a, InlineAnnotation, Option<Highlight>>>,
    overlays: Vec<Layer<'a, Overlay, Option<Highlight>>>,
    line_annotations: Vec<(usize, Box<L>)>,
    raw_content: Vec<Layer<'a, RawContent, ()>>,
}

impl<'a, L: LineAnnotation + ?Sized + 'a> View for TextAnnotations<'a, L> {
    type V = TextAnnotationsModel;

    closed spec fn view(&self) -> TextAnnotationsModel {
        TextAnnotationsModel {
            inline_annotations: layer_models(self.inline_annotations@),
            overlays: layer_models(self.overlays@),
            line_anchors: self.line_annotations@.map_values(
                |p: (usize, Box<L>)| p.0,
            ),
            raw_content: layer_models(self.raw_content@),
        }
    }
}

impl<'a, L: LineAnnotation + ?Sized + 'a> core::default::Default for TextAnnotations<'a, L> {
    fn default() -> (r: Self)
        ensures
            r@.inline_annotations.len() == 0,
            r@.overlays.len() == 0,
            r@.line_anchors.len() == 0,
            r@.raw_content.len() == 0,
    {
        TextAnnotations {
            inline_annotations: Vec::new(),
            overlays: Vec::new(),
            line_annotations: Vec::new(),
            raw_content: Vec::new(),
        }
    }
}


impl<'a, L: LineAnnotation + ?Sized + 'a> TextAnnotations<'a, L> {
    /// Adds a layer of inline annotations, shown with `highlight` patched on
    /// top of the text. The annotations must be sorted by `char_idx`; several
    /// may share one. Where layers hold annotations at the same position, the
    /// layer added first is shown first. An empty layer is not added.
    pub fn add_inline_annotations(
        &mut self,
        layer: &'a [InlineAnnotation],
        highlight: Option<Highlight>,
    ) -> (r: &mut Self)
        requires
            sorted_by_anchor(layer@),
        ensures
            r.line_layers() == old(self).line_layers(),
            r@ == (if layer@.len() == 0 {
                old(self)@
            } else {
                TextAnnotationsModel {
                    inline_annotations: old(self)@.inline_annotations.push(
                        LayerModel { annotations: layer@, index: 0, metadata: highlight },
                    ),
                    ..old(self)@
                }
            }),
            *final(self) == *final(r),
    {
        if layer.len() > 0 {
            let ghost before = self.inline_annotations@;
            self.inline_annotations.push(Layer::new(layer, highlight));
            proof {
                assert(layer_models(self.inline_annotations@) =~= layer_models(before).push(
                    LayerModel { annotations: layer@, index: 0, metadata: highlight },
                ));
            }
        }
        self
    }

    /// Adds a layer of grapheme overlays, shown with `highlight` patched on
    /// top of the text. The overlays must be sorted by `char_idx`; several may
    /// share one. Where layers hold overlays at the same position, the layer
    /// added last is shown. An empty layer is not added.
    pub fn add_overlay(&mut self, layer: &'a [Overlay], highlight: Option<Highlight>) -> (r: &mut Self)
        requires
            sorted_by_anchor(layer@),
        ensures
            r.line_layers() == old(self).line_layers(),
            r@ == (if layer@.len() == 0 {
                old(self)@
            } else {
                TextAnnotationsModel {
                    overlays: old(self)@.overlays.push(
                        LayerModel { annotations: layer@, index: 0, metadata: highlight },
                    ),
                    ..old(self)@
                }
            }),
            *final(self) == *final(r),
    {
        if layer.len() > 0 {
            let ghost before = self.overlays@;
            self.overlays.push(Layer::new(layer, highlight));
            proof {
                assert(layer_models(self.overlays@) =~= layer_models(before).push(
                    LayerModel { annotations: layer@, index: 0, metadata: highlight },
                ));
            }
        }
        self
    }

    /// Adds a line annotation, which has no anchor until the next traversal.
    pub fn add_line_annotation(&mut self, layer: Box<L>) -> (r: &mut Self)
        ensures
            r.line_layers() == old(self).line_layers().push(layer),
            r@ == (TextAnnotationsModel {
                line_anchors: old(self)@.line_anchors.push(usize::MAX),
                ..old(self)@
            }),
            *final(self) == *final(r),
    {
        let ghost before = self.line_annotations@;
        self.line_annotations.push((usize::MAX, layer));
        proof {
            assert(self.line_annotations@.map_values(|p: (usize, Box<L>)| p.0)
                =~= before.map_values(|p: (usize, Box<L>)| p.0).push(
                usize::MAX,
            ));
        }
        self
    }

    /// Removes every line annotation, as vertical motions do so that virtual
    /// lines are skipped.
    pub fn clear_line_annotations(&mut self)
        ensures
            final(self).line_layers() == Seq::<Box<L>>::empty(),
            final(self)@ == (TextAnnotationsModel { line_anchors: Seq::empty(), ..old(self)@ }),
    {
        self.line_annotations.clear();
        proof {
            assert(self.line_annotations@.map_values(|p: (usize, Box<L>)| p.0)
                =~= Seq::<usize>::empty());
        }
    }

    /// Adds a layer of raw terminal content, such as inline images. The
    /// content must be sorted by `char_idx`; several items may share one. An
    /// empty layer is not added.
    pub fn add_raw_content(&mut self, layer: &'a [RawContent]) -> (r: &mut Self)
        requires
            sorted_by_anchor(layer@),
        ensures
            r.line_layers() == old(self).line_layers(),
            r@ == (if layer@.len() == 0 {
                old(self)@
            } else {
                TextAnnotationsModel {
                    raw_content: old(self)@.raw_content.push(
                        LayerModel { annotations: layer@, index: 0, metadata: () },
                    ),
                    ..old(self)@
                }
            }),
            *final(self) == *final(r),
    {
        if layer.len() > 0 {
            let ghost before = self.raw_content@;
            self.raw_content.push(Layer::new(layer, ()));
            proof {
                assert(layer_models(self.raw_content@) =~= layer_models(before).push(
                    LayerModel { annotations: layer@, index: 0, metadata: () },
                ));
            }
        }
        self
    }
}


/// The first layer at or after `from` whose next annotation is anchored at
/// `c`, if any.
pub open spec fn first_layer_from<A: Anchored, M>(layers: Seq<LayerModel<A, M>>, c: usize, from: int) -> Option<int>
    decreases layers.len() - from,
{
    if from < 0 || from >= layers.len() {
        None
    } else if layers[from].has_next_at(c) {
        Some(from)
    } else {
        first_layer_from(layers, c, from + 1)
    }
}

/// The overlay layer added last wins: where it holds an overlay at `c`,
/// the overlay shown at `c` is its last one there, with its highlight,
/// whatever the earlier layers hold; where it holds none, the earlier
/// layers decide as before.
pub proof fn lemma_last_overlay_layer_wins(
    layers: Seq<LayerModel<Overlay, Option<Highlight>>>,
    layer: LayerModel<Overlay, Option<Highlight>>,
    c: usize,
)
    ensures
        ({
            let i = last_anchored_at(layer.annotations, c);
            &&& i >= 0 ==> shown_overlay(layers.push(layer), c) == Some((layer.annotations[i], layer.metadata))
            &&& i < 0 ==> shown_overlay(layers.push(layer), c) == shown_overlay(layers, c)
        }),
{
    assert(layers.push(layer).drop_last() =~= layers);
}

/// Layers that differ in their positions only show the same overlay.
pub proof fn lemma_shown_overlay_same(
    a: Seq<LayerModel<Overlay, Option<Highlight>>>,
    b: Seq<LayerModel<Overlay, Option<Highlight>>>,
    c: usize,
)
    requires
        same_layers(a, b),
    ensures
        shown_overlay(a, c) == shown_overlay(b, c),
    decreases a.len(),
{
    if a.len() > 0 {
        assert(b.last() == a.last().with_index(b.last().index));
        assert(same_layers(a.drop_last(), b.drop_last())) by {
            assert forall|i: int| 0 <= i < b.drop_last().len() implies #[trigger] b.drop_last()[i]
                == a.drop_last()[i].with_index(b.drop_last()[i].index) by {
                assert(b[i] == a[i].with_index(b[i].index));
            }
        }
        lemma_shown_overlay_same(a.drop_last(), b.drop_last(), c);
    }
}

/// Takes the next annotation anchored at `c` from the first layer that has
/// one, with that layer's metadata.
fn take_first_at<'a, A: Anchored, M: Copy>(layers: &mut Vec<Layer<'a, A, M>>, c: usize) -> (r: Option<(&'a A, M)>)
    ensures
        match first_layer_from(layer_models(old(layers)@), c, 0) {
            Some(i) => {
                let l = layer_models(old(layers)@)[i];
                &&& r == Some((&l.annotations[l.index as int], l.metadata))
                &&& layer_models(final(layers)@) == layer_models(old(layers)@).update(i, l.with_index(l.index + 1))
            },
            None => r is None && layer_models(final(layers)@) == layer_models(old(layers)@),
        },
{
    let ghost models = layer_models(layers@);
    let mut i: usize = 0;
    while i < layers.len()
        invariant
            i <= layers@.len(),
            layer_models(layers@) == models,
            models == layer_models(old(layers)@),
            first_layer_from(models, c, 0) == first_layer_from(models, c, i as int),
        decreases layers@.len() - i,
    {
        proof {
            assert(models[i as int] == layers@[i as int]@);
        }
        let ghost before = layers@;
        match layers[i].consume(c) {
            Some(a) => {
                let m = *layers[i].metadata();
                proof {
                    assert(layers@ == before.update(i as int, layers@[i as int]));
                    assert(layer_models(layers@) =~= models.update(
                        i as int,
                        models[i as int].with_index(models[i as int].index + 1),
                    ));
                }
                return Some((a, m));
            },
            None => {
                proof {
                    assert(layer_models(layers@) =~= layer_models(before));
                }
            },
        }
        i = i + 1;
    }
    None
}

/// Takes every overlay anchored at `c` from each layer, and returns the last
/// one taken with its layer's highlight.
fn take_overlays_at<'a>(layers: &mut Vec<Layer<'a, Overlay, Option<Highlight>>>, c: usize) -> (r: Option<
    (&'a Overlay, Option<Highlight>),
>)
    requires
        layers_sorted(layer_models(old(layers)@)),
        layers_reset_at(layer_models(old(layers)@), c),
    ensures
        match shown_overlay(layer_models(old(layers)@), c) {
            Some((o, h)) => r == Some((&o, h)),
            None => r is None,
        },
        same_layers(layer_models(old(layers)@), layer_models(final(layers)@)),
        c < usize::MAX ==> layers_reset_at(layer_models(final(layers)@), (c + 1) as usize),
{
    let ghost orig = layer_models(layers@);
    let mut overlay: Option<(&'a Overlay, Option<Highlight>)> = None;
    let mut i: usize = 0;
    while i < layers.len()
        invariant
            i <= layers@.len(),
            orig == layer_models(old(layers)@),
            layers_sorted(orig),
            layers_reset_at(orig, c),
            layers@.len() == orig.len(),
            forall|k: int| i <= k < layers@.len() ==> #[trigger] layers@[k]@ == orig[k],
            forall|k: int|
                0 <= k < i ==> #[trigger] layers@[k]@ == orig[k].with_index(layers@[k]@.index),
            c < usize::MAX ==> forall|k: int|
                0 <= k < i ==> is_reset_index(orig[k].annotations, (c + 1) as usize, #[trigger] layers@[k]@.index),
            match shown_overlay(orig.take(i as int), c) {
                Some((o, h)) => overlay == Some((&o, h)),
                None => overlay is None,
            },
        decreases layers@.len() - i,
    {
        let ghost start = layers@[i as int]@.index;
        proof {
            assert(orig[i as int] == layers@[i as int]@);
            assert(sorted_by_anchor(orig[i as int].annotations));
            assert(is_reset_index(orig[i as int].annotations, c, orig[i as int].index));
        }
        let mut found = false;
        let ghost outer = layers@;
        loop
            invariant
                i < layers@.len(),
                layers@.len() == orig.len(),
                outer.len() == orig.len(),
                forall|k: int| 0 <= k < layers@.len() && k != i ==> #[trigger] layers@[k]@ == outer[k]@,
                layers@[i as int]@ == orig[i as int].with_index(layers@[i as int]@.index),
                start == orig[i as int].index,
                start <= layers@[i as int]@.index <= orig[i as int].annotations.len(),
                forall|j: int|
                    start <= j < layers@[i as int]@.index ==> #[trigger] orig[i as int].annotations[j].anchor() == c,
                found == (start < layers@[i as int]@.index),
                found ==> overlay == Some((
                    &orig[i as int].annotations[layers@[i as int]@.index - 1],
                    orig[i as int].metadata,
                )),
                !found ==> match shown_overlay(orig.take(i as int), c) {
                    Some((o, h)) => overlay == Some((&o, h)),
                    None => overlay is None,
                },
            ensures
                layers@.len() == orig.len(),
                forall|k: int| 0 <= k < layers@.len() && k != i ==> #[trigger] layers@[k]@ == outer[k]@,
                layers@[i as int]@ == orig[i as int].with_index(layers@[i as int]@.index),
                start <= layers@[i as int]@.index <= orig[i as int].annotations.len(),
                forall|j: int|
                    start <= j < layers@[i as int]@.index ==> #[trigger] orig[i as int].annotations[j].anchor() == c,
                layers@[i as int]@.index == orig[i as int].annotations.len()
                    || orig[i as int].annotations[layers@[i as int]@.index as int].anchor() != c,
                found == (start < layers@[i as int]@.index),
                found ==> overlay == Some((
                    &orig[i as int].annotations[layers@[i as int]@.index - 1],
                    orig[i as int].metadata,
                )),
                !found ==> match shown_overlay(orig.take(i as int), c) {
                    Some((o, h)) => overlay == Some((&o, h)),
                    None => overlay is None,
                },
            decreases orig[i as int].annotations.len() - layers@[i as int]@.index,
        {
            match layers[i].consume(c) {
                Some(o) => {
                    let m = *layers[i].metadata();
                    overlay = Some((o, m));
                    found = true;
                },
                None => {
                    break;
                },
            }
        }
        proof {
            let l = orig[i as int];
            let e = layers@[i as int]@.index as int;
            lemma_run_at(l.annotations, c, start as int, e);
            assert(orig.take(i as int + 1).drop_last() =~= orig.take(i as int));
            assert(orig.take(i as int + 1).last() == l);
        }
        i = i + 1;
    }
    proof {
        assert(orig.take(i as int) =~= orig);
    }
    overlay
}


impl<'a, L: LineAnnotation + ?Sized + 'a> TextAnnotations<'a, L> {
    /// Prepares the annotations for a traversal that starts at `char_idx`:
    /// each layer moves to its first annotation not anchored before it, and
    /// each line annotation is reset and gives its next anchor.
    pub fn reset_pos(&mut self, char_idx: usize)
        ensures
            final(self).line_layers().len() == old(self).line_layers().len(),
            old(self)@.same_content(final(self)@),
            layers_reset_at(final(self)@.inline_annotations, char_idx),
            layers_reset_at(final(self)@.overlays, char_idx),
            layers_reset_at(final(self)@.raw_content, char_idx),
    {
        reset_layers(&mut self.inline_annotations, char_idx);
        reset_layers(&mut self.overlays, char_idx);
        reset_layers(&mut self.raw_content, char_idx);
        let ghost n = self.line_annotations@.len();
        let ghost mid = self@;
        let mut i: usize = 0;
        while i < self.line_annotations.len()
            invariant
                self.line_annotations@.len() == n,
                self@.inline_annotations == mid.inline_annotations,
                self@.overlays == mid.overlays,
                self@.raw_content == mid.raw_content,
            decreases n - i,
        {
            let anchor = self.line_annotations[i].1.reset_pos(char_idx);
            self.line_annotations[i].0 = anchor;
            i = i + 1;
        }
        proof {
            assert(self@.line_anchors.len() == n);
        }
    }

    /// Takes the next inline annotation anchored at `char_idx`, from the
    /// first layer that has one, with that layer's highlight.
    pub fn next_inline_annotation_at(&mut self, char_idx: usize) -> (r: Option<(&'a InlineAnnotation, Option<Highlight>)>)
        ensures
            final(self).line_layers() == old(self).line_layers(),
            match first_layer_from(old(self)@.inline_annotations, char_idx, 0) {
                Some(i) => {
                    let l = old(self)@.inline_annotations[i];
                    &&& r == Some((&l.annotations[l.index as int], l.metadata))
                    &&& final(self)@ == (TextAnnotationsModel {
                        inline_annotations: old(self)@.inline_annotations.update(i, l.with_index(l.index + 1)),
                        ..old(self)@
                    })
                },
                None => r is None && final(self)@ == old(self)@,
            },
    {
        take_first_at(&mut self.inline_annotations, char_idx)
    }

    /// The overlay shown at `char_idx`, with its highlight: every overlay
    /// anchored there is taken from each layer, and the last one of the last
    /// layer that has any is shown.
    pub fn overlay_at(&mut self, char_idx: usize) -> (r: Option<(&'a Overlay, Option<Highlight>)>)
        requires
            old(self)@.wf(),
            layers_reset_at(old(self)@.overlays, char_idx),
        ensures
            final(self).line_layers() == old(self).line_layers(),
            match shown_overlay(old(self)@.overlays, char_idx) {
                Some((o, h)) => r == Some((&o, h)),
                None => r is None,
            },
            final(self)@ == (TextAnnotationsModel { overlays: final(self)@.overlays, ..old(self)@ }),
            same_layers(old(self)@.overlays, final(self)@.overlays),
            char_idx < usize::MAX ==> layers_reset_at(final(self)@.overlays, (char_idx + 1) as usize),
    {
        take_overlays_at(&mut self.overlays, char_idx)
    }

    /// Takes the next raw content anchored at `char_idx`, from the first
    /// layer that has one.
    pub fn raw_content_at(&mut self, char_idx: usize) -> (r: Option<&'a RawContent>)
        ensures
            final(self).line_layers() == old(self).line_layers(),
            match first_layer_from(old(self)@.raw_content, char_idx, 0) {
                Some(i) => {
                    let l = old(self)@.raw_content[i];
                    &&& r == Some(&l.annotations[l.index as int])
                    &&& final(self)@ == (TextAnnotationsModel {
                        raw_content: old(self)@.raw_content.update(i, l.with_index(l.index + 1)),
                        ..old(self)@
                    })
                },
                None => r is None && final(self)@ == old(self)@,
            },
    {
        match take_first_at(&mut self.raw_content, char_idx) {
            Some((rc, _)) => Some(rc),
            None => None,
        }
    }

    /// The highlights of the overlays shown over `char_range`: for each
    /// position whose shown overlay has a highlight, that highlight over the
    /// one character at the position.
    pub fn collect_overlay_highlights(&mut self, char_range: Range<usize>) -> (r: OverlayHighlights)
        requires
            old(self)@.wf(),
        ensures
            final(self).line_layers().len() == old(self).line_layers().len(),
            match r {
                OverlayHighlights::Heterogenous { highlights } => highlights@ == overlay_highlight_spans(
                    old(self)@.overlays,
                    char_range.start as int,
                    char_range.end as int,
                ),
                _ => false,
            },
            old(self)@.same_content(final(self)@),
    {
        let start = char_range.start;
        let end = char_range.end;
        let ghost orig = self@;
        let mut highlights: Vec<(Highlight, Range<usize>)> = Vec::new();
        self.reset_pos(start);
        let mut c = start;
        while c < end
            invariant
                self.line_layers().len() == old(self).line_layers().len(),
                start <= c,
                start <= end ==> c <= end,
                end < start ==> c == start,
                orig.wf(),
                orig.same_content(self@),
                layers_reset_at(self@.overlays, c),
                highlights@ == overlay_highlight_spans(orig.overlays, start as int, c as int),
            decreases end - c,
        {
            proof {
                assert(self@.wf()) by {
                    assert forall|i: int| 0 <= i < self@.overlays.len() implies sorted_by_anchor(
                        #[trigger] self@.overlays[i].annotations,
                    ) by {
                        assert(self@.overlays[i] == orig.overlays[i].with_index(self@.overlays[i].index));
                    }
                    assert forall|i: int| 0 <= i < self@.inline_annotations.len() implies sorted_by_anchor(
                        #[trigger] self@.inline_annotations[i].annotations,
                    ) by {
                        assert(self@.inline_annotations[i] == orig.inline_annotations[i].with_index(
                            self@.inline_annotations[i].index,
                        ));
                    }
                    assert forall|i: int| 0 <= i < self@.raw_content.len() implies sorted_by_anchor(
                        #[trigger] self@.raw_content[i].annotations,
                    ) by {
                        assert(self@.raw_content[i] == orig.raw_content[i].with_index(
                            self@.raw_content[i].index,
                        ));
                    }
                }
                lemma_shown_overlay_same(orig.overlays, self@.overlays, c);
            }
            let ghost here = self@;
            match self.overlay_at(c) {
                Some((_, Some(highlight))) => {
                    highlights.push((highlight, c..c + 1));
                },
                _ => {},
            }
            proof {
                assert forall|i: int| 0 <= i < self@.overlays.len() implies #[trigger] self@.overlays[i]
                    == orig.overlays[i].with_index(self@.overlays[i].index) by {
                    assert(self@.overlays[i] == here.overlays[i].with_index(self@.overlays[i].index));
                    assert(here.overlays[i] == orig.overlays[i].with_index(here.overlays[i].index));
                }
            }
            c = c + 1;
        }
        OverlayHighlights::Heterogenous { highlights }
    }

    /// The line annotations, in the order they were added.
    pub closed spec fn line_layers(&self) -> Seq<Box<L>> {
        self.line_annotations@.map_values(|p: (usize, Box<L>)| p.1)
    }

    /// Asks each line annotation, in the order they were added, how many
    /// virtual lines to reserve after the visual line that ends at
    /// `char_idx`, and returns the rows they reserve together. Each is told
    /// the visual position below the rows reserved before it; the counts
    /// saturate at `usize::MAX`.
    pub fn virtual_lines_at(&mut self, char_idx: usize, line_end_visual_pos: Position, doc_line: usize) -> (r: usize)
        requires
            doc_line < usize::MAX,
        ensures
            final(self).line_layers().len() == old(self).line_layers().len(),
            final(self)@ == old(self)@,
            (forall|i: int| 0 <= i < old(self).line_layers().len() ==> #[trigger] old(self).line_layers()[i].reports_reserved())
                ==> r == rows_reserved(
                old(self).line_layers(),
                0,
                char_idx,
                line_end_visual_pos,
                Position { row: 0, col: 0 },
                doc_line,
            ),
    {
        let ghost layers = self.line_layers();
        let ghost reports = forall|k: int| 0 <= k < layers.len() ==> #[trigger] layers[k].reports_reserved();
        let mut virt_off = Position::new(0, 0);
        let mut i: usize = 0;
        while i < self.line_annotations.len()
            invariant
                self@ == old(self)@,
                doc_line < usize::MAX,
                i <= self.line_annotations@.len(),
                layers == old(self).line_layers(),
                reports ==> forall|k: int| 0 <= k < layers.len() ==> #[trigger] layers[k].reports_reserved(),
                layers.len() == self.line_annotations@.len(),
                forall|k: int| i <= k < layers.len() ==> #[trigger] self.line_annotations@[k].1 == layers[k],
                reports ==> rows_reserved(layers, 0, char_idx, line_end_visual_pos, Position { row: 0, col: 0 }, doc_line)
                    == rows_reserved(layers, i as int, char_idx, line_end_visual_pos, virt_off, doc_line),
            decreases self.line_annotations@.len() - i,
        {
            let pos = Position::new(
                line_end_visual_pos.row.saturating_add(virt_off.row),
                line_end_visual_pos.col.saturating_add(virt_off.col),
            );
            let ghost before = self.line_annotations@;
            let added = self.line_annotations[i].1.insert_virtual_lines(char_idx, pos, doc_line);
            proof {
                assert(self.line_annotations@.len() == before.len());
                assert(self.line_annotations@[i as int].0 == before[i as int].0);
                assert(self@.line_anchors =~= old(self)@.line_anchors);
                assert(before[i as int].1 == layers[i as int]);
                assert(forall|k: int| i < k < layers.len() ==> #[trigger] self.line_annotations@[k] == before[k]);
            }
            virt_off = Position::new(virt_off.row.saturating_add(added.row), virt_off.col.saturating_add(added.col));
            i = i + 1;
        }
        virt_off.row
    }
}

/// The rows that the line annotations `layers` from the `i`th on reserve
/// together after a visual line ending at `char_idx` and at `pos`, below
/// `off` rows and columns reserved already: each is asked at `pos` moved
/// down and right by what was reserved before it, and every sum saturates
/// at `usize::MAX`.
pub open spec fn rows_reserved<L: LineAnnotation + ?Sized>(
    layers: Seq<Box<L>>,
    i: int,
    char_idx: usize,
    pos: Position,
    off: Position,
    doc_line: usize,
) -> usize
    decreases layers.len() - i,
{
    if i < 0 || i >= layers.len() {
        off.row
    } else {
        let at = Position { row: pos.row.saturating_add(off.row), col: pos.col.saturating_add(off.col) };
        let added = layers[i].reserved(char_idx, at, doc_line);
        rows_reserved(
            layers,
            i + 1,
            char_idx,
            pos,
            Position { row: off.row.saturating_add(added.row), col: off.col.saturating_add(added.col) },
            doc_line,
        )
    }
}

} // verus!
