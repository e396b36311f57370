//! The display layers of a document that plugins fill — output rows, math
//! rows, stale tags, overlays and raw content per view — and how they follow
//! an edit of the document.

use vstd::prelude::*;

use crate::annotations::line_map::{moved_lines, remapped_with, IndexMap};
use crate::annotations::math::MathLines;
use crate::annotations::output::OutputLines;
use crate::annotations::stale_tags::StaleTags;
use crate::text_annotations::{
    kept, lemma_raw_content_remapped_empty, lemma_raw_content_remapped_weaken, raw_content_remapped,
    sort_by_anchor, stable_sort, Overlay, RawContent, SortedRawContent,
};

verus! {

/// `after` is `before` after an edit of the buffer: the overlays past
/// `old_len` dropped, the rest stably sorted and each moved to a position
/// that `moves` allows for its own, those that land at or past `new_len`
/// dropped, and the rest stably sorted again.
pub open spec fn overlays_remapped(
    before: Seq<Overlay>,
    after: Seq<Overlay>,
    old_len: usize,
    new_len: usize,
    moves: spec_fn(usize, usize) -> bool,
) -> bool {
    exists|moved: Seq<Overlay>|
        #![trigger moved.len()]
        {
            let sorted_before = stable_sort(kept(before, |o: Overlay| o.char_idx <= old_len));
            &&& moved.len() == sorted_before.len()
            &&& forall|i: int|
                0 <= i < moved.len() ==> #[trigger] moved[i] == (Overlay {
                    char_idx: moved[i].char_idx,
                    ..sorted_before[i]
                }) && moves(sorted_before[i].char_idx, moved[i].char_idx)
            &&& after == stable_sort(kept(moved, |o: Overlay| o.char_idx < new_len))
        }
}

/// Where the line `line` of the old document goes: nowhere if it is past
/// the old document's end or its first character lands past the new
/// document's end, else the new line of the position its first character
/// moves to.
pub open spec fn line_moves<P: Fn(usize) -> usize, A: Fn(usize) -> usize, B: Fn(usize) -> usize>(
    old_line_count: usize,
    new_len: usize,
    map_pos: P,
    line_to_char: A,
    char_to_line: B,
) -> spec_fn(usize, Option<usize>) -> bool {
    |line: usize, out: Option<usize>|
        match out {
            None => line >= old_line_count || exists|c: usize, d: usize|
                #![trigger line_to_char.ensures((line,), c), map_pos.ensures((c,), d)]
                line_to_char.ensures((line,), c) && map_pos.ensures((c,), d) && d > new_len,
            Some(n) => line < old_line_count && exists|c: usize, d: usize|
                #![trigger line_to_char.ensures((line,), c), map_pos.ensures((c,), d)]
                line_to_char.ensures((line,), c) && map_pos.ensures((c,), d) && d <= new_len
                    && char_to_line.ensures((d,), n),
        }
}

/// A remapping whose moves `narrow` allows is one that any `wide` allowing
/// at least as much allows.
pub proof fn lemma_overlays_remapped_weaken(
    before: Seq<Overlay>,
    after: Seq<Overlay>,
    old_len: usize,
    new_len: usize,
    narrow: spec_fn(usize, usize) -> bool,
    wide: spec_fn(usize, usize) -> bool,
)
    requires
        overlays_remapped(before, after, old_len, new_len, narrow),
        forall|p: usize, q: usize| #[trigger] narrow(p, q) ==> wide(p, q),
    ensures
        overlays_remapped(before, after, old_len, new_len, wide),
{
    let moved = choose|moved: Seq<Overlay>|
        #![trigger moved.len()]
        {
            let sorted_before = stable_sort(kept(before, |o: Overlay| o.char_idx <= old_len));
            &&& moved.len() == sorted_before.len()
            &&& forall|i: int|
                0 <= i < moved.len() ==> #[trigger] moved[i] == (Overlay {
                    char_idx: moved[i].char_idx,
                    ..sorted_before[i]
                }) && narrow(sorted_before[i].char_idx, moved[i].char_idx)
            &&& after == stable_sort(kept(moved, |o: Overlay| o.char_idx < new_len))
        };
    assert(moved.len() == stable_sort(kept(before, |o: Overlay| o.char_idx <= old_len)).len());
}

/// Nothing to remap stays nothing.
proof fn lemma_overlays_remapped_empty(old_len: usize, new_len: usize, moves: spec_fn(usize, usize) -> bool)
    ensures
        overlays_remapped(Seq::empty(), Seq::empty(), old_len, new_len, moves),
{
    let moved = Seq::<Overlay>::empty();
    assert(kept(Seq::<Overlay>::empty(), |o: Overlay| o.char_idx <= old_len) =~= moved);
    assert(stable_sort(moved) =~= moved);
    assert(kept(moved, |o: Overlay| o.char_idx < new_len) =~= moved);
    assert(moved.len() == 0);
}

/// Nothing to remap stays nothing.
proof fn lemma_remapped_empty<V>(moves: spec_fn(usize, Option<usize>) -> bool)
    ensures
        remapped_with(Map::<usize, V>::empty(), Map::<usize, V>::empty(), moves),
{
    let keys = Seq::<usize>::empty();
    let outs = Seq::<Option<usize>>::empty();
    assert(keys.to_set() =~= Set::<usize>::empty());
    assert(moved_lines(Map::<usize, V>::empty(), keys, outs) =~= Map::<usize, V>::empty());
}

/// Whether an overlay is anchored before `limit`, or at it too where
/// `inclusive`.
pub open spec fn within(limit: usize, inclusive: bool) -> spec_fn(Overlay) -> bool {
    |o: Overlay| o.char_idx < limit || (inclusive && o.char_idx == limit)
}

/// Keeping by two tests that agree on every item keeps the same items.
proof fn lemma_kept_same<A>(s: Seq<A>, f: spec_fn(A) -> bool, g: spec_fn(A) -> bool)
    requires
        forall|x: A| #[trigger] f(x) == g(x),
    ensures
        kept(s, f) == kept(s, g),
    decreases s.len(),
{
    if s.len() > 0 {
        lemma_kept_same(s.drop_last(), f, g);
    }
}

/// The overlays of `v` anchored before `limit`, or at it too where
/// `inclusive`, in order.
fn keep_overlays(v: Vec<Overlay>, limit: usize, inclusive: bool) -> (r: Vec<Overlay>)
    ensures
        r@ == kept(v@, within(limit, inclusive)),
{
    let ghost items = v@;
    let mut v = v;
    let mut out: Vec<Overlay> = Vec::new();
    let mut k: usize = 0;
    proof {
        assert(items.len() == v.len());
    }
    while v.len() > 0
        invariant
            items.len() <= usize::MAX,
            k <= items.len(),
            v@ == items.skip(k as int),
            out@ == kept(items.take(k as int), within(limit, inclusive)),
        decreases v@.len(),
    {
        proof {
            assert(v@.len() == items.len() - k);
        }
        let x = v.remove(0);
        proof {
            assert(x == items[k as int]);
            assert(items.take(k as int + 1).drop_last() =~= items.take(k as int));
            assert(items.take(k as int + 1).last() == items[k as int]);
            assert(v@ =~= items.skip(k as int + 1));
        }
        if x.char_idx < limit || (inclusive && x.char_idx == limit) {
            out.push(x);
        }
        k = k + 1;
    }
    proof {
        assert(items.take(k as int) =~= items);
    }
    out
}

/// Follows an edit of the buffer with a list of overlays.
fn remap_overlays<F: Fn(usize) -> usize>(overlays: Vec<Overlay>, old_len: usize, new_len: usize, map_pos: &F) -> (r:
    Vec<Overlay>)
    requires
        forall|p: usize| map_pos.requires((p,)),
    ensures
        overlays_remapped(overlays@, r@, old_len, new_len, |p: usize, q: usize| map_pos.ensures((p,), q)),
{
    let ghost items = overlays@;
    let before = keep_overlays(overlays, old_len, true);
    proof {
        lemma_kept_same(items, within(old_len, true), |o: Overlay| o.char_idx <= old_len);
    }
    let sorted = sort_by_anchor(before);
    let ghost sorted_view = sorted@;
    let mut v = sorted;
    let mut moved: Vec<Overlay> = Vec::new();
    let mut k: usize = 0;
    proof {
        assert(sorted_view.len() == v.len());
    }
    while v.len() > 0
        invariant
            forall|p: usize| map_pos.requires((p,)),
            sorted_view.len() <= usize::MAX,
            k <= sorted_view.len(),
            v@ == sorted_view.skip(k as int),
            moved@.len() == k,
            forall|i: int|
                0 <= i < k ==> #[trigger] moved@[i] == (Overlay {
                    char_idx: moved@[i].char_idx,
                    ..sorted_view[i]
                }) && map_pos.ensures((sorted_view[i].char_idx,), moved@[i].char_idx),
        decreases v@.len(),
    {
        proof {
            assert(v@.len() == sorted_view.len() - k);
        }
        let mut x = v.remove(0);
        proof {
            assert(x == sorted_view[k as int]);
            assert(v@ =~= sorted_view.skip(k as int + 1));
        }
        x.char_idx = map_pos(x.char_idx);
        moved.push(x);
        k = k + 1;
    }
    let ghost moved_view = moved@;
    let after = keep_overlays(moved, new_len, false);
    proof {
        lemma_kept_same(moved_view, within(new_len, false), |o: Overlay| o.char_idx < new_len);
    }
    let r = sort_by_anchor(after);
    proof {
        let moves = |p: usize, q: usize| map_pos.ensures((p,), q);
        assert(sorted_view == stable_sort(kept(items, |o: Overlay| o.char_idx <= old_len)));
        assert(r@ == stable_sort(kept(moved_view, |o: Overlay| o.char_idx < new_len)));
        assert(forall|i: int|
            0 <= i < moved_view.len() ==> #[trigger] moved_view[i] == (Overlay {
                char_idx: moved_view[i].char_idx,
                ..sorted_view[i]
            }) && moves(sorted_view[i].char_idx, moved_view[i].char_idx));
        assert(moved_view.len() == sorted_view.len());
    }
    r
}

/// The display layers of a document.
pub struct DisplayLayers {
    pub output_lines: OutputLines,
    pub math_lines: MathLines,
    pub stale_tags: StaleTags,
    /// Overlays of plugins, by view.
    pub plugin_overlays: IndexMap<Vec<Overlay>>,
    /// Raw terminal content, by view.
    pub raw_content: IndexMap<SortedRawContent>,
}

impl core::default::Default for DisplayLayers {
    fn default() -> (r: Self)
        ensures
            r.output_lines@ == Map::<usize, Vec<crate::annotations::output::OutputRow>>::empty(),
            r.math_lines@.above == Map::<usize, Vec<String>>::empty(),
            r.math_lines@.below == Map::<usize, Vec<String>>::empty(),
            r.stale_tags@.tags == Map::<usize, String>::empty(),
            r.stale_tags@.above == Map::<usize, String>::empty(),
            r.plugin_overlays@ == Map::<usize, Vec<Overlay>>::empty(),
            r.raw_content@ == Map::<usize, SortedRawContent>::empty(),
    {
        DisplayLayers {
            output_lines: OutputLines::default(),
            math_lines: MathLines::default(),
            stale_tags: StaleTags::default(),
            plugin_overlays: IndexMap::new(),
            raw_content: IndexMap::new(),
        }
    }
}


impl DisplayLayers {
    /// Moves the raw content of every view with the text, as after an edit.
    fn remap_raw_content<P: Fn(usize) -> usize>(&mut self, old_len: usize, new_len: usize, map_pos: &P)
        requires
            forall|p: usize| map_pos.requires((p,)),
        ensures
            final(self).raw_content@.dom() == old(self).raw_content@.dom(),
            forall|v: usize|
                #[trigger] old(self).raw_content@.contains_key(v) ==> raw_content_remapped(
                    old(self).raw_content@[v]@,
                    final(self).raw_content@[v]@,
                    old_len,
                    new_len,
                    |p: usize, q: usize| map_pos.ensures((p,), q),
                ),
            final(self).plugin_overlays == old(self).plugin_overlays,
            final(self).output_lines == old(self).output_lines,
            final(self).math_lines == old(self).math_lines,
            final(self).stale_tags == old(self).stale_tags,
    {
        let ghost orig = self.raw_content@;
        let ghost moves = |p: usize, q: usize| map_pos.ensures((p,), q);
        let keys = self.raw_content.keys();
        let mut i: usize = 0;
        while i < keys.len()
            invariant
                forall|p: usize| map_pos.requires((p,)),
                moves == (|p: usize, q: usize| map_pos.ensures((p,), q)),
                orig == old(self).raw_content@,
                keys@.no_duplicates(),
                keys@.to_set() == orig.dom(),
                i <= keys@.len(),
                self.raw_content@.dom() == orig.dom(),
                forall|j: int|
                    0 <= j < i ==> raw_content_remapped(
                        orig[#[trigger] keys@[j]]@,
                        self.raw_content@[keys@[j]]@,
                        old_len,
                        new_len,
                        moves,
                    ),
                forall|j: int| i <= j < keys@.len() ==> self.raw_content@[#[trigger] keys@[j]] == orig[keys@[j]],
                self.plugin_overlays == old(self).plugin_overlays,
                self.output_lines == old(self).output_lines,
                self.math_lines == old(self).math_lines,
                self.stale_tags == old(self).stale_tags,
            decreases keys@.len() - i,
        {
            let k = keys[i];
            proof {
                assert(keys@.to_set().contains(k));
            }
            match self.raw_content.take(k) {
                Some(mut content) => {
                    if content.is_empty() {
                        proof {
                            lemma_raw_content_remapped_empty(old_len, new_len, moves);
                            assert(content@ =~= Seq::<RawContent>::empty());
                        }
                    } else {
                        content.remap_positions(old_len, new_len, map_pos);
                        proof {
                            lemma_raw_content_remapped_weaken(
                                orig[k]@,
                                content@,
                                old_len,
                                new_len,
                                |p: usize, q: usize| map_pos.ensures((p,), q),
                                moves,
                            );
                        }
                    }
                    self.raw_content.insert(k, content);
                },
                None => {},
            }
            proof {
                assert(self.raw_content@.dom() =~= orig.dom());
                assert forall|j: int| i + 1 <= j < keys@.len() implies self.raw_content@[#[trigger] keys@[j]]
                    == orig[keys@[j]] by {
                    assert(keys@[j] != keys@[i as int]);
                }
                assert forall|j: int| 0 <= j < i + 1 implies raw_content_remapped(
                    orig[#[trigger] keys@[j]]@,
                    self.raw_content@[keys@[j]]@,
                    old_len,
                    new_len,
                    moves,
                ) by {
                    if j < i {
                        assert(keys@[j] != keys@[i as int]);
                    }
                }
            }
            i = i + 1;
        }
        proof {
            assert forall|v: usize| #[trigger] orig.contains_key(v) implies raw_content_remapped(
                orig[v]@,
                self.raw_content@[v]@,
                old_len,
                new_len,
                moves,
            ) by {
                assert(keys@.to_set().contains(v));
                let j = keys@.index_of(v);
            }
        }
    }
}


impl DisplayLayers {
    /// Moves the plugin overlays of every view with the text, as after an
    /// edit.
    fn remap_plugin_overlays<P: Fn(usize) -> usize>(&mut self, old_len: usize, new_len: usize, map_pos: &P)
        requires
            forall|p: usize| map_pos.requires((p,)),
        ensures
            final(self).plugin_overlays@.dom() == old(self).plugin_overlays@.dom(),
            forall|v: usize|
                #[trigger] old(self).plugin_overlays@.contains_key(v) ==> overlays_remapped(
                    old(self).plugin_overlays@[v]@,
                    final(self).plugin_overlays@[v]@,
                    old_len,
                    new_len,
                    |p: usize, q: usize| map_pos.ensures((p,), q),
                ),
            final(self).raw_content == old(self).raw_content,
            final(self).output_lines == old(self).output_lines,
            final(self).math_lines == old(self).math_lines,
            final(self).stale_tags == old(self).stale_tags,
    {
        let ghost orig = self.plugin_overlays@;
        let ghost moves = |p: usize, q: usize| map_pos.ensures((p,), q);
        let keys = self.plugin_overlays.keys();
        let mut i: usize = 0;
        while i < keys.len()
            invariant
                forall|p: usize| map_pos.requires((p,)),
                moves == (|p: usize, q: usize| map_pos.ensures((p,), q)),
                orig == old(self).plugin_overlays@,
                keys@.no_duplicates(),
                keys@.to_set() == orig.dom(),
                i <= keys@.len(),
                self.plugin_overlays@.dom() == orig.dom(),
                forall|j: int|
                    0 <= j < i ==> overlays_remapped(
                        orig[#[trigger] keys@[j]]@,
                        self.plugin_overlays@[keys@[j]]@,
                        old_len,
                        new_len,
                        moves,
                    ),
                forall|j: int|
                    i <= j < keys@.len() ==> self.plugin_overlays@[#[trigger] keys@[j]] == orig[keys@[j]],
                self.raw_content == old(self).raw_content,
                self.output_lines == old(self).output_lines,
                self.math_lines == old(self).math_lines,
                self.stale_tags == old(self).stale_tags,
            decreases keys@.len() - i,
        {
            let k = keys[i];
            proof {
                assert(keys@.to_set().contains(k));
            }
            match self.plugin_overlays.take(k) {
                Some(overlays) => {
                    if overlays.len() == 0 {
                        proof {
                            lemma_overlays_remapped_empty(old_len, new_len, moves);
                            assert(overlays@ =~= Seq::<Overlay>::empty());
                        }
                        self.plugin_overlays.insert(k, overlays);
                    } else {
                        let ghost before = overlays@;
                        let moved = remap_overlays(overlays, old_len, new_len, map_pos);
                        proof {
                            lemma_overlays_remapped_weaken(
                                before,
                                moved@,
                                old_len,
                                new_len,
                                |p: usize, q: usize| map_pos.ensures((p,), q),
                                moves,
                            );
                        }
                        self.plugin_overlays.insert(k, moved);
                    }
                },
                None => {},
            }
            proof {
                assert(self.plugin_overlays@.dom() =~= orig.dom());
                assert forall|j: int| i + 1 <= j < keys@.len() implies self.plugin_overlays@[
                    #[trigger] keys@[j]
                ] == orig[keys@[j]] by {
                    assert(keys@[j] != keys@[i as int]);
                }
                assert forall|j: int| 0 <= j < i + 1 implies overlays_remapped(
                    orig[#[trigger] keys@[j]]@,
                    self.plugin_overlays@[keys@[j]]@,
                    old_len,
                    new_len,
                    moves,
                ) by {
                    if j < i {
                        assert(keys@[j] != keys@[i as int]);
                    }
                }
            }
            i = i + 1;
        }
        proof {
            assert forall|v: usize| #[trigger] orig.contains_key(v) implies overlays_remapped(
                orig[v]@,
                self.plugin_overlays@[v]@,
                old_len,
                new_len,
                moves,
            ) by {
                assert(keys@.to_set().contains(v));
            }
        }
    }
}


impl DisplayLayers {
    /// Follows an edit of the document. `old_len` and `new_len` are the
    /// lengths in characters of the document before and after it,
    /// `old_line_count` the number of lines before it, `map_pos` moves a
    /// position of the old document to the new one, `line_to_char` gives the
    /// first character of a line of the old document, and `char_to_line` the
    /// line of a position in the new one.
    ///
    /// The raw content and plugin overlays of each view move with the text,
    /// dropping what lies past either end. Output rows, math rows and stale
    /// tags move to the line their anchor line's first character moves to,
    /// and are dropped where that line is gone.
    pub fn remap<P: Fn(usize) -> usize, A: Fn(usize) -> usize, B: Fn(usize) -> usize>(
        &mut self,
        old_len: usize,
        new_len: usize,
        old_line_count: usize,
        map_pos: P,
        line_to_char: A,
        char_to_line: B,
    )
        requires
            forall|p: usize| map_pos.requires((p,)),
            forall|line: usize| line_to_char.requires((line,)),
            forall|c: usize| char_to_line.requires((c,)),
        ensures
            final(self).raw_content@.dom() == old(self).raw_content@.dom(),
            forall|v: usize|
                #[trigger] old(self).raw_content@.contains_key(v) ==> raw_content_remapped(
                    old(self).raw_content@[v]@,
                    final(self).raw_content@[v]@,
                    old_len,
                    new_len,
                    |p: usize, q: usize| map_pos.ensures((p,), q),
                ),
            final(self).plugin_overlays@.dom() == old(self).plugin_overlays@.dom(),
            forall|v: usize|
                #[trigger] old(self).plugin_overlays@.contains_key(v) ==> overlays_remapped(
                    old(self).plugin_overlays@[v]@,
                    final(self).plugin_overlays@[v]@,
                    old_len,
                    new_len,
                    |p: usize, q: usize| map_pos.ensures((p,), q),
                ),
            remapped_with(
                old(self).output_lines@,
                final(self).output_lines@,
                line_moves(old_line_count, new_len, map_pos, line_to_char, char_to_line),
            ),
            remapped_with(
                old(self).math_lines@.above,
                final(self).math_lines@.above,
                line_moves(old_line_count, new_len, map_pos, line_to_char, char_to_line),
            ),
            remapped_with(
                old(self).math_lines@.below,
                final(self).math_lines@.below,
                line_moves(old_line_count, new_len, map_pos, line_to_char, char_to_line),
            ),
            remapped_with(
                old(self).stale_tags@.tags,
                final(self).stale_tags@.tags,
                line_moves(old_line_count, new_len, map_pos, line_to_char, char_to_line),
            ),
            remapped_with(
                old(self).stale_tags@.above,
                final(self).stale_tags@.above,
                line_moves(old_line_count, new_len, map_pos, line_to_char, char_to_line),
            ),
    {
        self.remap_raw_content(old_len, new_len, &map_pos);
        self.remap_plugin_overlays(old_len, new_len, &map_pos);
        let ghost moves = line_moves(old_line_count, new_len, map_pos, line_to_char, char_to_line);
        if self.output_lines.is_empty() && self.stale_tags.is_empty() && self.math_lines.is_empty() {
            proof {
                assert(self.output_lines@ =~= Map::empty());
                assert(self.stale_tags@.tags =~= Map::empty());
                assert(self.stale_tags@.above =~= Map::empty());
                assert(self.math_lines@.above =~= Map::empty());
                assert(self.math_lines@.below =~= Map::empty());
                lemma_remapped_empty::<Vec<crate::annotations::output::OutputRow>>(moves);
                lemma_remapped_empty::<String>(moves);
                lemma_remapped_empty::<Vec<String>>(moves);
            }
            return;
        }
        let map_pos_ref = &map_pos;
        let line_to_char_ref = &line_to_char;
        let char_to_line_ref = &char_to_line;
        let remap = move |line: usize| -> (r: Option<usize>)
            ensures
                line_moves(old_line_count, new_len, *map_pos_ref, *line_to_char_ref, *char_to_line_ref)(
                    line,
                    r,
                ),
            {
                if line >= old_line_count {
                    return None;
                }
                let c = line_to_char_ref(line);
                let d = map_pos_ref(c);
                if d > new_len {
                    None
                } else {
                    Some(char_to_line_ref(d))
                }
            };
        self.output_lines.remap_lines(&remap);
        self.stale_tags.remap_lines(&remap);
        self.math_lines.remap_lines(&remap);
        proof {
            let called = |line: usize, out: Option<usize>| (&remap).ensures((line,), out);
            assert forall|line: usize, out: Option<usize>| #[trigger] called(line, out) implies moves(
                line,
                out,
            ) by {}
        }
    }
}

} // verus!
