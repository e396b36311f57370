//! A one-row marker below a source line for a stale notebook cell, and
//! above a line, kept apart from math and output rows so that re-scanning
//! one never disturbs the others.

use vstd::prelude::*;

use crate::annotations::line_map::{lemma_remapped_values, remapped_by, IndexMap};
use crate::text_annotations::{LineAnnotation, Position};

verus! {

/// The stale-cell tags below and above source lines.
pub struct StaleTagsModel {
    pub tags: Map<usize, String>,
    pub above: Map<usize, String>,
}

/// 1 where `b` holds, else 0.
pub open spec fn one_if(b: bool) -> nat {
    if b {
        1
    } else {
        0
    }
}

/// No line of `m` has an empty tag.
pub open spec fn no_empty_tags(m: Map<usize, String>) -> bool {
    forall|line: usize| #[trigger] m.contains_key(line) ==> m[line]@.len() > 0
}

impl StaleTagsModel {
    /// No line has an empty tag.
    pub open spec fn wf(self) -> bool {
        no_empty_tags(self.tags) && no_empty_tags(self.above)
    }

    /// The rows to reserve after `doc_line`: one for its tag, and one for a
    /// tag above the next line.
    pub open spec fn rows_after(self, doc_line: usize) -> nat {
        one_if(self.tags.contains_key(doc_line)) + one_if(self.above.contains_key((doc_line + 1) as usize))
    }
}

/// Tags that mark notebook cells as stale, keyed by 0-based source line.
#[derive(Debug)]
pub struct StaleTags {
    tags: IndexMap<String>,
    above: IndexMap<String>,
}

impl StaleTags {
    /// No line has an empty tag.
    #[verifier::type_invariant]
    spec fn inv(self) -> bool {
        self@.wf()
    }
}

impl View for StaleTags {
    type V = StaleTagsModel;

    closed spec fn view(&self) -> StaleTagsModel {
        StaleTagsModel { tags: self.tags@, above: self.above@ }
    }
}

impl core::default::Default for StaleTags {
    fn default() -> (r: Self)
        ensures
            r@.tags == Map::<usize, String>::empty(),
            r@.above == Map::<usize, String>::empty(),
            r@.wf(),
    {
        StaleTags { tags: IndexMap::new(), above: IndexMap::new() }
    }
}

impl Clone for StaleTags {
    fn clone(&self) -> (r: Self)
        ensures
            r@ == self@,
    {
        proof {
            use_type_invariant(self);
        }
        StaleTags { tags: self.tags.clone(), above: self.above.clone() }
    }
}

/// The tag of `line` in `m`, as a string slice.
fn tag_of<'b>(m: &'b IndexMap<String>, line: usize) -> (r: Option<&'b str>)
    ensures
        match r {
            Some(t) => m@.contains_key(line) && t@ == m@[line]@,
            None => !m@.contains_key(line),
        },
{
    match m.get(line) {
        Some(t) => Some(t.as_str()),
        None => None,
    }
}

impl StaleTags {
    /// Whether no line has a tag.
    pub fn is_empty(&self) -> (r: bool)
        ensures
            r == (self@.tags.dom() == Set::<usize>::empty() && self@.above.dom() == Set::<usize>::empty()),
    {
        self.tags.is_empty() && self.above.is_empty()
    }

    /// The tag below source line `line_idx`, if any.
    pub fn tag(&self, line_idx: usize) -> (r: Option<&str>)
        ensures
            match r {
                Some(t) => self@.tags.contains_key(line_idx) && t@ == self@.tags[line_idx]@,
                None => !self@.tags.contains_key(line_idx),
            },
    {
        tag_of(&self.tags, line_idx)
    }

    /// The tag above source line `line_idx`, if any.
    pub fn tag_above(&self, line_idx: usize) -> (r: Option<&str>)
        ensures
            match r {
                Some(t) => self@.above.contains_key(line_idx) && t@ == self@.above[line_idx]@,
                None => !self@.above.contains_key(line_idx),
            },
    {
        tag_of(&self.above, line_idx)
    }

    /// Sets the tag below `line_idx`; an empty text removes it.
    pub fn set(&mut self, line_idx: usize, text: String)
        ensures
            final(self)@.tags == (if text@.len() == 0 {
                old(self)@.tags.remove(line_idx)
            } else {
                old(self)@.tags.insert(line_idx, text)
            }),
            final(self)@.above == old(self)@.above,
            final(self)@.wf(),
    {
        proof {
            use_type_invariant(&*self);
        }
        let mut tags = IndexMap::new();
        std::mem::swap(&mut tags, &mut self.tags);
        if text.as_str().is_empty() {
            tags.remove(line_idx);
        } else {
            tags.insert(line_idx, text);
        }
        self.tags = tags;
    }

    /// Sets the tag above `line_idx`; an empty text removes it.
    pub fn set_above(&mut self, line_idx: usize, text: String)
        ensures
            final(self)@.above == (if text@.len() == 0 {
                old(self)@.above.remove(line_idx)
            } else {
                old(self)@.above.insert(line_idx, text)
            }),
            final(self)@.tags == old(self)@.tags,
            final(self)@.wf(),
    {
        proof {
            use_type_invariant(&*self);
        }
        let mut above = IndexMap::new();
        std::mem::swap(&mut above, &mut self.above);
        if text.as_str().is_empty() {
            above.remove(line_idx);
        } else {
            above.insert(line_idx, text);
        }
        self.above = above;
    }

    /// Drops both tags of one source line.
    pub fn clear_at(&mut self, line_idx: usize)
        ensures
            final(self)@.tags == old(self)@.tags.remove(line_idx),
            final(self)@.above == old(self)@.above.remove(line_idx),
            final(self)@.wf(),
    {
        proof {
            use_type_invariant(&*self);
        }
        let mut tags = IndexMap::new();
        std::mem::swap(&mut tags, &mut self.tags);
        tags.remove(line_idx);
        self.tags = tags;
        let mut above = IndexMap::new();
        std::mem::swap(&mut above, &mut self.above);
        above.remove(line_idx);
        self.above = above;
    }

    /// Drops every tag.
    pub fn clear(&mut self)
        ensures
            final(self)@.tags == Map::<usize, String>::empty(),
            final(self)@.above == Map::<usize, String>::empty(),
            final(self)@.wf(),
    {
        proof {
            use_type_invariant(&*self);
        }
        self.tags = IndexMap::new();
        self.above = IndexMap::new();
    }

    /// Moves the tags of each line to the line `f` gives for it, dropping
    /// the tags of lines it gives none.
    pub fn remap_lines<F: Fn(usize) -> Option<usize>>(&mut self, f: F)
        requires
            forall|line: usize| f.requires((line,)),
        ensures
            remapped_by(old(self)@.tags, final(self)@.tags, f),
            remapped_by(old(self)@.above, final(self)@.above, f),
            final(self)@.wf(),
    {
        proof {
            use_type_invariant(&*self);
        }
        let ghost nonempty = |text: String| text@.len() > 0;
        let mut tags = IndexMap::new();
        std::mem::swap(&mut tags, &mut self.tags);
        tags.remap(&f);
        proof {
            lemma_remapped_values(
                old(self)@.tags,
                tags@,
                |line: usize, out: Option<usize>| f.ensures((line,), out),
                nonempty,
            );
        }
        self.tags = tags;
        let mut above = IndexMap::new();
        std::mem::swap(&mut above, &mut self.above);
        above.remap(&f);
        proof {
            lemma_remapped_values(
                old(self)@.above,
                above@,
                |line: usize, out: Option<usize>| f.ensures((line,), out),
                nonempty,
            );
        }
        self.above = above;
    }

    /// The virtual rows to reserve after `doc_line`: one for its tag and one
    /// for the next line's tag above.
    pub fn rows_to_reserve_after(&self, doc_line: usize) -> (r: usize)
        requires
            doc_line < usize::MAX,
        ensures
            r == self@.rows_after(doc_line),
    {
        let here: usize = if self.tags.contains(doc_line) {
            1
        } else {
            0
        };
        let next: usize = if self.above.contains(doc_line + 1) {
            1
        } else {
            0
        };
        here + next
    }
}

/// Reserves the rows of a [`StaleTags`] store after each source line.
pub struct StaleTagAnnotations<'a> {
    tags: &'a StaleTags,
}

impl<'a> View for StaleTagAnnotations<'a> {
    type V = StaleTagsModel;

    closed spec fn view(&self) -> StaleTagsModel {
        self.tags@
    }
}

impl<'a> StaleTagAnnotations<'a> {
    /// A line annotation over the tags of `tags`.
    pub fn new(tags: &'a StaleTags) -> (r: Box<StaleTagAnnotations<'a>>)
        ensures
            r@ == tags@,
    {
        Box::new(StaleTagAnnotations { tags })
    }
}

impl<'a> LineAnnotation for StaleTagAnnotations<'a> {
    /// Reports what it reserves.
    open spec fn reports_reserved(&self) -> bool {
        true
    }

    /// The rows reserved after `doc_line`, and no columns.
    open spec fn reserved(&self, line_end_char_idx: usize, line_end_visual_pos: Position, doc_line: usize) -> Position {
        Position { row: self@.rows_after(doc_line) as usize, col: 0 }
    }

    fn insert_virtual_lines(
        &mut self,
        line_end_char_idx: usize,
        line_end_visual_pos: Position,
        doc_line: usize,
    ) -> (r: Position)
        ensures
            r == (Position { row: old(self)@.rows_after(doc_line) as usize, col: 0 }),
            final(self)@ == old(self)@,
    {
        Position::new(self.tags.rows_to_reserve_after(doc_line), 0)
    }
}

} // verus!
