//! Virtual rows above and below math-bearing source lines. Each entry is a
//! list of pre-padded rows; "above line N" is shown as "below line N - 1",
//! since rows can only be reserved after a source line.

use vstd::prelude::*;

use crate::annotations::line_map::{lemma_remapped_values, remapped_by, IndexMap};
use crate::text_annotations::{LineAnnotation, Position};

verus! {

/// The number of rows in the bucket of `line`, 0 where it has none.
pub open spec fn bucket_len<T>(m: Map<usize, Vec<T>>, line: usize) -> nat {
    if m.contains_key(line) {
        m[line]@.len()
    } else {
        0
    }
}

/// No line has an empty bucket.
pub open spec fn no_empty_buckets<T>(m: Map<usize, Vec<T>>) -> bool {
    forall|line: usize| #[trigger] m.contains_key(line) ==> m[line]@.len() > 0
}

/// The sum `a + b`, or `usize::MAX` where it is larger.
pub open spec fn saturated(a: nat, b: nat) -> nat {
    if a + b <= usize::MAX {
        a + b
    } else {
        usize::MAX as nat
    }
}

/// The rows shown around source lines for math layouts.
pub struct MathLinesModel {
    pub above: Map<usize, Vec<String>>,
    pub below: Map<usize, Vec<String>>,
}

impl MathLinesModel {
    /// No line has an empty bucket, so that a store with no rows is empty.
    pub open spec fn wf(self) -> bool {
        no_empty_buckets(self.above) && no_empty_buckets(self.below)
    }

    /// The rows to reserve after `doc_line`: its own rows below, and the
    /// rows above the next line.
    pub open spec fn rows_after(self, doc_line: usize) -> nat {
        saturated(bucket_len(self.below, doc_line), bucket_len(self.above, (doc_line + 1) as usize))
    }
}

/// Virtual rows that plugins render above and below source lines for math
/// layouts, keyed by 0-based source line. Each entry is a list of rows
/// already padded by the plugin so that columns line up with the source.
#[derive(Debug)]
pub struct MathLines {
    above: IndexMap<Vec<String>>,
    below: IndexMap<Vec<String>>,
}

impl MathLines {
    /// No line has an empty bucket.
    #[verifier::type_invariant]
    spec fn inv(self) -> bool {
        self@.wf()
    }
}

impl View for MathLines {
    type V = MathLinesModel;

    closed spec fn view(&self) -> MathLinesModel {
        MathLinesModel { above: self.above@, below: self.below@ }
    }
}

impl core::default::Default for MathLines {
    fn default() -> (r: Self)
        ensures
            r@.above == Map::<usize, Vec<String>>::empty(),
            r@.below == Map::<usize, Vec<String>>::empty(),
            r@.wf(),
    {
        MathLines { above: IndexMap::new(), below: IndexMap::new() }
    }
}

impl Clone for MathLines {
    fn clone(&self) -> (r: Self)
        ensures
            r@ == self@,
    {
        proof {
            use_type_invariant(self);
        }
        MathLines { above: self.above.clone(), below: self.below.clone() }
    }
}

/// The rows of the bucket of `line` in `m`, as a slice.
fn bucket<'b>(m: &'b IndexMap<Vec<String>>, line: usize) -> (r: Option<&'b [String]>)
    ensures
        match r {
            Some(rows) => m@.contains_key(line) && rows@ == m@[line]@,
            None => !m@.contains_key(line),
        },
{
    match m.get(line) {
        Some(rows) => Some(rows.as_slice()),
        None => None,
    }
}

/// The number of rows in the bucket of `line` in `m`.
fn bucket_count<T>(m: &IndexMap<Vec<T>>, line: usize) -> (r: usize)
    ensures
        r == bucket_len(m@, line),
{
    match m.get(line) {
        Some(rows) => rows.len(),
        None => 0,
    }
}

impl MathLines {
    /// Whether no line has rows above or below it.
    pub fn is_empty(&self) -> (r: bool)
        ensures
            r == (self@.above.dom() == Set::<usize>::empty() && self@.below.dom() == Set::<usize>::empty()),
    {
        self.above.is_empty() && self.below.is_empty()
    }

    /// The rows shown above source line `line_idx`, if any.
    pub fn above(&self, line_idx: usize) -> (r: Option<&[String]>)
        ensures
            match r {
                Some(rows) => self@.above.contains_key(line_idx) && rows@ == self@.above[line_idx]@,
                None => !self@.above.contains_key(line_idx),
            },
    {
        bucket(&self.above, line_idx)
    }

    /// The rows shown below source line `line_idx`, if any.
    pub fn below(&self, line_idx: usize) -> (r: Option<&[String]>)
        ensures
            match r {
                Some(rows) => self@.below.contains_key(line_idx) && rows@ == self@.below[line_idx]@,
                None => !self@.below.contains_key(line_idx),
            },
    {
        bucket(&self.below, line_idx)
    }

    /// Replaces the rows above `line_idx`; no rows removes the entry.
    pub fn set_above(&mut self, line_idx: usize, lines: Vec<String>)
        ensures
            final(self)@.above == (if lines@.len() == 0 {
                old(self)@.above.remove(line_idx)
            } else {
                old(self)@.above.insert(line_idx, lines)
            }),
            final(self)@.below == old(self)@.below,
            final(self)@.wf(),
    {
        proof {
            use_type_invariant(&*self);
        }
        let mut above = IndexMap::new();
        std::mem::swap(&mut above, &mut self.above);
        if lines.len() == 0 {
            above.remove(line_idx);
        } else {
            above.insert(line_idx, lines);
        }
        self.above = above;
    }

    /// Replaces the rows below `line_idx`; no rows removes the entry.
    pub fn set_below(&mut self, line_idx: usize, lines: Vec<String>)
        ensures
            final(self)@.below == (if lines@.len() == 0 {
                old(self)@.below.remove(line_idx)
            } else {
                old(self)@.below.insert(line_idx, lines)
            }),
            final(self)@.above == old(self)@.above,
            final(self)@.wf(),
    {
        proof {
            use_type_invariant(&*self);
        }
        let mut below = IndexMap::new();
        std::mem::swap(&mut below, &mut self.below);
        if lines.len() == 0 {
            below.remove(line_idx);
        } else {
            below.insert(line_idx, lines);
        }
        self.below = below;
    }

    /// Drops the rows above and below one source line.
    pub fn clear_at(&mut self, line_idx: usize)
        ensures
            final(self)@.above == old(self)@.above.remove(line_idx),
            final(self)@.below == old(self)@.below.remove(line_idx),
            final(self)@.wf(),
    {
        proof {
            use_type_invariant(&*self);
        }
        let mut above = IndexMap::new();
        std::mem::swap(&mut above, &mut self.above);
        above.remove(line_idx);
        self.above = above;
        let mut below = IndexMap::new();
        std::mem::swap(&mut below, &mut self.below);
        below.remove(line_idx);
        self.below = below;
    }

    /// Drops every row, as when a plugin renders again from scratch.
    pub fn clear(&mut self)
        ensures
            final(self)@.above == Map::<usize, Vec<String>>::empty(),
            final(self)@.below == Map::<usize, Vec<String>>::empty(),
            final(self)@.wf(),
    {
        proof {
            use_type_invariant(&*self);
        }
        self.above = IndexMap::new();
        self.below = IndexMap::new();
    }

    /// Moves the rows of each line to the line `f` gives for it, dropping
    /// the rows of lines it gives none, as after an edit of the document.
    pub fn remap_lines<F: Fn(usize) -> Option<usize>>(&mut self, f: F)
        requires
            forall|line: usize| f.requires((line,)),
        ensures
            remapped_by(old(self)@.above, final(self)@.above, f),
            remapped_by(old(self)@.below, final(self)@.below, f),
            final(self)@.wf(),
    {
        proof {
            use_type_invariant(&*self);
        }
        let ghost nonempty = |rows: Vec<String>| rows@.len() > 0;
        let mut above = IndexMap::new();
        std::mem::swap(&mut above, &mut self.above);
        above.remap(&f);
        proof {
            lemma_remapped_values(
                old(self)@.above,
                above@,
                |line: usize, out: Option<usize>| f.ensures((line,), out),
                nonempty,
            );
        }
        self.above = above;
        let mut below = IndexMap::new();
        std::mem::swap(&mut below, &mut self.below);
        below.remap(&f);
        proof {
            lemma_remapped_values(
                old(self)@.below,
                below@,
                |line: usize, out: Option<usize>| f.ensures((line,), out),
                nonempty,
            );
        }
        self.below = below;
    }

    /// The virtual rows to reserve after `doc_line`: its rows below and the
    /// next line's rows above (the count saturates at `usize::MAX`).
    pub fn rows_to_reserve_after(&self, doc_line: usize) -> (r: usize)
        requires
            doc_line < usize::MAX,
        ensures
            r == self@.rows_after(doc_line),
    {
        let below_here = bucket_count(&self.below, doc_line);
        let above_next = bucket_count(&self.above, doc_line + 1);
        below_here.saturating_add(above_next)
    }
}

/// Reserves the rows of a [`MathLines`] store after each source line.
pub struct MathAnnotations<'a> {
    lines: &'a MathLines,
}

impl<'a> View for MathAnnotations<'a> {
    type V = MathLinesModel;

    closed spec fn view(&self) -> MathLinesModel {
        self.lines@
    }
}

impl<'a> MathAnnotations<'a> {
    /// A line annotation over the rows of `lines`.
    pub fn new(lines: &'a MathLines) -> (r: Box<MathAnnotations<'a>>)
        ensures
            r@ == lines@,
    {
        Box::new(MathAnnotations { lines })
    }
}

impl<'a> LineAnnotation for MathAnnotations<'a> {
    /// Reports what it reserves.
    open spec fn reports_reserved(&self) -> bool {
        true
    }

    /// The rows reserved after `doc_line`, and no columns.
    open spec fn reserved(&self, line_end_char_idx: usize, line_end_visual_pos: Position, doc_line: usize) -> Position {
        Position { row: self@.rows_after(doc_line) as usize, col: 0 }
    }

    fn insert_virtual_lines(
        &mut self,
        line_end_char_idx: usize,
        line_end_visual_pos: Position,
        doc_line: usize,
    ) -> (r: Position)
        ensures
            r == (Position { row: old(self)@.rows_after(doc_line) as usize, col: 0 }),
            final(self)@ == old(self)@,
    {
        Position::new(self.lines.rows_to_reserve_after(doc_line), 0)
    }
}

} // verus!
