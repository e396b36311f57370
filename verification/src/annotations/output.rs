//! Virtual rows below a source line for notebook cell output: stdout,
//! results, stderr and errors. Each row is a sequence of styled spans, so
//! that different runs of one row can be painted with different scopes.

use vstd::prelude::*;

use crate::annotations::line_map::{remapped_by, IndexMap};
use crate::annotations::math::bucket_len;
use crate::text_annotations::{LineAnnotation, Position};

verus! {

/// One styled run of text within an output row. `scope` names a theme scope
/// resolved when rendering; `None` paints with the default output style.
#[derive(Debug, Clone, PartialEq, Eq)]
pub struct StyledSpan {
    pub text: String,
    pub scope: Option<String>,
}

impl From<String> for StyledSpan {
    /// A span of `text` with no scope.
    fn from(text: String) -> (r: StyledSpan)
        ensures
            r == (StyledSpan { text, scope: None }),
    {
        StyledSpan { text, scope: None }
    }
}

impl vstd::std_specs::convert::FromSpecImpl<String> for StyledSpan {
    open spec fn obeys_from_spec() -> bool {
        true
    }

    open spec fn from_spec(text: String) -> StyledSpan {
        StyledSpan { text, scope: None }
    }
}

impl From<&str> for StyledSpan {
    /// A span of a copy of `text` with no scope.
    fn from(text: &str) -> (r: StyledSpan)
        ensures
            r.text@ == text@,
            r.scope is None,
    {
        StyledSpan { text: text.to_owned(), scope: None }
    }
}

/// A copy of a `&str` is a `String` that no spec function builds from it,
/// so `from` states its result in its own `ensures` instead.
impl vstd::std_specs::convert::FromSpecImpl<&str> for StyledSpan {
    open spec fn obeys_from_spec() -> bool {
        false
    }

    open spec fn from_spec(text: &str) -> StyledSpan {
        arbitrary()
    }
}

/// One row of output: its spans, and the scope of the bar drawn at its left.
#[derive(Debug, Clone, PartialEq, Eq, Default)]
pub struct OutputRow {
    pub bar_scope: Option<String>,
    pub spans: Vec<StyledSpan>,
}

impl OutputRow {
    /// A row of `spans` with the default bar.
    pub fn new(spans: Vec<StyledSpan>) -> (r: OutputRow)
        ensures
            r.bar_scope is None,
            r.spans == spans,
    {
        OutputRow { bar_scope: None, spans }
    }

    /// A row of `spans` with its bar painted in `bar_scope`.
    pub fn with_bar(bar_scope: Option<String>, spans: Vec<StyledSpan>) -> (r: OutputRow)
        ensures
            r.bar_scope == bar_scope,
            r.spans == spans,
    {
        OutputRow { bar_scope, spans }
    }
}

/// The rows of output below source lines, keyed by 0-based source line.
#[derive(Debug)]
pub struct OutputLines {
    below: IndexMap<Vec<OutputRow>>,
}

impl View for OutputLines {
    type V = Map<usize, Vec<OutputRow>>;

    closed spec fn view(&self) -> Map<usize, Vec<OutputRow>> {
        self.below@
    }
}

impl core::default::Default for OutputLines {
    fn default() -> (r: Self)
        ensures
            r@ == Map::<usize, Vec<OutputRow>>::empty(),
    {
        OutputLines { below: IndexMap::new() }
    }
}

impl Clone for OutputLines {
    fn clone(&self) -> (r: Self)
        ensures
            r@ == self@,
    {
        OutputLines { below: self.below.clone() }
    }
}

impl OutputLines {
    /// Whether no line has output.
    pub fn is_empty(&self) -> (r: bool)
        ensures
            r == (self@.dom() == Set::<usize>::empty()),
    {
        self.below.is_empty()
    }

    /// The output rows below source line `line_idx`, if any.
    pub fn below(&self, line_idx: usize) -> (r: Option<&[OutputRow]>)
        ensures
            match r {
                Some(rows) => self@.contains_key(line_idx) && rows@ == self@[line_idx]@,
                None => !self@.contains_key(line_idx),
            },
    {
        match self.below.get(line_idx) {
            Some(rows) => Some(rows.as_slice()),
            None => None,
        }
    }

    /// Replaces the output below `line_idx`; no rows removes the entry.
    pub fn set_below(&mut self, line_idx: usize, lines: Vec<OutputRow>)
        ensures
            final(self)@ == (if lines@.len() == 0 {
                old(self)@.remove(line_idx)
            } else {
                old(self)@.insert(line_idx, lines)
            }),
    {
        if lines.len() == 0 {
            self.below.remove(line_idx);
        } else {
            self.below.insert(line_idx, lines);
        }
    }

    /// Drops the output below one source line.
    pub fn clear_at(&mut self, line_idx: usize)
        ensures
            final(self)@ == old(self)@.remove(line_idx),
    {
        self.below.remove(line_idx);
    }

    /// Drops all output.
    pub fn clear(&mut self)
        ensures
            final(self)@ == Map::<usize, Vec<OutputRow>>::empty(),
    {
        self.below.clear();
    }

    /// Moves the output of each line to the line `f` gives for it, dropping
    /// the output of lines it gives none (their source line was deleted or
    /// pushed past the end). Where two lines move to one, the one moved
    /// later stays.
    pub fn remap_lines<F: Fn(usize) -> Option<usize>>(&mut self, f: F)
        requires
            forall|line: usize| f.requires((line,)),
        ensures
            remapped_by(old(self)@, final(self)@, f),
    {
        self.below.remap(f);
    }

    /// The virtual rows to reserve after `doc_line`: its output rows.
    pub fn rows_to_reserve_after(&self, doc_line: usize) -> (r: usize)
        ensures
            r == bucket_len(self@, doc_line),
    {
        match self.below.get(doc_line) {
            Some(rows) => rows.len(),
            None => 0,
        }
    }
}

/// Reserves the rows of an [`OutputLines`] store after each source line.
pub struct OutputAnnotations<'a> {
    lines: &'a OutputLines,
}

impl<'a> View for OutputAnnotations<'a> {
    type V = Map<usize, Vec<OutputRow>>;

    closed spec fn view(&self) -> Map<usize, Vec<OutputRow>> {
        self.lines@
    }
}

impl<'a> OutputAnnotations<'a> {
    /// A line annotation over the rows of `lines`.
    pub fn new(lines: &'a OutputLines) -> (r: Box<OutputAnnotations<'a>>)
        ensures
            r@ == lines@,
    {
        Box::new(OutputAnnotations { lines })
    }
}

impl<'a> LineAnnotation for OutputAnnotations<'a> {
    /// Reports what it reserves.
    open spec fn reports_reserved(&self) -> bool {
        true
    }

    /// The rows reserved after `doc_line`, and no columns.
    open spec fn reserved(&self, line_end_char_idx: usize, line_end_visual_pos: Position, doc_line: usize) -> Position {
        Position { row: bucket_len(self@, doc_line) as usize, col: 0 }
    }

    fn insert_virtual_lines(
        &mut self,
        line_end_char_idx: usize,
        line_end_visual_pos: Position,
        doc_line: usize,
    ) -> (r: Position)
        ensures
            r == (Position { row: bucket_len(old(self)@, doc_line) as usize, col: 0 }),
            final(self)@ == old(self)@,
    {
        Position::new(self.lines.rows_to_reserve_after(doc_line), 0)
    }
}

} // verus!
