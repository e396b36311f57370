//! Laying out rows of cell output on the screen: where each styled span of
//! a row is drawn, clamped to the width of the text viewport.

use vstd::prelude::*;

use crate::annotations::output::{OutputRow, StyledSpan};

verus! {

/// The width of the text `s` on a terminal, in cells, with characters of
/// ambiguous width taken as one cell.
pub uninterp spec fn text_width(s: Seq<char>) -> usize;

/// `UnicodeWidthStr::width` of the `unicode-width` crate: the width of a
/// string on a terminal, a function of the string alone, named
/// [`text_width`].
#[verifier::external_body]
fn display_width(s: &str) -> (r: usize)
    ensures
        r == text_width(s@),
{
    unicode_width::UnicodeWidthStr::width(s)
}

/// How one span of an output row is drawn: from column `col`, with
/// `remaining` cells left to the right edge of the viewport; `truncated`
/// marks the span that runs past the edge, which is drawn with an ellipsis
/// and ends the row.
pub struct SpanDraw<'a> {
    pub span: &'a StyledSpan,
    pub col: u16,
    pub remaining: u16,
    pub truncated: bool,
}

/// The draws of the spans of `spans` from the one at `start`, the first
/// drawn at column `col`, as (span index, column, cells remaining,
/// truncated): spans that start at or past the right edge are dropped, and
/// the first span that runs past it is the last drawn. A span's width is
/// taken modulo 2^16.
pub open spec fn row_plan(spans: Seq<StyledSpan>, width: u16, start: int, col: u16) -> Seq<(int, u16, u16, bool)>
    decreases spans.len() - start,
{
    if start < 0 || start >= spans.len() || col >= width {
        Seq::empty()
    } else {
        let remaining = (width - col) as u16;
        let span_width = text_width(spans[start].text@) as u16;
        let truncated = span_width > remaining;
        if truncated {
            seq![(start, col, remaining, true)]
        } else {
            seq![(start, col, remaining, false)] + row_plan(spans, width, start + 1, (col + span_width) as u16)
        }
    }
}

/// No span is drawn past the right edge: every draw starts left of it with
/// exactly the cells up to it remaining, and only the last draw of a row
/// can be truncated.
pub proof fn lemma_row_plan_within(spans: Seq<StyledSpan>, width: u16, start: int, col: u16)
    ensures
        forall|i: int|
            0 <= i < row_plan(spans, width, start, col).len() ==> {
                let (k, c, remaining, truncated) = #[trigger] row_plan(spans, width, start, col)[i];
                &&& c < width
                &&& c + remaining == width
                &&& start <= k < spans.len()
                &&& truncated ==> i == row_plan(spans, width, start, col).len() - 1
            },
    decreases spans.len() - start,
{
    if !(start < 0 || start >= spans.len() || col >= width) {
        let remaining = (width - col) as u16;
        let span_width = text_width(spans[start].text@) as u16;
        if span_width <= remaining {
            lemma_row_plan_within(spans, width, start + 1, (col + span_width) as u16);
            let rest = row_plan(spans, width, start + 1, (col + span_width) as u16);
            assert forall|i: int| 1 <= i < row_plan(spans, width, start, col).len() implies #[trigger] row_plan(
                spans,
                width,
                start,
                col,
            )[i] == rest[i - 1] by {}
        }
    }
}

/// `draws` are the draws that `plan` describes of the spans `spans`.
pub open spec fn draws_match(draws: Seq<SpanDraw<'_>>, spans: Seq<StyledSpan>, plan: Seq<(int, u16, u16, bool)>) -> bool {
    &&& draws.len() == plan.len()
    &&& forall|i: int|
        0 <= i < draws.len() ==> {
            let (k, col, remaining, truncated) = #[trigger] plan[i];
            &&& draws[i].span == &spans[k]
            &&& draws[i].col == col
            &&& draws[i].remaining == remaining
            &&& draws[i].truncated == truncated
        }
}

/// The draws of the spans of `row` in a viewport `width` cells wide, so that
/// no glyph is painted past the right edge.
pub fn plan_row(row: &OutputRow, width: u16) -> (r: Vec<SpanDraw<'_>>)
    ensures
        draws_match(r@, row.spans@, row_plan(row.spans@, width, 0, 0)),
{
    let ghost spans = row.spans@;
    let ghost mut prefix: Seq<(int, u16, u16, bool)> = Seq::empty();
    let mut plan: Vec<SpanDraw<'_>> = Vec::new();
    let mut col: u16 = 0;
    let mut i: usize = 0;
    while i < row.spans.len()
        invariant_except_break
            i <= spans.len(),
            spans == row.spans@,
            row_plan(spans, width, 0, 0) == prefix + row_plan(spans, width, i as int, col),
            draws_match(plan@, spans, prefix),
        ensures
            row_plan(spans, width, 0, 0) == prefix,
            draws_match(plan@, spans, prefix),
        decreases spans.len() - i,
    {
        if col >= width {
            proof {
                assert(prefix + row_plan(spans, width, i as int, col) =~= prefix);
            }
            break;
        }
        let remaining = width - col;
        let span = &row.spans[i];
        let span_width = display_width(span.text.as_str()) as u16;
        let truncated = span_width > remaining;
        plan.push(SpanDraw { span, col, remaining, truncated });
        let ghost draw = (i as int, col, remaining, truncated);
        proof {
            let rest = row_plan(spans, width, i as int, col);
            assert(span_width == text_width(spans[i as int].text@) as u16);
            if truncated {
                assert(rest == seq![draw]);
            } else {
                assert(rest == seq![draw] + row_plan(spans, width, i + 1, (col + span_width) as u16));
                assert(prefix + rest =~= prefix.push(draw) + row_plan(
                    spans,
                    width,
                    i + 1,
                    (col + span_width) as u16,
                ));
            }
            assert(prefix + seq![draw] =~= prefix.push(draw));
            prefix = prefix.push(draw);
        }
        if truncated {
            break;
        }
        col = col + span_width;
        i = i + 1;
    }
    proof {
        if i >= spans.len() {
            assert(prefix + row_plan(spans, width, i as int, col) =~= prefix);
        }
    }
    plan
}


/// The draws of one row of output: the screen row and its spans' draws.
pub struct RowDraw<'a> {
    pub row: u16,
    pub spans: Vec<SpanDraw<'a>>,
}

/// How the output rows below a source line are laid out.
pub struct OutputRowsPlan<'a> {
    /// The rows drawn, top to bottom.
    pub rows: Vec<RowDraw<'a>>,
    /// How many virtual rows were used.
    pub rows_used: u16,
}

/// How many of `count` rows fit from screen row `base` in a viewport
/// `height` rows high.
pub open spec fn rows_that_fit(count: nat, base: u16, height: u16) -> nat {
    if base >= height {
        0
    } else if count <= height - base {
        count
    } else {
        (height - base) as nat
    }
}

/// Lays out the output rows `rows` below a source line drawn at visual line
/// `visual_line`, below `virt_off_row` virtual rows already used: row `i`
/// goes to screen row `visual_line + virt_off_row + i` (the offset taken
/// modulo 2^16), as many as fit above the bottom of the viewport, each
/// clamped to its width by [`plan_row`].
pub fn plan_output_rows<'a>(
    rows: &'a [OutputRow],
    visual_line: u16,
    virt_off_row: usize,
    viewport_width: u16,
    viewport_height: u16,
) -> (r: OutputRowsPlan<'a>)
    requires
        visual_line + (virt_off_row as u16) <= u16::MAX,
    ensures
        ({
            let base = (visual_line + (virt_off_row as u16)) as u16;
            let n = rows_that_fit(rows@.len(), base, viewport_height);
            &&& r.rows_used == n
            &&& r.rows@.len() == n
            &&& forall|i: int|
                0 <= i < n ==> {
                    &&& (#[trigger] r.rows@[i]).row == base + i
                    &&& draws_match(r.rows@[i].spans@, rows@[i].spans@, row_plan(rows@[i].spans@, viewport_width, 0, 0))
                }
        }),
{
    let base: u16 = visual_line + (virt_off_row as u16);
    let mut planned: Vec<RowDraw<'a>> = Vec::new();
    let mut rows_used: u16 = 0;
    let mut i: usize = 0;
    while i < rows.len()
        invariant_except_break
            i <= rows@.len(),
            rows_used as nat == i,
            planned@.len() == i,
            i > 0 ==> base as nat + i <= viewport_height,
            forall|k: int|
                0 <= k < i ==> {
                    &&& (#[trigger] planned@[k]).row == base + k
                    &&& draws_match(planned@[k].spans@, rows@[k].spans@, row_plan(rows@[k].spans@, viewport_width, 0, 0))
                },
        ensures
            rows_used as nat == rows_that_fit(rows@.len(), base, viewport_height),
            planned@.len() == rows_used,
            forall|k: int|
                0 <= k < planned@.len() ==> {
                    &&& (#[trigger] planned@[k]).row == base + k
                    &&& draws_match(planned@[k].spans@, rows@[k].spans@, row_plan(rows@[k].spans@, viewport_width, 0, 0))
                },
        decreases rows@.len() - i,
    {
        let row = base + rows_used;
        if row >= viewport_height {
            proof {
                assert(rows_used == rows_that_fit(rows@.len(), base, viewport_height));
            }
            break;
        }
        let spans = plan_row(&rows[i], viewport_width);
        planned.push(RowDraw { row, spans });
        rows_used = rows_used + 1;
        i = i + 1;
        proof {
            if i == rows@.len() {
                assert(rows_used == rows_that_fit(rows@.len(), base, viewport_height));
            }
        }
    }
    OutputRowsPlan { rows: planned, rows_used }
}

/// Where a row of virtual text falls: above the viewport (scrolled past),
/// within it, or below it.
#[derive(Clone, Copy, Debug, PartialEq, Eq, Structural)]
pub enum RowPlacement {
    Above,
    Visible,
    Below,
}

/// `ps` are the placements met walking a list of `n` rows until the first
/// row below the viewport: no row but the last met is below, and the walk
/// stops short of the list only at a row below.
pub open spec fn placements_run(ps: Seq<RowPlacement>, n: nat) -> bool {
    &&& ps.len() <= n
    &&& forall|i: int| 0 <= i < ps.len() - 1 ==> ps[i] != RowPlacement::Below
    &&& ps.len() < n ==> ps.len() > 0 && ps.last() == RowPlacement::Below
}

/// How many rows a walk with placements `ps` uses: every row met, but the
/// one below the viewport that stopped it.
pub open spec fn rows_counted(ps: Seq<RowPlacement>) -> nat {
    if ps.len() > 0 && ps.last() == RowPlacement::Below {
        (ps.len() - 1) as nat
    } else {
        ps.len()
    }
}

/// The rows drawn of `lines` on a walk with placements `ps` from screen row
/// `base`: row `i` goes to `base + i`, and only the visible ones are drawn.
pub open spec fn visible_rows(lines: Seq<String>, ps: Seq<RowPlacement>, base: int) -> Seq<(u16, String)>
    decreases ps.len(),
{
    if ps.len() == 0 {
        Seq::empty()
    } else {
        let before = visible_rows(lines, ps.drop_last(), base);
        let i = ps.len() - 1;
        if ps.last() == RowPlacement::Visible {
            before.push(((base + i) as u16, lines[i]))
        } else {
            before
        }
    }
}

/// The rows of text drawn, as (screen row, text), and how many virtual rows
/// were used.
pub struct RowsPlan<'a> {
    pub rows: Vec<(u16, &'a String)>,
    pub rows_used: u16,
}

/// The rows of a plan with their text.
pub open spec fn plan_rows(rows: Seq<(u16, &String)>) -> Seq<(u16, String)> {
    rows.map_values(|p: (u16, &String)| (p.0, *p.1))
}

/// Walks `lines` from screen row `base + used`, as a stack of math rows is
/// drawn: rows above the viewport are counted but not drawn, visible ones
/// are drawn, and the first row below it ends the walk. Returns the rows
/// used after the walk and, as a ghost, the placements met.
fn walk_rows<'a, P: Fn(u16) -> RowPlacement>(
    lines: &'a [String],
    base: u16,
    used: u16,
    placement: &P,
    planned: &mut Vec<(u16, &'a String)>,
) -> (r: (u16, Ghost<Seq<RowPlacement>>))
    requires
        forall|row: u16| placement.requires((row,)),
        base + used + lines@.len() <= u16::MAX,
    ensures
        placements_run(r.1@, lines@.len()),
        forall|i: int| 0 <= i < r.1@.len() ==> placement.ensures((((base + used + i) as u16),), #[trigger] r.1@[i]),
        plan_rows(final(planned)@) == plan_rows(old(planned)@) + visible_rows(lines@, r.1@, base + used),
        r.0 == used + rows_counted(r.1@),
{
    let ghost start = plan_rows(planned@);
    let ghost mut ps: Seq<RowPlacement> = Seq::empty();
    let mut rows_used = used;
    let mut i: usize = 0;
    proof {
        assert(start + visible_rows(lines@, ps, base + used) =~= start);
    }
    while i < lines.len()
        invariant_except_break
            i <= lines@.len(),
            ps.len() == i,
            rows_used == used + i,
            base + used + lines@.len() <= u16::MAX,
            forall|row: u16| placement.requires((row,)),
            forall|k: int| 0 <= k < ps.len() ==> ps[k] != RowPlacement::Below,
            forall|k: int| 0 <= k < ps.len() ==> placement.ensures((((base + used + k) as u16),), #[trigger] ps[k]),
            plan_rows(planned@) == start + visible_rows(lines@, ps, base + used),
        ensures
            placements_run(ps, lines@.len()),
            forall|k: int| 0 <= k < ps.len() ==> placement.ensures((((base + used + k) as u16),), #[trigger] ps[k]),
            plan_rows(planned@) == start + visible_rows(lines@, ps, base + used),
            rows_used == used + rows_counted(ps),
        decreases lines@.len() - i,
    {
        let row = base + rows_used;
        let p = placement(row);
        let ghost before = ps;
        proof {
            ps = ps.push(p);
            assert(ps.drop_last() =~= before);
        }
        match p {
            RowPlacement::Below => {
                proof {
                    assert(visible_rows(lines@, ps, base + used) == visible_rows(lines@, before, base + used));
                }
                break;
            },
            RowPlacement::Above => {},
            RowPlacement::Visible => {
                planned.push((row, &lines[i]));
                proof {
                    assert(plan_rows(planned@) =~= (start + visible_rows(lines@, before, base + used)).push(
                        (row, lines@[i as int]),
                    ));
                    assert((start + visible_rows(lines@, before, base + used)).push((row, lines@[i as int]))
                        =~= start + visible_rows(lines@, ps, base + used));
                }
            },
        }
        rows_used = rows_used + 1;
        i = i + 1;
    }
    (rows_used, Ghost(ps))
}

/// Lays out math rows around a source line drawn with its virtual rows from
/// screen row `base_row`: first the rows below that line, then the rows
/// above the next one, stacked in that order. In each list row `i` goes to
/// the next unused row; a row above the viewport (as `placement` places it)
/// is counted but not drawn, a visible row is drawn, and a row below the
/// viewport ends that list. Returns the rows drawn and how many rows were
/// used.
pub fn plan_math_rows<'a, P: Fn(u16) -> RowPlacement>(
    below: &'a [String],
    above_next: &'a [String],
    base_row: u16,
    placement: P,
) -> (r: RowsPlan<'a>)
    requires
        forall|row: u16| placement.requires((row,)),
        base_row + below@.len() + above_next@.len() <= u16::MAX,
    ensures
        exists|ps1: Seq<RowPlacement>, ps2: Seq<RowPlacement>|
            {
                &&& placements_run(ps1, below@.len())
                &&& placements_run(ps2, above_next@.len())
                &&& forall|i: int|
                    0 <= i < ps1.len() ==> placement.ensures((((base_row + i) as u16),), #[trigger] ps1[i])
                &&& forall|i: int|
                    0 <= i < ps2.len() ==> placement.ensures(
                        (((base_row + rows_counted(ps1) + i) as u16),),
                        #[trigger] ps2[i],
                    )
                &&& plan_rows(r.rows@) == visible_rows(below@, ps1, base_row as int) + visible_rows(
                    above_next@,
                    ps2,
                    base_row + rows_counted(ps1),
                )
                &&& r.rows_used == rows_counted(ps1) + rows_counted(ps2)
            },
{
    let mut planned: Vec<(u16, &'a String)> = Vec::new();
    proof {
        assert(plan_rows(planned@) =~= Seq::<(u16, String)>::empty());
    }
    let (used, ps1) = walk_rows(below, base_row, 0, &placement, &mut planned);
    let (rows_used, ps2) = walk_rows(above_next, base_row, used, &placement, &mut planned);
    proof {
        assert(plan_rows(planned@) =~= visible_rows(below@, ps1@, base_row as int) + visible_rows(
            above_next@,
            ps2@,
            base_row + rows_counted(ps1@),
        ));
        assert forall|i: int| 0 <= i < ps1@.len() implies placement.ensures(
            (((base_row + i) as u16),),
            #[trigger] ps1@[i],
        ) by {
            assert(base_row + 0 + i == base_row + i);
        }
    }
    RowsPlan { rows: planned, rows_used }
}

/// The stale tags of a source line: the one below it, then the one above
/// the next line, those that are there.
pub open spec fn stale_tag_texts(below: Option<&String>, above_next: Option<&String>) -> Seq<String> {
    (match below {
        Some(t) => seq![*t],
        None => Seq::empty(),
    }) + (match above_next {
        Some(t) => seq![*t],
        None => Seq::empty(),
    })
}

/// Lays out the stale tags of a source line drawn with its virtual rows from
/// screen row `base_row`: the tag below the line, then the tag above the
/// next one, each on the next row, stacked below the math rows already
/// counted in `base_row`. A tag is drawn where `placement` places its row
/// in the viewport; every tag uses its row, drawn or not.
pub fn plan_stale_rows<'a, P: Fn(u16) -> RowPlacement>(
    below: Option<&'a String>,
    above_next: Option<&'a String>,
    base_row: u16,
    placement: P,
) -> (r: RowsPlan<'a>)
    requires
        forall|row: u16| placement.requires((row,)),
        base_row + stale_tag_texts(below, above_next).len() <= u16::MAX + 1,
    ensures
        exists|ps: Seq<RowPlacement>|
            {
                &&& ps.len() == stale_tag_texts(below, above_next).len()
                &&& forall|i: int|
                    0 <= i < ps.len() ==> placement.ensures((((base_row + i) as u16),), #[trigger] ps[i])
                &&& plan_rows(r.rows@) == visible_rows(stale_tag_texts(below, above_next), ps, base_row as int)
                &&& r.rows_used == ps.len()
            },
{
    let ghost tags = stale_tag_texts(below, above_next);
    let mut tag_list: Vec<&'a String> = Vec::new();
    if let Some(t) = below {
        tag_list.push(t);
    }
    if let Some(t) = above_next {
        tag_list.push(t);
    }
    proof {
        assert(tag_list@.map_values(|t: &String| *t) =~= tags);
    }
    let mut planned: Vec<(u16, &'a String)> = Vec::new();
    let ghost mut ps: Seq<RowPlacement> = Seq::empty();
    let mut rows_used: u16 = 0;
    let mut i: usize = 0;
    proof {
        assert(plan_rows(planned@) =~= visible_rows(tags, ps, base_row as int));
    }
    while i < tag_list.len()
        invariant
            i <= tag_list@.len(),
            tag_list@.len() == tags.len(),
            tags.len() <= 2,
            forall|k: int| 0 <= k < tags.len() ==> *tag_list@[k] == tags[k],
            ps.len() == i,
            rows_used == i,
            base_row + tags.len() <= u16::MAX + 1,
            forall|row: u16| placement.requires((row,)),
            forall|k: int| 0 <= k < ps.len() ==> placement.ensures((((base_row + k) as u16),), #[trigger] ps[k]),
            plan_rows(planned@) == visible_rows(tags, ps, base_row as int),
        decreases tag_list@.len() - i,
    {
        let row = base_row + rows_used;
        let p = placement(row);
        let ghost before = ps;
        proof {
            ps = ps.push(p);
            assert(ps.drop_last() =~= before);
            assert(tag_list@.map_values(|t: &String| *t)[i as int] == tags[i as int]);
        }
        if p == RowPlacement::Visible {
            planned.push((row, tag_list[i]));
            proof {
                assert(plan_rows(planned@) =~= visible_rows(tags, before, base_row as int).push(
                    (row, tags[i as int]),
                ));
            }
        }
        rows_used = rows_used + 1;
        i = i + 1;
    }
    RowsPlan { rows: planned, rows_used }
}

} // verus!
