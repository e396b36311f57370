//! The terminal front end: two graphics surfaces used in turn, the previous
//! frame and the one being drawn, and what each flush sends to the backend.

use vstd::prelude::*;

use crate::raw_surface::{write_ids, RawSurface, RawSurfaceModel, RawWrite};
use crate::text_annotations::{kept, lemma_kept_pass, share};

verus! {

/// `std::io::Error`, the error of the backend's terminal I/O; the library
/// only passes it on.
#[verifier::external_type_specification]
#[verifier::external_body]
pub struct ExIoError(std::io::Error);

/// A rectangle of terminal cells.
#[derive(Clone, Copy, Debug, PartialEq, Eq, Structural)]
pub struct Rect {
    pub x: u16,
    pub y: u16,
    pub width: u16,
    pub height: u16,
}

/// The shape of the cursor.
#[derive(Clone, Copy, Debug, PartialEq, Eq, Structural)]
pub enum CursorKind {
    Block,
    Bar,
    Underline,
    Hidden,
}

/// The size assumed where the backend cannot tell it: 80 columns, 24
/// lines.
pub fn default_terminal_size() -> (r: Rect)
    ensures
        r == (Rect { x: 0, y: 0, width: 80, height: 24 }),
{
    Rect { x: 0, y: 0, width: 80, height: 24 }
}

/// Whether the viewport follows the terminal's size.
#[derive(Clone, Copy, Debug, PartialEq, Eq, Structural)]
pub enum ResizeBehavior {
    Fixed,
    Auto,
}

/// The part of the terminal drawn to.
#[derive(Clone, Copy, Debug, PartialEq, Eq, Structural)]
pub struct Viewport {
    pub area: Rect,
    pub resize_behavior: ResizeBehavior,
}

impl Viewport {
    /// A viewport of the fixed area `area`.
    pub fn fixed(area: Rect) -> (r: Viewport)
        ensures
            r == (Viewport { area, resize_behavior: ResizeBehavior::Fixed }),
    {
        Viewport { area, resize_behavior: ResizeBehavior::Fixed }
    }
}

/// Options of a new terminal.
#[derive(Clone, Copy, Debug, PartialEq, Eq, Structural)]
pub struct TerminalOptions {
    /// The viewport drawn to.
    pub viewport: Viewport,
}

/// Terminal settings passed on to the backend.
#[derive(Clone, Copy, Debug, PartialEq, Eq, Structural)]
pub struct Config {
    pub enable_mouse_capture: bool,
    pub force_enable_extended_underlines: bool,
}

/// A terminal backend: what the front end asks of the terminal. A backend
/// may report the terminal's state through the spec functions below. One
/// that does keeps reporting it, records every request made of it, in
/// order, in [`Backend::requests`], and leaves the terminal, after each
/// request that succeeds, as the request's name says. One that does not
/// promises nothing of that state.
pub trait Backend {
    /// Whether this backend reports the terminal's state through the spec
    /// functions below.
    open spec fn reports_state(&self) -> bool {
        false
    }

    /// The requests made of this backend so far, in order.
    open spec fn requests(&self) -> Seq<BackendRequest> {
        Seq::empty()
    }

    /// Whether the terminal is claimed for drawing.
    open spec fn claimed(&self) -> bool {
        false
    }

    /// The settings the terminal works with.
    open spec fn settings(&self) -> Config {
        Config { enable_mouse_capture: false, force_enable_extended_underlines: false }
    }

    /// Where the cursor stands, as (column, row).
    open spec fn cursor_at(&self) -> (u16, u16) {
        (0, 0)
    }

    /// The shape of the cursor, `Hidden` while it is hidden.
    open spec fn shown_cursor(&self) -> CursorKind {
        CursorKind::Block
    }

    /// The size of the terminal in cells.
    open spec fn area(&self) -> Rect {
        Rect { x: 0, y: 0, width: 80, height: 24 }
    }

    /// Claims the terminal for drawing.
    fn claim(&mut self) -> (r: Result<(), std::io::Error>)
        ensures
            old(self).reports_state() ==> {
                &&& final(self).reports_state()
                &&& final(self).requests() == old(self).requests().push(BackendRequest::Claim)
                &&& r is Ok ==> {
                    &&& final(self).claimed()
                }
            },
    ;

    /// Updates the terminal's settings.
    fn reconfigure(&mut self, config: Config) -> (r: Result<(), std::io::Error>)
        ensures
            old(self).reports_state() ==> {
                &&& final(self).reports_state()
                &&& final(self).requests() == old(self).requests().push(BackendRequest::Reconfigure(config))
                &&& r is Ok ==> {
                    &&& final(self).settings() == config
                }
            },
    ;

    /// Gives the terminal back in its normal state, undoing `claim`.
    fn restore(&mut self) -> (r: Result<(), std::io::Error>)
        ensures
            old(self).reports_state() ==> {
                &&& final(self).reports_state()
                &&& final(self).requests() == old(self).requests().push(BackendRequest::Restore)
                &&& r is Ok ==> {
                    &&& !final(self).claimed()
                }
            },
    ;

    /// Writes raw bytes (image transmissions) to the terminal; a backend
    /// without graphics writes nothing.
    fn draw_raw(&mut self, content: &[RawWrite]) -> (r: Result<(), std::io::Error>)
        ensures
            old(self).reports_state() ==> {
                &&& final(self).reports_state()
                &&& final(self).requests() == old(self).requests().push(BackendRequest::DrawRaw(content@))
            },
    ;

    /// Deletes images by id; a backend without graphics has none.
    fn delete_images(&mut self, ids: &[u64]) -> (r: Result<(), std::io::Error>)
        ensures
            old(self).reports_state() ==> {
                &&& final(self).reports_state()
                &&& final(self).requests() == old(self).requests().push(BackendRequest::DeleteImages(ids@))
            },
    ;

    /// Clears every transmitted image from the screen; a backend without
    /// graphics has none.
    fn clear_all_images(&mut self) -> (r: Result<(), std::io::Error>)
        ensures
            old(self).reports_state() ==> {
                &&& final(self).reports_state()
                &&& final(self).requests() == old(self).requests().push(BackendRequest::ClearAllImages)
            },
    ;

    /// Deletes the transmitted images not in `current_ids`, returning their
    /// ids; a backend without graphics deletes none.
    fn sync_images(&mut self, current_ids: &[u64]) -> (r: Result<Vec<u64>, std::io::Error>)
        ensures
            old(self).reports_state() ==> {
                &&& final(self).reports_state()
                &&& final(self).requests() == old(self).requests().push(BackendRequest::SyncImages(current_ids@))
            },
    ;

    /// Hides the cursor, where it stands.
    fn hide_cursor(&mut self) -> (r: Result<(), std::io::Error>)
        ensures
            old(self).reports_state() ==> {
                &&& final(self).reports_state()
                &&& final(self).requests() == old(self).requests().push(BackendRequest::HideCursor)
                &&& r is Ok ==> {
                    &&& final(self).shown_cursor() == CursorKind::Hidden
                    &&& final(self).cursor_at() == old(self).cursor_at()
                }
            },
    ;

    /// Shows the cursor with the shape `kind`, where it stands.
    fn show_cursor(&mut self, kind: CursorKind) -> (r: Result<(), std::io::Error>)
        ensures
            old(self).reports_state() ==> {
                &&& final(self).reports_state()
                &&& final(self).requests() == old(self).requests().push(BackendRequest::ShowCursor(kind))
                &&& r is Ok ==> {
                    &&& final(self).shown_cursor() == kind
                    &&& final(self).cursor_at() == old(self).cursor_at()
                }
            },
    ;

    /// Moves the cursor to `(x, y)`, in the shape it has.
    fn set_cursor(&mut self, x: u16, y: u16) -> (r: Result<(), std::io::Error>)
        ensures
            old(self).reports_state() ==> {
                &&& final(self).reports_state()
                &&& final(self).requests() == old(self).requests().push(BackendRequest::SetCursor(x, y))
                &&& r is Ok ==> {
                    &&& final(self).cursor_at() == (x, y)
                    &&& final(self).shown_cursor() == old(self).shown_cursor()
                }
            },
    ;

    /// Clears the terminal.
    fn clear(&mut self) -> (r: Result<(), std::io::Error>)
        ensures
            old(self).reports_state() ==> {
                &&& final(self).reports_state()
                &&& final(self).requests() == old(self).requests().push(BackendRequest::Clear)
            },
    ;

    /// The size of the terminal in cells.
    fn size(&self) -> (r: Result<Rect, std::io::Error>)
        ensures
            self.reports_state() ==> (r matches Ok(area) ==> area == self.area()),
    ;

    /// Starts a frame of synchronized output, which the terminal shows at
    /// once when it ends; a backend without synchronized output does
    /// nothing.
    fn begin_frame(&mut self) -> (r: Result<(), std::io::Error>)
        ensures
            old(self).reports_state() ==> {
                &&& final(self).reports_state()
                &&& final(self).requests() == old(self).requests().push(BackendRequest::BeginFrame)
            },
    ;

    /// Ends a frame of synchronized output.
    fn end_frame(&mut self) -> (r: Result<(), std::io::Error>)
        ensures
            old(self).reports_state() ==> {
                &&& final(self).reports_state()
                &&& final(self).requests() == old(self).requests().push(BackendRequest::EndFrame)
            },
    ;

    /// Starts the synchronized output of a whole draw.
    fn start_sync(&mut self) -> (r: Result<(), std::io::Error>)
        ensures
            old(self).reports_state() ==> {
                &&& final(self).reports_state()
                &&& final(self).requests() == old(self).requests().push(BackendRequest::StartSync)
            },
    ;

    /// Ends the synchronized output of a whole draw, leaving the cursor as
    /// it is.
    fn end_sync(&mut self) -> (r: Result<(), std::io::Error>)
        ensures
            old(self).reports_state() ==> {
                &&& final(self).reports_state()
                &&& final(self).requests() == old(self).requests().push(BackendRequest::EndSync)
                &&& r is Ok ==> {
                    &&& final(self).shown_cursor() == old(self).shown_cursor()
                    &&& final(self).cursor_at() == old(self).cursor_at()
                }
            },
    ;

    /// Flushes what was written to the terminal, leaving the cursor as it
    /// is.
    fn flush(&mut self) -> (r: Result<(), std::io::Error>)
        ensures
            old(self).reports_state() ==> {
                &&& final(self).reports_state()
                &&& final(self).requests() == old(self).requests().push(BackendRequest::Flush)
                &&& r is Ok ==> {
                    &&& final(self).shown_cursor() == old(self).shown_cursor()
                    &&& final(self).cursor_at() == old(self).cursor_at()
                }
            },
    ;

    /// Whether the terminal shows true colors.
    fn supports_true_color(&self) -> bool;
}

/// What a flush sends to the backend for images.
pub struct ImagePlan {
    /// The ids written in this frame, in order.
    pub current_ids: Vec<u64>,
    /// The ids explicitly queued for deletion.
    pub to_delete: Vec<u64>,
    /// The writes of images the previous frame did not write, in order:
    /// an image is sent once, when first seen.
    pub to_draw: Vec<RawWrite>,
}

/// The writes of `current` whose image `previous` does not write.
pub open spec fn first_sightings(current: Seq<RawWrite>, previous: Seq<RawWrite>) -> Seq<RawWrite> {
    kept(current, |w: RawWrite| !write_ids(previous).contains(w.0))
}

/// An image that the previous frame wrote is not sent again: none of the
/// writes a flush sends is of an image the previous frame wrote.
pub proof fn lemma_first_sightings_are_new(current: Seq<RawWrite>, previous: Seq<RawWrite>)
    ensures
        forall|i: int|
            0 <= i < first_sightings(current, previous).len() ==> !write_ids(previous).contains(
                #[trigger] first_sightings(current, previous)[i].0,
            ),
{
    lemma_kept_pass(current, |w: RawWrite| !write_ids(previous).contains(w.0));
}

/// Whether `ids` holds `id`.
fn holds(ids: &[u64], id: u64) -> (r: bool)
    ensures
        r == ids@.contains(id),
{
    let mut i: usize = 0;
    while i < ids.len()
        invariant
            i <= ids@.len(),
            forall|k: int| 0 <= k < i ==> ids@[k] != id,
        decreases ids@.len() - i,
    {
        if ids[i] == id {
            proof {
                assert(ids@[i as int] == id);
            }
            return true;
        }
        i = i + 1;
    }
    false
}

/// What to send for the images of the frame `current`, drawn after
/// `previous`: the ids written now, the explicit deletes, and the writes of
/// images seen for the first time. Images that the previous frame wrote and
/// this one does not are not deleted: only explicit deletes are.
pub fn image_plan(current: &RawSurface, previous: &RawSurface) -> (r: ImagePlan)
    ensures
        r.current_ids@ == write_ids(current@.writes),
        r.to_delete@ == current@.pending_deletes,
        r.to_draw@ == first_sightings(current@.writes, previous@.writes),
{
    let current_ids = current.image_ids();
    let prev_ids = previous.image_ids();
    let deletes = current.pending_deletes();
    let mut to_delete: Vec<u64> = Vec::new();
    let mut j: usize = 0;
    while j < deletes.len()
        invariant
            j <= deletes@.len(),
            to_delete@ == deletes@.take(j as int),
        decreases deletes@.len() - j,
    {
        to_delete.push(deletes[j]);
        proof {
            assert(to_delete@ =~= deletes@.take(j as int + 1));
        }
        j = j + 1;
    }
    proof {
        assert(deletes@.take(j as int) =~= deletes@);
    }
    let writes = current.writes();
    let mut to_draw: Vec<RawWrite> = Vec::new();
    let mut i: usize = 0;
    while i < writes.len()
        invariant
            i <= writes@.len(),
            prev_ids@ == write_ids(previous@.writes),
            to_draw@ == first_sightings(writes@.take(i as int), previous@.writes),
        decreases writes@.len() - i,
    {
        let w = &writes[i];
        proof {
            assert(writes@.take(i as int + 1).drop_last() =~= writes@.take(i as int));
            assert(writes@.take(i as int + 1).last() == writes@[i as int]);
        }
        if !holds(prev_ids.as_slice(), w.0) {
            to_draw.push((w.0, w.1, w.2, share(&w.3)));
        }
        i = i + 1;
    }
    proof {
        assert(writes@.take(i as int) =~= writes@);
    }
    ImagePlan { current_ids, to_delete, to_draw }
}


/// A request that changes the terminal, as the front end makes it of its
/// backend.
pub enum BackendRequest {
    Claim,
    Reconfigure(Config),
    Restore,
    Clear,
    ClearAllImages,
    SyncImages(Seq<u64>),
    DeleteImages(Seq<u64>),
    BeginFrame,
    DrawRaw(Seq<RawWrite>),
    EndFrame,
    StartSync,
    EndSync,
    SetCursor(u16, u16),
    HideCursor,
    ShowCursor(CursorKind),
    Flush,
}

/// `done` is `plan` made in order up to its first failure: the requests made
/// are the first ones of the plan, each succeeded but perhaps the last one
/// made, the requests stop short of the plan only after a failure, and the
/// whole succeeded (`ok`) exactly when every request of the plan was made
/// and succeeded.
#[verifier::opaque]
pub open spec fn ran_until_failure(plan: Seq<BackendRequest>, done: Seq<(BackendRequest, bool)>, ok: bool) -> bool {
    &&& done.len() <= plan.len()
    &&& forall|i: int| 0 <= i < done.len() ==> (#[trigger] done[i]).0 == plan[i]
    &&& forall|i: int| 0 <= i < done.len() - 1 ==> (#[trigger] done[i]).1
    &&& done.len() < plan.len() ==> done.len() > 0 && !done.last().1
    &&& ok == (done.len() == plan.len() && (done.len() == 0 || done.last().1))
}

/// The requests of the log entries `done`.
pub open spec fn requests_of(done: Seq<(BackendRequest, bool)>) -> Seq<BackendRequest> {
    done.map_values(|e: (BackendRequest, bool)| e.0)
}

/// Every request logged in `done` succeeded.
pub open spec fn all_succeeded(done: Seq<(BackendRequest, bool)>) -> bool {
    forall|i: int| 0 <= i < done.len() ==> (#[trigger] done[i]).1
}

/// `done` made the first requests of `plan`, each with success, and `left`
/// is what remains of it.
#[verifier::opaque]
spec fn made_so_far(plan: Seq<BackendRequest>, done: Seq<(BackendRequest, bool)>, left: Seq<BackendRequest>) -> bool {
    plan == requests_of(done) + left && all_succeeded(done)
}

/// A request made on its own is a plan of one, run.
proof fn lemma_single(req: BackendRequest, ok: bool)
    ensures
        ran_until_failure(seq![req], seq![(req, ok)], ok),
{
    reveal(ran_until_failure);
}

/// Running the next part `sub` of a plan after its first requests were
/// made with success either makes the plan up to the rest `left2`, or fails
/// it there.
proof fn lemma_made_then(
    plan: Seq<BackendRequest>,
    done: Seq<(BackendRequest, bool)>,
    left: Seq<BackendRequest>,
    sub: Seq<BackendRequest>,
    more: Seq<(BackendRequest, bool)>,
    ok: bool,
    left2: Seq<BackendRequest>,
)
    requires
        made_so_far(plan, done, left),
        left == sub + left2,
        ran_until_failure(sub, more, ok),
    ensures
        ok ==> made_so_far(plan, done + more, left2),
        !ok ==> ran_until_failure(plan, done + more, false),
{
    reveal(ran_until_failure);
    reveal(made_so_far);
    let d = done + more;
    let n = done.len();
    assert(requests_of(done).len() == n);
    if ok {
        assert(more.len() == sub.len());
        assert(all_succeeded(more)) by {
            assert forall|i: int| 0 <= i < more.len() implies (#[trigger] more[i]).1 by {
                if i < more.len() - 1 {
                } else {
                    assert(more[i] == more.last());
                }
            }
        }
        assert(requests_of(d) =~= requests_of(done) + sub);
        assert(plan =~= requests_of(d) + left2);
        assert(all_succeeded(d)) by {
            assert forall|i: int| 0 <= i < d.len() implies (#[trigger] d[i]).1 by {
                if i < n {
                    assert(d[i] == done[i]);
                } else {
                    assert(d[i] == more[i - n]);
                }
            }
        }
    } else {
        assert(more.len() > 0);
        assert forall|i: int| 0 <= i < d.len() implies (#[trigger] d[i]).0 == plan[i] by {
            if i < n {
                assert(d[i] == done[i]);
                assert(plan[i] == requests_of(done)[i]);
            } else {
                assert(d[i] == more[i - n]);
                assert(plan[i] == left[i - n]);
                assert(left[i - n] == sub[i - n]);
            }
        }
        assert forall|i: int| 0 <= i < d.len() - 1 implies (#[trigger] d[i]).1 by {
            if i < n {
                assert(d[i] == done[i]);
            } else {
                assert(d[i] == more[i - n]);
            }
        }
        assert(d.last() == more.last());
        assert(d.len() <= plan.len());
    }
}

/// A plan whose every request was made with success has run.
proof fn lemma_made_all(plan: Seq<BackendRequest>, done: Seq<(BackendRequest, bool)>)
    requires
        made_so_far(plan, done, Seq::empty()),
    ensures
        ran_until_failure(plan, done, true),
{
    reveal(ran_until_failure);
    reveal(made_so_far);
    assert(plan =~= requests_of(done));
    if done.len() > 0 {
        assert(done.last() == done[done.len() - 1]);
    }
}

/// The terminal as the model sees it.
pub struct TerminalModel<B> {
    pub backend: B,
    /// The surface of the frame being drawn.
    pub current_raw: RawSurfaceModel,
    /// The surface of the frame drawn last.
    pub previous_raw: RawSurfaceModel,
    pub cursor_kind: CursorKind,
    pub viewport: Viewport,
    /// Whether the next flush clears the terminal first.
    pub force_clear: bool,
    /// The requests this terminal has made of its backend, in order, each
    /// with whether it succeeded.
    pub sent: Seq<(BackendRequest, bool)>,
}

/// What a flush of the terminal `m` asks of the backend, in order: the
/// deferred clear, if one is pending; the ids written in the frame; the
/// explicit deletes, if any; then, in one synchronized frame, the writes of
/// images the previous frame did not write, if any (see [`image_plan`]).
#[verifier::opaque]
pub open spec fn flush_requests<B>(m: TerminalModel<B>) -> Seq<BackendRequest> {
    let to_delete = m.current_raw.pending_deletes;
    let to_draw = first_sightings(m.current_raw.writes, m.previous_raw.writes);
    (if m.force_clear {
        seq![BackendRequest::Clear]
    } else {
        Seq::empty()
    }) + seq![BackendRequest::SyncImages(write_ids(m.current_raw.writes))] + (if to_delete.len() > 0 {
        seq![BackendRequest::DeleteImages(to_delete)]
    } else {
        Seq::empty()
    }) + seq![BackendRequest::BeginFrame] + (if to_draw.len() > 0 {
        seq![BackendRequest::DrawRaw(to_draw)]
    } else {
        Seq::empty()
    }) + seq![BackendRequest::EndFrame]
}

/// The terminal `m` after it is made to follow the size `size`: unchanged
/// where the viewport already has that size, else resized and cleared as
/// [`Terminal::resize`] does.
pub open spec fn resized_to<B>(m: TerminalModel<B>, size: Rect) -> TerminalModel<B> {
    if size == m.viewport.area {
        m
    } else {
        TerminalModel {
            force_clear: true,
            previous_raw: empty_surface(),
            viewport: Viewport { area: size, ..m.viewport },
            ..m
        }
    }
}

/// What a draw asks of the backend within its one synchronized output,
/// once the terminal is `m`: the start of the output, a flush, the cursor
/// moved to `cursor_position` if given and given the shape `cursor_kind`,
/// and the end of the output.
#[verifier::opaque]
pub open spec fn frame_requests<B>(
    m: TerminalModel<B>,
    cursor_position: Option<(u16, u16)>,
    cursor_kind: CursorKind,
) -> Seq<BackendRequest> {
    seq![BackendRequest::StartSync] + flush_requests(m) + (match cursor_position {
        Some((x, y)) => seq![BackendRequest::SetCursor(x, y)],
        None => Seq::empty(),
    }) + seq![
        if cursor_kind == CursorKind::Hidden {
            BackendRequest::HideCursor
        } else {
            BackendRequest::ShowCursor(cursor_kind)
        },
        BackendRequest::EndSync,
    ]
}

/// What a draw asks of the backend once the terminal is `m`, resized: the
/// requests of its synchronized output (see [`frame_requests`]), then a
/// flush of the backend.
pub open spec fn draw_requests<B>(
    m: TerminalModel<B>,
    cursor_position: Option<(u16, u16)>,
    cursor_kind: CursorKind,
) -> Seq<BackendRequest> {
    frame_requests(m, cursor_position, cursor_kind) + seq![BackendRequest::Flush]
}

/// The front end of a terminal: it keeps two graphics surfaces, the frame
/// being drawn and the one drawn last, and swaps them after each draw.
pub struct Terminal<B: Backend> {
    backend: B,
    graphics: [RawSurface; 2],
    /// The index of the surface being drawn.
    current: usize,
    cursor_kind: CursorKind,
    viewport: Viewport,
    force_clear: bool,
    sent: Ghost<Seq<(BackendRequest, bool)>>,
}

impl<B: Backend> View for Terminal<B> {
    type V = TerminalModel<B>;

    closed spec fn view(&self) -> TerminalModel<B> {
        TerminalModel {
            backend: self.backend,
            current_raw: self.graphics@[self.current as int]@,
            previous_raw: self.graphics@[1 - self.current]@,
            cursor_kind: self.cursor_kind,
            viewport: self.viewport,
            force_clear: self.force_clear,
            sent: self.sent@,
        }
    }
}

impl<B: Backend> Terminal<B> {
    /// The index of the current surface is 0 or 1.
    pub closed spec fn wf(&self) -> bool {
        self.current < 2
    }

    /// A terminal drawing to `options.viewport`, with empty surfaces and a
    /// block cursor.
    pub fn with_options(backend: B, options: TerminalOptions) -> (r: Result<Terminal<B>, std::io::Error>)
        ensures
            match r {
                Ok(t) => {
                    &&& t.wf()
                    &&& t@.backend == backend
                    &&& t@.current_raw == empty_surface()
                    &&& t@.previous_raw == empty_surface()
                    &&& t@.cursor_kind == CursorKind::Block
                    &&& t@.viewport == options.viewport
                    &&& !t@.force_clear
                    &&& t@.sent == Seq::<(BackendRequest, bool)>::empty()
                },
                Err(_) => false,
            },
    {
        Ok(Terminal {
            backend,
            graphics: [RawSurface::new(), RawSurface::new()],
            current: 0,
            cursor_kind: CursorKind::Block,
            viewport: options.viewport,
            force_clear: false,
            sent: Ghost(Seq::empty()),
        })
    }

    /// A terminal over the whole of the backend's area (80 by 24 cells
    /// where the backend cannot tell its size), following its size.
    pub fn new(backend: B) -> (r: Result<Terminal<B>, std::io::Error>)
        ensures
            match r {
                Ok(t) => {
                    &&& t.wf()
                    &&& t@.backend == backend
                    &&& t@.current_raw == empty_surface()
                    &&& t@.previous_raw == empty_surface()
                    &&& t@.cursor_kind == CursorKind::Block
                    &&& t@.viewport.resize_behavior == ResizeBehavior::Auto
                    &&& backend.reports_state() ==> (t@.viewport.area == backend.area() || t@.viewport.area
                        == (Rect { x: 0, y: 0, width: 80, height: 24 }))
                    &&& !t@.force_clear
                    &&& t@.sent == Seq::<(BackendRequest, bool)>::empty()
                },
                Err(_) => false,
            },
    {
        let size = match backend.size() {
            Ok(size) => size,
            Err(_) => default_terminal_size(),
        };
        Terminal::with_options(
            backend,
            TerminalOptions { viewport: Viewport { area: size, resize_behavior: ResizeBehavior::Auto } },
        )
    }

    /// Claims the terminal for drawing.
    pub fn claim(&mut self) -> (r: Result<(), std::io::Error>)
        ensures
            final(self)@ == (TerminalModel {
                backend: final(self)@.backend,
                sent: old(self)@.sent.push((BackendRequest::Claim, r is Ok)),
                ..old(self)@
            }),
            final(self).wf() == old(self).wf(),
            old(self)@.backend.reports_state() ==> {
                &&& final(self)@.backend.reports_state()
                &&& final(self)@.backend.requests() == old(self)@.backend.requests().push(BackendRequest::Claim)
            },
            old(self)@.backend.reports_state() && r is Ok ==> final(self)@.backend.claimed(),
    {
        let r = self.backend.claim();
        proof {
            self.sent@ = self.sent@.push((BackendRequest::Claim, r is Ok));
        }
        r
    }

    /// Passes new settings on to the backend.
    pub fn reconfigure(&mut self, config: Config) -> (r: Result<(), std::io::Error>)
        ensures
            final(self)@ == (TerminalModel {
                backend: final(self)@.backend,
                sent: old(self)@.sent.push((BackendRequest::Reconfigure(config), r is Ok)),
                ..old(self)@
            }),
            final(self).wf() == old(self).wf(),
            old(self)@.backend.reports_state() ==> {
                &&& final(self)@.backend.reports_state()
                &&& final(self)@.backend.requests() == old(self)@.backend.requests().push(BackendRequest::Reconfigure(config))
            },
            old(self)@.backend.reports_state() && r is Ok ==> final(self)@.backend.settings() == config,
    {
        let r = self.backend.reconfigure(config);
        proof {
            self.sent@ = self.sent@.push((BackendRequest::Reconfigure(config), r is Ok));
        }
        r
    }

    /// Gives the terminal back in its normal state.
    pub fn restore(&mut self) -> (r: Result<(), std::io::Error>)
        ensures
            final(self)@ == (TerminalModel {
                backend: final(self)@.backend,
                sent: old(self)@.sent.push((BackendRequest::Restore, r is Ok)),
                ..old(self)@
            }),
            final(self).wf() == old(self).wf(),
            old(self)@.backend.reports_state() ==> {
                &&& final(self)@.backend.reports_state()
                &&& final(self)@.backend.requests() == old(self)@.backend.requests().push(BackendRequest::Restore)
            },
            old(self)@.backend.reports_state() && r is Ok ==> !final(self)@.backend.claimed(),
    {
        let r = self.backend.restore();
        proof {
            self.sent@ = self.sent@.push((BackendRequest::Restore, r is Ok));
        }
        r
    }

    /// The graphics surface of the frame being drawn.
    pub fn current_raw_mut(&mut self) -> (r: &mut RawSurface)
        requires
            old(self).wf(),
        ensures
            r@ == old(self)@.current_raw,
            final(self)@ == (TerminalModel { current_raw: final(r)@, ..old(self)@ }),
            final(self).wf(),
    {
        &mut self.graphics[self.current]
    }

    /// The backend.
    pub fn backend(&self) -> (r: &B)
        ensures
            *r == self@.backend,
    {
        &self.backend
    }

    /// The backend, to change.
    pub fn backend_mut(&mut self) -> (r: &mut B)
        ensures
            *r == old(self)@.backend,
            final(self)@ == (TerminalModel { backend: *final(r), ..old(self)@ }),
            final(self).wf() == old(self).wf(),
    {
        &mut self.backend
    }

    /// The shape of the cursor.
    pub fn cursor_kind(&self) -> (r: CursorKind)
        ensures
            r == self@.cursor_kind,
    {
        self.cursor_kind
    }

    /// Hides the cursor; the cursor counts as hidden once the backend has
    /// hidden it.
    pub fn hide_cursor(&mut self) -> (r: Result<(), std::io::Error>)
        ensures
            final(self)@ == (TerminalModel {
                backend: final(self)@.backend,
                cursor_kind: if r is Ok {
                    CursorKind::Hidden
                } else {
                    old(self)@.cursor_kind
                },
                sent: old(self)@.sent.push((BackendRequest::HideCursor, r is Ok)),
                ..old(self)@
            }),
            final(self).wf() == old(self).wf(),
            old(self)@.backend.reports_state() ==> {
                &&& final(self)@.backend.reports_state()
                &&& final(self)@.backend.requests() == old(self)@.backend.requests().push(BackendRequest::HideCursor)
            },
            old(self)@.backend.reports_state() && r is Ok ==> {
                &&& final(self)@.backend.reports_state()
                &&& final(self)@.backend.shown_cursor() == CursorKind::Hidden
                &&& final(self)@.backend.cursor_at() == old(self)@.backend.cursor_at()
            },
    {
        let r = self.backend.hide_cursor();
        proof {
            self.sent@ = self.sent@.push((BackendRequest::HideCursor, r is Ok));
        }
        r?;
        self.cursor_kind = CursorKind::Hidden;
        Ok(())
    }

    /// Shows the cursor with the shape `kind`, once the backend has.
    pub fn show_cursor(&mut self, kind: CursorKind) -> (r: Result<(), std::io::Error>)
        ensures
            final(self)@ == (TerminalModel {
                backend: final(self)@.backend,
                cursor_kind: if r is Ok {
                    kind
                } else {
                    old(self)@.cursor_kind
                },
                sent: old(self)@.sent.push((BackendRequest::ShowCursor(kind), r is Ok)),
                ..old(self)@
            }),
            final(self).wf() == old(self).wf(),
            old(self)@.backend.reports_state() ==> {
                &&& final(self)@.backend.reports_state()
                &&& final(self)@.backend.requests() == old(self)@.backend.requests().push(BackendRequest::ShowCursor(kind))
            },
            old(self)@.backend.reports_state() && r is Ok ==> {
                &&& final(self)@.backend.reports_state()
                &&& final(self)@.backend.shown_cursor() == kind
                &&& final(self)@.backend.cursor_at() == old(self)@.backend.cursor_at()
            },
    {
        let r = self.backend.show_cursor(kind);
        proof {
            self.sent@ = self.sent@.push((BackendRequest::ShowCursor(kind), r is Ok));
        }
        r?;
        self.cursor_kind = kind;
        Ok(())
    }

    /// Moves the cursor to `(x, y)`.
    pub fn set_cursor(&mut self, x: u16, y: u16) -> (r: Result<(), std::io::Error>)
        ensures
            final(self)@ == (TerminalModel {
                backend: final(self)@.backend,
                sent: old(self)@.sent.push((BackendRequest::SetCursor(x, y), r is Ok)),
                ..old(self)@
            }),
            final(self).wf() == old(self).wf(),
            old(self)@.backend.reports_state() ==> {
                &&& final(self)@.backend.reports_state()
                &&& final(self)@.backend.requests() == old(self)@.backend.requests().push(BackendRequest::SetCursor(x, y))
            },
            old(self)@.backend.reports_state() && r is Ok ==> {
                &&& final(self)@.backend.reports_state()
                &&& final(self)@.backend.cursor_at() == (x, y)
            },
    {
        let r = self.backend.set_cursor(x, y);
        proof {
            self.sent@ = self.sent@.push((BackendRequest::SetCursor(x, y), r is Ok));
        }
        r
    }

    /// Asks for the terminal to be cleared and wholly redrawn at the next
    /// draw: the erase itself waits for the next flush, so that it shares a
    /// frame with the repaint, and the previous frame's surface is emptied
    /// so that every image is sent again.
    pub fn clear(&mut self) -> (r: Result<(), std::io::Error>)
        requires
            old(self).wf(),
        ensures
            r is Ok,
            final(self)@ == (TerminalModel {
                force_clear: true,
                previous_raw: empty_surface(),
                ..old(self)@
            }),
            final(self).wf(),
    {
        self.force_clear = true;
        self.graphics[1 - self.current].clear();
        Ok(())
    }

    /// The size of the terminal as the backend tells it, or 80 by 24 cells
    /// where it cannot.
    pub fn size(&self) -> (r: Rect)
        ensures
            self@.backend.reports_state() ==> r == self@.backend.area() || r == (Rect {
                x: 0,
                y: 0,
                width: 80,
                height: 24,
            }),
    {
        match self.backend.size() {
            Ok(size) => size,
            Err(_) => default_terminal_size(),
        }
    }

    /// Makes the viewport `area`, and clears as [`Terminal::clear`] does.
    pub fn resize(&mut self, area: Rect) -> (r: Result<(), std::io::Error>)
        requires
            old(self).wf(),
        ensures
            r is Ok,
            final(self)@ == (TerminalModel {
                force_clear: true,
                previous_raw: empty_surface(),
                viewport: Viewport { area, ..old(self)@.viewport },
                ..old(self)@
            }),
            final(self).wf(),
    {
        self.viewport.area = area;
        self.clear()
    }
}

/// What a flush asks depends on the surfaces and the pending clear alone.
proof fn lemma_flush_requests_same<B>(a: TerminalModel<B>, b: TerminalModel<B>)
    requires
        a.current_raw == b.current_raw,
        a.previous_raw == b.previous_raw,
        a.force_clear == b.force_clear,
    ensures
        flush_requests(a) == flush_requests(b),
{
    reveal(flush_requests);
}

/// The requests of a log grown by `more` are those of the log followed by
/// those of `more`.
proof fn lemma_requests_more(
    base: Seq<BackendRequest>,
    done: Seq<(BackendRequest, bool)>,
    more: Seq<(BackendRequest, bool)>,
)
    ensures
        base + requests_of(done + more) == (base + requests_of(done)) + requests_of(more),
        base + requests_of(Seq::<(BackendRequest, bool)>::empty()) == base,
        more.len() == 1 ==> (base + requests_of(done)) + requests_of(more) == (base + requests_of(done)).push(
            more[0].0,
        ),
{
    assert(requests_of(done + more) =~= requests_of(done) + requests_of(more));
    assert(base + (requests_of(done) + requests_of(more)) =~= (base + requests_of(done)) + requests_of(more));
    assert(base + requests_of(Seq::<(BackendRequest, bool)>::empty()) =~= base);
    if more.len() == 1 {
        assert((base + requests_of(done)) + requests_of(more) =~= (base + requests_of(done)).push(more[0].0));
    }
}

/// A log grown by `b` starts with what it held, and what it gained is `b`.
proof fn lemma_log_grows(a: Seq<(BackendRequest, bool)>, b: Seq<(BackendRequest, bool)>)
    ensures
        a.is_prefix_of(a + b),
        (a + b).skip(a.len() as int) == b,
        b.len() > 0 ==> (a + b)[a.len() as int] == b[0],
{
    assert((a + b).skip(a.len() as int) =~= b);
    assert((a + b).take(a.len() as int) =~= a);
}

/// An empty surface, as the model sees it.
pub open spec fn empty_surface() -> RawSurfaceModel {
    RawSurfaceModel { writes: Seq::empty(), pending_deletes: Seq::empty() }
}

impl<B: Backend> Terminal<B> {
    /// Resizes to the size the backend tells (80 by 24 cells where it
    /// cannot), where it differs from the viewport's, and returns that
    /// size.
    pub fn autoresize(&mut self) -> (r: Result<Rect, std::io::Error>)
        requires
            old(self).wf(),
        ensures
            final(self).wf(),
            match r {
                Ok(size) => {
                    &&& final(self)@ == resized_to(old(self)@, size)
                    &&& old(self)@.backend.reports_state() ==> size == old(self)@.backend.area() || size == (Rect {
                        x: 0,
                        y: 0,
                        width: 80,
                        height: 24,
                    })
                },
                Err(_) => false,
            },
    {
        let size = self.size();
        if size != self.viewport.area {
            self.resize(size)?;
        }
        Ok(size)
    }

    /// Sends the frame being drawn to the backend: the requests of
    /// [`flush_requests`], in order, up to the first that fails. The pending
    /// clear is dropped once the backend has cleared; the surfaces themselves
    /// are left as they are.
    #[verifier::rlimit(60)]
    pub fn flush(&mut self) -> (r: Result<(), std::io::Error>)
        requires
            old(self).wf(),
        ensures
            final(self).wf(),
            final(self)@ == (TerminalModel {
                backend: final(self)@.backend,
                force_clear: final(self)@.force_clear,
                sent: final(self)@.sent,
                ..old(self)@
            }),
            old(self)@.sent.is_prefix_of(final(self)@.sent),
            ran_until_failure(flush_requests(old(self)@), final(self)@.sent.skip(old(self)@.sent.len() as int), r is Ok),
            final(self)@.force_clear == (old(self)@.force_clear && !final(self)@.sent[old(self)@.sent.len() as int].1),
            r is Ok ==> !final(self)@.force_clear,
            old(self)@.backend.reports_state() ==> {
                &&& final(self)@.backend.reports_state()
                &&& final(self)@.backend.requests() == old(self)@.backend.requests() + requests_of(
                    final(self)@.sent.skip(old(self)@.sent.len() as int),
                )
            },
    {
        let ghost start = self@;
        let ghost plan = flush_requests(start);
        let ghost to_delete = start.current_raw.pending_deletes;
        let ghost to_draw = first_sightings(start.current_raw.writes, start.previous_raw.writes);
        let ghost r_end = seq![BackendRequest::EndFrame];
        let ghost r_draw = (if to_draw.len() > 0 {
            seq![BackendRequest::DrawRaw(to_draw)]
        } else {
            Seq::empty()
        }) + r_end;
        let ghost r_begin = seq![BackendRequest::BeginFrame] + r_draw;
        let ghost r_del = (if to_delete.len() > 0 {
            seq![BackendRequest::DeleteImages(to_delete)]
        } else {
            Seq::empty()
        }) + r_begin;
        let ghost r_sync = seq![BackendRequest::SyncImages(write_ids(start.current_raw.writes))] + r_del;
        let ghost mut done: Seq<(BackendRequest, bool)> = Seq::empty();
        let ghost mut left = plan;
        proof {
            reveal(flush_requests);
            assert(plan =~= (if start.force_clear {
                seq![BackendRequest::Clear]
            } else {
                Seq::empty()
            }) + r_sync);
            assert(made_so_far(plan, done, left)) by {
                reveal(made_so_far);
                assert(requests_of(done) + left =~= left);
            }
            assert(start.sent + done =~= start.sent);
            lemma_requests_more(start.backend.requests(), done, done);
        }
        if self.force_clear {
            let res = self.backend.clear();
            proof {
                let e = (BackendRequest::Clear, res is Ok);
                lemma_single(BackendRequest::Clear, res is Ok);
                lemma_made_then(plan, done, left, seq![BackendRequest::Clear], seq![e], res is Ok, r_sync);
                lemma_requests_more(start.backend.requests(), done, seq![e]);
                assert(self.sent@.push(e) =~= start.sent + (done + seq![e]));
                self.sent@ = self.sent@.push(e);
                done = done + seq![e];
                left = r_sync;
                lemma_log_grows(start.sent, done);
            }
            if res.is_err() {
                return res;
            }
            self.force_clear = false;
        } else {
            proof {
                assert(left =~= r_sync);
                left = r_sync;
            }
        }
        proof {
            assert(start.force_clear ==> done.len() == 1 && done[0] == (BackendRequest::Clear, true));
            assert(!start.force_clear ==> done.len() == 0);
        }
        let images = image_plan(&self.graphics[self.current], &self.graphics[1 - self.current]);
        proof {
            assert(self.graphics@[self.current as int]@ == start.current_raw);
            assert(self.graphics@[1 - self.current]@ == start.previous_raw);
        }
        let res = self.backend.sync_images(images.current_ids.as_slice());
        proof {
                let e = (BackendRequest::SyncImages(images.current_ids@), res is Ok);
                lemma_single(BackendRequest::SyncImages(images.current_ids@), res is Ok);
                lemma_made_then(plan, done, left, seq![BackendRequest::SyncImages(images.current_ids@)], seq![e], res is Ok, r_del);
                lemma_requests_more(start.backend.requests(), done, seq![e]);
                assert(self.sent@.push(e) =~= start.sent + (done + seq![e]));
                self.sent@ = self.sent@.push(e);
                done = done + seq![e];
                left = r_del;
                lemma_log_grows(start.sent, done);
        }
        match res {
            Ok(_) => {},
            Err(e) => {
                return Err(e);
            },
        }
        proof {
            assert(start.force_clear ==> done[0] == (BackendRequest::Clear, true));
        }
        if images.to_delete.len() > 0 {
                let res = self.backend.delete_images(images.to_delete.as_slice());
                proof {
                    let e = (BackendRequest::DeleteImages(images.to_delete@), res is Ok);
                    lemma_single(BackendRequest::DeleteImages(images.to_delete@), res is Ok);
                    lemma_made_then(plan, done, left, seq![BackendRequest::DeleteImages(images.to_delete@)], seq![e], res is Ok, r_begin);
                    lemma_requests_more(start.backend.requests(), done, seq![e]);
                    assert(self.sent@.push(e) =~= start.sent + (done + seq![e]));
                    self.sent@ = self.sent@.push(e);
                    done = done + seq![e];
                    left = r_begin;
                    lemma_log_grows(start.sent, done);
                }
            if res.is_err() {
                return res;
            }
        } else {
            proof {
                assert(left =~= r_begin);
                left = r_begin;
            }
        }
        proof {
            assert(start.force_clear ==> done[0] == (BackendRequest::Clear, true));
        }
        let res = self.backend.begin_frame();
        proof {
                let e = (BackendRequest::BeginFrame, res is Ok);
                lemma_single(BackendRequest::BeginFrame, res is Ok);
                lemma_made_then(plan, done, left, seq![BackendRequest::BeginFrame], seq![e], res is Ok, r_draw);
                lemma_requests_more(start.backend.requests(), done, seq![e]);
                assert(self.sent@.push(e) =~= start.sent + (done + seq![e]));
                self.sent@ = self.sent@.push(e);
                done = done + seq![e];
                left = r_draw;
                lemma_log_grows(start.sent, done);
        }
        if res.is_err() {
            return res;
        }
        proof {
            assert(start.force_clear ==> done[0] == (BackendRequest::Clear, true));
        }
        if images.to_draw.len() > 0 {
                let res = self.backend.draw_raw(images.to_draw.as_slice());
                proof {
                    let e = (BackendRequest::DrawRaw(images.to_draw@), res is Ok);
                    lemma_single(BackendRequest::DrawRaw(images.to_draw@), res is Ok);
                    lemma_made_then(plan, done, left, seq![BackendRequest::DrawRaw(images.to_draw@)], seq![e], res is Ok, r_end);
                    lemma_requests_more(start.backend.requests(), done, seq![e]);
                    assert(self.sent@.push(e) =~= start.sent + (done + seq![e]));
                    self.sent@ = self.sent@.push(e);
                    done = done + seq![e];
                    left = r_end;
                    lemma_log_grows(start.sent, done);
                }
            if res.is_err() {
                return res;
            }
        } else {
            proof {
                assert(left =~= r_end);
                left = r_end;
            }
        }
        proof {
            assert(start.force_clear ==> done[0] == (BackendRequest::Clear, true));
        }
        let res = self.backend.end_frame();
        proof {
                let e = (BackendRequest::EndFrame, res is Ok);
                lemma_single(BackendRequest::EndFrame, res is Ok);
                lemma_made_then(plan, done, left, seq![BackendRequest::EndFrame], seq![e], res is Ok, Seq::<BackendRequest>::empty());
                lemma_requests_more(start.backend.requests(), done, seq![e]);
                assert(self.sent@.push(e) =~= start.sent + (done + seq![e]));
                self.sent@ = self.sent@.push(e);
                done = done + seq![e];
                left = Seq::<BackendRequest>::empty();
                lemma_log_grows(start.sent, done);
        }
        if res.is_err() {
            return res;
        }
        proof {
            lemma_made_all(plan, done);
            assert(start.force_clear ==> done[0] == (BackendRequest::Clear, true));
        }
        Ok(())
    }

    /// The synchronized output of a draw: the requests of
    /// [`frame_requests`], in order, up to the first that fails. The
    /// surfaces and the viewport are left as they are.
    #[verifier::rlimit(60)]
    fn draw_frame(&mut self, cursor_position: Option<(u16, u16)>, cursor_kind: CursorKind) -> (r: Result<
        (),
        std::io::Error,
    >)
        requires
            old(self).wf(),
        ensures
            final(self).wf(),
            final(self)@.current_raw == old(self)@.current_raw,
            final(self)@.previous_raw == old(self)@.previous_raw,
            final(self)@.viewport == old(self)@.viewport,
            old(self)@.sent.is_prefix_of(final(self)@.sent),
            old(self)@.backend.reports_state() ==> {
                &&& final(self)@.backend.reports_state()
                &&& final(self)@.backend.requests() == old(self)@.backend.requests() + requests_of(
                    final(self)@.sent.skip(old(self)@.sent.len() as int),
                )
            },
            ran_until_failure(
                frame_requests(old(self)@, cursor_position, cursor_kind),
                final(self)@.sent.skip(old(self)@.sent.len() as int),
                r is Ok,
            ),
            r is Ok ==> {
                &&& final(self)@.cursor_kind == cursor_kind
                &&& !final(self)@.force_clear
                &&& old(self)@.backend.reports_state() ==> {
                    &&& final(self)@.backend.reports_state()
                    &&& final(self)@.backend.shown_cursor() == cursor_kind
                    &&& (cursor_position matches Some(p) ==> final(self)@.backend.cursor_at() == p)
                }
            },
    {
        let ghost start = self@;
        let ghost plan = frame_requests(start, cursor_position, cursor_kind);
        let ghost r_end_sync = seq![BackendRequest::EndSync];
        let ghost kind_request = if cursor_kind == CursorKind::Hidden {
            BackendRequest::HideCursor
        } else {
            BackendRequest::ShowCursor(cursor_kind)
        };
        let ghost r_kind = seq![kind_request] + r_end_sync;
        let ghost r_cursor = (match cursor_position {
            Some((x, y)) => seq![BackendRequest::SetCursor(x, y)],
            None => Seq::empty(),
        }) + r_kind;
        let ghost r_frame = flush_requests(start) + r_cursor;
        let ghost mut done: Seq<(BackendRequest, bool)> = Seq::empty();
        let ghost mut left = plan;
        proof {
            assert(plan =~= seq![BackendRequest::StartSync] + r_frame) by {
                reveal(frame_requests);
            }
            assert(made_so_far(plan, done, left)) by {
                reveal(made_so_far);
                assert(requests_of(done) + left =~= left);
            }
            assert(start.sent + done =~= start.sent);
            lemma_requests_more(start.backend.requests(), done, done);
        }
        let res = self.backend.start_sync();
        proof {
            let e = (BackendRequest::StartSync, res is Ok);
            lemma_single(BackendRequest::StartSync, res is Ok);
            lemma_made_then(plan, done, left, seq![BackendRequest::StartSync], seq![e], res is Ok, r_frame);
            lemma_requests_more(start.backend.requests(), done, seq![e]);
            assert(self.sent@.push(e) =~= start.sent + (done + seq![e]));
            self.sent@ = self.sent@.push(e);
            done = done + seq![e];
            left = r_frame;
            lemma_log_grows(start.sent, done);
        }
        if res.is_err() {
            return res;
        }
        let ghost before = self@;
        let res = self.flush();
        proof {
            let more = self@.sent.skip(before.sent.len() as int);
            lemma_flush_requests_same(before, start);
            lemma_made_then(plan, done, left, flush_requests(start), more, res is Ok, r_cursor);
            lemma_requests_more(start.backend.requests(), done, more);
            assert(self@.sent =~= before.sent + more);
            assert(before.sent + more =~= start.sent + (done + more));
            done = done + more;
            left = r_cursor;
            lemma_log_grows(start.sent, done);
        }
        if res.is_err() {
            return res;
        }
        match cursor_position {
            Some((x, y)) => {
                let res = self.set_cursor(x, y);
                proof {
                    let e = (BackendRequest::SetCursor(x, y), res is Ok);
                    lemma_single(BackendRequest::SetCursor(x, y), res is Ok);
                    lemma_made_then(plan, done, left, seq![BackendRequest::SetCursor(x, y)], seq![e], res is Ok, r_kind);
                    lemma_requests_more(start.backend.requests(), done, seq![e]);
                    assert(self@.sent =~= start.sent + (done + seq![e]));
                    done = done + seq![e];
                    left = r_kind;
                    lemma_log_grows(start.sent, done);
                }
                if res.is_err() {
                    return res;
                }
            },
            None => {
                proof {
                    assert(left =~= r_kind);
                    left = r_kind;
                }
            },
        }
        let res = match cursor_kind {
            CursorKind::Hidden => self.hide_cursor(),
            kind => self.show_cursor(kind),
        };
        proof {
            let e = (kind_request, res is Ok);
            lemma_single(kind_request, res is Ok);
            lemma_made_then(plan, done, left, seq![kind_request], seq![e], res is Ok, r_end_sync);
            lemma_requests_more(start.backend.requests(), done, seq![e]);
            assert(self@.sent =~= start.sent + (done + seq![e]));
            done = done + seq![e];
            left = r_end_sync;
            lemma_log_grows(start.sent, done);
        }
        if res.is_err() {
            return res;
        }
        let res = self.backend.end_sync();
        proof {
            let e = (BackendRequest::EndSync, res is Ok);
            lemma_single(BackendRequest::EndSync, res is Ok);
            lemma_made_then(plan, done, left, seq![BackendRequest::EndSync], seq![e], res is Ok, Seq::empty());
            lemma_requests_more(start.backend.requests(), done, seq![e]);
            assert(self.sent@.push(e) =~= start.sent + (done + seq![e]));
            self.sent@ = self.sent@.push(e);
            done = done + seq![e];
            left = Seq::empty();
            lemma_log_grows(start.sent, done);
        }
        if res.is_err() {
            return res;
        }
        proof {
            lemma_made_all(plan, done);
        }
        Ok(())
    }

    /// Draws a frame: follows the terminal's size as [`Terminal::autoresize`]
    /// does, then makes the requests of [`draw_requests`], in order, up to
    /// the first that fails: in one synchronized output, flushes the frame,
    /// moves the cursor to `cursor_position` if given and gives it the shape
    /// `cursor_kind`; then makes the frame just drawn the previous one,
    /// starts the next on an empty surface, and flushes the backend.
    pub fn draw(&mut self, cursor_position: Option<(u16, u16)>, cursor_kind: CursorKind) -> (r: Result<
        (),
        std::io::Error,
    >)
        requires
            old(self).wf(),
        ensures
            final(self).wf(),
            final(self)@.viewport == (Viewport { area: final(self)@.viewport.area, ..old(self)@.viewport }),
            old(self)@.backend.reports_state() ==> final(self)@.viewport.area == old(self)@.backend.area()
                || final(self)@.viewport.area == (Rect { x: 0, y: 0, width: 80, height: 24 }),
            old(self)@.sent.is_prefix_of(final(self)@.sent),
            old(self)@.backend.reports_state() ==> {
                &&& final(self)@.backend.reports_state()
                &&& final(self)@.backend.requests() == old(self)@.backend.requests() + requests_of(
                    final(self)@.sent.skip(old(self)@.sent.len() as int),
                )
            },
            ran_until_failure(
                draw_requests(resized_to(old(self)@, final(self)@.viewport.area), cursor_position, cursor_kind),
                final(self)@.sent.skip(old(self)@.sent.len() as int),
                r is Ok,
            ),
            r is Ok ==> {
                &&& final(self)@.current_raw == empty_surface()
                &&& final(self)@.previous_raw == old(self)@.current_raw
                &&& final(self)@.cursor_kind == cursor_kind
                &&& !final(self)@.force_clear
                &&& old(self)@.backend.reports_state() ==> {
                    &&& final(self)@.backend.reports_state()
                    &&& final(self)@.backend.shown_cursor() == cursor_kind
                    &&& (cursor_position matches Some(p) ==> final(self)@.backend.cursor_at() == p)
                }
            },
    {
        let size = self.autoresize()?;
        let ghost start = self@;
        let ghost plan = draw_requests(start, cursor_position, cursor_kind);
        let ghost frame = frame_requests(start, cursor_position, cursor_kind);
        let ghost done: Seq<(BackendRequest, bool)> = Seq::empty();
        proof {
            assert(start == resized_to(old(self)@, start.viewport.area));
            assert(made_so_far(plan, done, plan)) by {
                reveal(made_so_far);
                assert(requests_of(done) + plan =~= plan);
            }
        }
        let res = self.draw_frame(cursor_position, cursor_kind);
        let ghost more = self@.sent.skip(start.sent.len() as int);
        proof {
            lemma_made_then(plan, done, plan, frame, more, res is Ok, seq![BackendRequest::Flush]);
            lemma_requests_more(start.backend.requests(), done, more);
            assert(self@.sent =~= start.sent + more);
            assert(done + more =~= more);
            lemma_log_grows(start.sent, more);
        }
        if res.is_err() {
            return res;
        }
        self.graphics[1 - self.current].clear();
        self.current = 1 - self.current;
        let res = self.backend.flush();
        proof {
            let e = (BackendRequest::Flush, res is Ok);
            lemma_single(BackendRequest::Flush, res is Ok);
            lemma_made_then(plan, more, seq![BackendRequest::Flush], seq![BackendRequest::Flush], seq![e], res is Ok, Seq::empty());
            lemma_requests_more(start.backend.requests(), more, seq![e]);
            assert(self.sent@.push(e) =~= start.sent + (more + seq![e]));
            self.sent@ = self.sent@.push(e);
            lemma_log_grows(start.sent, more + seq![e]);
            if res is Ok {
                lemma_made_all(plan, more + seq![e]);
            }
        }
        res
    }
}

} // verus!
