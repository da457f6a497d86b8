//! Decisions of the interactive viewer: what keys do, when to re-sort splats,
//! which splats to draw while the camera moves, and when to report the frame
//! rate.
use vstd::prelude::*;

use crate::renderer::ToneMap;

verus! {

/// How urgently the splats need a new depth sort.
#[derive(Clone, Copy, Debug, PartialEq, Eq, Structural)]
pub enum SortRequest {
    /// The last sort still holds.
    Idle,
    /// The camera is moving: re-sort once the sort interval has passed.
    Throttled,
    /// Re-sort before the next frame.
    Immediate,
}

/// The pointer and sorting state of the viewer.
#[derive(Clone, Copy, Debug, PartialEq, Eq, Structural)]
pub struct ViewerInput {
    /// The left button is held over the scene.
    pub dragging: bool,
    /// A cursor position has been seen since the drag began.
    pub has_cursor: bool,
    /// What the next frame must do about sorting.
    pub sort_request: SortRequest,
}

impl ViewerInput {
    /// A cursor position is only remembered while a drag is under way.
    pub open spec fn wf(self) -> bool {
        self.has_cursor ==> self.dragging
    }

    /// The state of a freshly opened viewer: not dragging, and a sort due.
    pub fn new() -> (r: Self)
        ensures
            r == (ViewerInput { dragging: false, has_cursor: false, sort_request: SortRequest::Immediate }),
            r.wf(),
    {
        ViewerInput { dragging: false, has_cursor: false, sort_request: SortRequest::Immediate }
    }

    /// The left button went down (`pressed`) or up. A press the UI took
    /// ends any drag; releasing the button after a drag asks for a full
    /// sort.
    pub fn left_button(&mut self, pressed: bool, ui_consumed: bool)
        ensures
            old(self).wf() ==> final(self).wf(),
            ui_consumed ==> !final(self).dragging && !final(self).has_cursor && final(self).sort_request
                == old(self).sort_request,
            !ui_consumed ==> final(self).dragging == pressed,
            !ui_consumed && pressed ==> final(self).has_cursor == old(self).has_cursor && final(self).sort_request == old(self).sort_request,
            !ui_consumed && !pressed ==> !final(self).has_cursor && final(self).sort_request == (if old(self).dragging {
                SortRequest::Immediate
            } else {
                old(self).sort_request
            }),
    {
        if ui_consumed {
            self.dragging = false;
            self.has_cursor = false;
        } else {
            let was_dragging = self.dragging;
            self.dragging = pressed;
            if !pressed {
                self.has_cursor = false;
                if was_dragging {
                    self.sort_request = SortRequest::Immediate;
                }
            }
        }
    }

    /// The cursor moved. Returns whether the camera orbits by the distance
    /// from the previous cursor position: only while dragging outside the
    /// UI, with a previous position and a camera. An orbit makes the sort
    /// throttled.
    pub fn cursor_moved(&mut self, ui_consumed: bool, camera_ready: bool) -> (orbit: bool)
        ensures
            old(self).wf() ==> final(self).wf(),
            orbit == (old(self).dragging && !ui_consumed && old(self).has_cursor && camera_ready),
            final(self).dragging == old(self).dragging,
            final(self).has_cursor == (old(self).has_cursor || (old(self).dragging && !ui_consumed)),
            final(self).sort_request == (if orbit {
                SortRequest::Throttled
            } else {
                old(self).sort_request
            }),
    {
        if self.dragging && !ui_consumed {
            let orbit = self.has_cursor && camera_ready;
            if orbit {
                self.sort_request = SortRequest::Throttled;
            }
            self.has_cursor = true;
            orbit
        } else {
            false
        }
    }

    /// The wheel turned. Returns whether the camera zooms: when the UI did
    /// not take the wheel and there is a camera. A zoom makes the sort
    /// throttled.
    pub fn wheel(&mut self, ui_consumed: bool, camera_ready: bool) -> (zoom: bool)
        ensures
            old(self).wf() ==> final(self).wf(),
            zoom == (!ui_consumed && camera_ready),
            final(self).dragging == old(self).dragging,
            final(self).has_cursor == old(self).has_cursor,
            final(self).sort_request == (if zoom {
                SortRequest::Throttled
            } else {
                old(self).sort_request
            }),
    {
        let zoom = !ui_consumed && camera_ready;
        if zoom {
            self.sort_request = SortRequest::Throttled;
        }
        zoom
    }

    /// Something that changes every splat's depth order happened (a resize,
    /// a camera reset, a new SH degree, an explicit request): sort before the
    /// next frame.
    pub fn request_full_sort(&mut self)
        ensures
            old(self).wf() ==> final(self).wf(),
            *final(self) == (ViewerInput { sort_request: SortRequest::Immediate, ..*old(self) }),
    {
        self.sort_request = SortRequest::Immediate;
    }

    /// The state after a frame was drawn; `sorted` tells whether it
    /// re-sorted.
    pub open spec fn after_frame(self, sorted: bool) -> ViewerInput {
        ViewerInput {
            sort_request: if sorted || self.sort_request == SortRequest::Immediate {
                SortRequest::Idle
            } else {
                self.sort_request
            },
            ..self
        }
    }

    /// A frame was drawn; `sorted` tells whether it re-sorted. A sorted
    /// frame, or any frame drawn on an immediate request, settles the
    /// request.
    pub fn frame_drawn(&mut self, sorted: bool)
        ensures
            old(self).wf() ==> final(self).wf(),
            *final(self) == old(self).after_frame(sorted),
    {
        if sorted || self.sort_request == SortRequest::Immediate {
            self.sort_request = SortRequest::Idle;
        }
    }
}

/// A key the viewer responds to.
#[derive(Clone, Copy, Debug, PartialEq, Eq, Structural)]
pub enum ControlKey {
    Escape,
    /// `R`: reset the camera.
    R,
    /// `P`: points or splats.
    P,
    /// `O`: more opacity.
    O,
    /// `I`: less opacity.
    I,
    /// `+`: larger splats.
    Plus,
    /// `-`: smaller splats.
    Minus,
    /// `E`: more exposure.
    E,
    /// `D`: less exposure.
    D,
    /// `T`: next tone mapping.
    T,
    /// A digit key.
    Digit(u8),
}

/// What a key press asks the viewer to do.
#[derive(Clone, Copy, Debug, PartialEq, Eq, Structural)]
pub enum KeyAction {
    Quit,
    ResetCamera,
    TogglePointMode,
    OpacityUp,
    OpacityDown,
    SplatScaleUp,
    SplatScaleDown,
    ExposureUp,
    ExposureDown,
    CycleToneMap,
    /// Evaluate spherical harmonics up to this degree.
    SetShDegree(u32),
}

/// The action bound to `key`: `Esc` quits, `R` resets the camera, `P`
/// toggles point mode, `O`/`I` opacity, `+`/`-` splat scale, `E`/`D`
/// exposure, `T` cycles tone mapping and `0`-`3` pick the SH degree.
pub open spec fn key_binding(key: ControlKey) -> Option<KeyAction> {
    match key {
        ControlKey::Escape => Some(KeyAction::Quit),
        ControlKey::R => Some(KeyAction::ResetCamera),
        ControlKey::P => Some(KeyAction::TogglePointMode),
        ControlKey::O => Some(KeyAction::OpacityUp),
        ControlKey::I => Some(KeyAction::OpacityDown),
        ControlKey::Plus => Some(KeyAction::SplatScaleUp),
        ControlKey::Minus => Some(KeyAction::SplatScaleDown),
        ControlKey::E => Some(KeyAction::ExposureUp),
        ControlKey::D => Some(KeyAction::ExposureDown),
        ControlKey::T => Some(KeyAction::CycleToneMap),
        ControlKey::Digit(d) => if d <= 3 {
            Some(KeyAction::SetShDegree(d as u32))
        } else {
            None
        },
    }
}

/// The action changes which splats are drawn or their order, so the next
/// frame must re-sort.
pub open spec fn needs_full_sort(action: KeyAction) -> bool {
    action == KeyAction::ResetCamera || action == KeyAction::TogglePointMode || action is SetShDegree
}

/// Law: the viewer's keys, as its controls list them: `Esc` quits, `R`
/// resets the camera, `P` toggles point mode, `O`/`I` raise and lower
/// opacity, `+`/`-` grow and shrink splats, `E`/`D` raise and lower
/// exposure, `T` cycles tone mapping, and the digits `0`-`3` choose that SH
/// degree; other digits do nothing. Different keys never do the same thing,
/// and a key taken by the UI does nothing unless it is `Esc`.
pub proof fn lemma_key_bindings(key: ControlKey, other: ControlKey)
    ensures
        key_binding(ControlKey::Escape) == Some(KeyAction::Quit),
        key_binding(ControlKey::R) == Some(KeyAction::ResetCamera),
        key_binding(ControlKey::P) == Some(KeyAction::TogglePointMode),
        key_binding(ControlKey::O) == Some(KeyAction::OpacityUp),
        key_binding(ControlKey::I) == Some(KeyAction::OpacityDown),
        key_binding(ControlKey::Plus) == Some(KeyAction::SplatScaleUp),
        key_binding(ControlKey::Minus) == Some(KeyAction::SplatScaleDown),
        key_binding(ControlKey::E) == Some(KeyAction::ExposureUp),
        key_binding(ControlKey::D) == Some(KeyAction::ExposureDown),
        key_binding(ControlKey::T) == Some(KeyAction::CycleToneMap),
        forall|d: u8| d <= 3 ==> key_binding(ControlKey::Digit(d)) == Some(KeyAction::SetShDegree(d as u32)),
        forall|d: u8| d > 3 ==> key_binding(ControlKey::Digit(d)) is None,
        key != other && key_binding(key) is Some ==> key_binding(key) != key_binding(other),
        key_binding(ControlKey::R) matches Some(a) && needs_full_sort(a),
        key_binding(ControlKey::P) matches Some(a) && needs_full_sort(a),
        forall|d: u8| d <= 3 ==> (#[trigger] key_binding(ControlKey::Digit(d)) matches Some(a) && needs_full_sort(a)),
{
}

impl ViewerInput {
    /// A key was pressed. `Esc` always acts; every other key acts only when
    /// the UI did not take it. Returns the action to carry out, and asks for
    /// a full sort when the action changes the order or the colors sorted.
    pub fn key_pressed(&mut self, key: ControlKey, ui_consumed: bool) -> (action: Option<KeyAction>)
        ensures
            action == (if ui_consumed && key != ControlKey::Escape {
                None
            } else {
                key_binding(key)
            }),
            final(self).dragging == old(self).dragging,
            final(self).has_cursor == old(self).has_cursor,
            final(self).sort_request == (if action matches Some(a) && needs_full_sort(a) {
                SortRequest::Immediate
            } else {
                old(self).sort_request
            }),
            old(self).wf() ==> final(self).wf(),
    {
        if ui_consumed && key != ControlKey::Escape {
            return None;
        }
        let action = match key {
            ControlKey::Escape => Some(KeyAction::Quit),
            ControlKey::R => Some(KeyAction::ResetCamera),
            ControlKey::P => Some(KeyAction::TogglePointMode),
            ControlKey::O => Some(KeyAction::OpacityUp),
            ControlKey::I => Some(KeyAction::OpacityDown),
            ControlKey::Plus => Some(KeyAction::SplatScaleUp),
            ControlKey::Minus => Some(KeyAction::SplatScaleDown),
            ControlKey::E => Some(KeyAction::ExposureUp),
            ControlKey::D => Some(KeyAction::ExposureDown),
            ControlKey::T => Some(KeyAction::CycleToneMap),
            ControlKey::Digit(d) => if d <= 3 {
                Some(KeyAction::SetShDegree(d as u32))
            } else {
                None
            },
        };
        match action {
            Some(KeyAction::ResetCamera) | Some(KeyAction::TogglePointMode) | Some(KeyAction::SetShDegree(_)) => {
                self.sort_request = SortRequest::Immediate;
            },
            _ => {},
        }
        action
    }
}

/// The tone mapping that follows `current`: none, then Reinhard, then
/// ACES, then none again.
pub open spec fn tone_after(current: ToneMap) -> ToneMap {
    match current {
        ToneMap::Off => ToneMap::Reinhard,
        ToneMap::Reinhard => ToneMap::Aces,
        ToneMap::Aces => ToneMap::Off,
    }
}

/// Law: pressing `T` three times brings back the tone mapping it started
/// from.
pub proof fn lemma_tone_cycle(current: ToneMap)
    ensures
        tone_after(tone_after(tone_after(current))) == current,
        tone_after(current) != current,
        tone_after(ToneMap::Off) == ToneMap::Reinhard,
        tone_after(ToneMap::Reinhard) == ToneMap::Aces,
        tone_after(ToneMap::Aces) == ToneMap::Off,
{
}

/// The tone mapping `T` switches to.
pub fn next_tone_map(current: ToneMap) -> (r: ToneMap)
    ensures
        r == tone_after(current),
{
    match current {
        ToneMap::Off => ToneMap::Reinhard,
        ToneMap::Reinhard => ToneMap::Aces,
        ToneMap::Aces => ToneMap::Off,
    }
}

/// Whether a frame re-sorts the splats: always on an immediate request,
/// otherwise once `interval_ms` has passed since the last sort.
pub open spec fn resort_due(request: SortRequest, elapsed_ms: u64, interval_ms: u64) -> bool {
    match request {
        SortRequest::Immediate => true,
        SortRequest::Throttled => elapsed_ms >= interval_ms,
        SortRequest::Idle => elapsed_ms >= interval_ms,
    }
}

/// Whether the next frame re-sorts the splats, `elapsed_ms` after the last
/// sort, with a sort interval of `interval_ms`.
pub fn should_resort(request: SortRequest, elapsed_ms: u64, interval_ms: u64) -> (r: bool)
    ensures
        r == resort_due(request, elapsed_ms, interval_ms),
{
    match request {
        SortRequest::Immediate => true,
        SortRequest::Throttled => elapsed_ms >= interval_ms,
        SortRequest::Idle => elapsed_ms >= interval_ms,
    }
}

/// How many of `total` splats a frame draws: while the camera moves (a
/// throttled sort), at most `interactive_max` of them unless that is 0; at
/// rest, all of them.
pub open spec fn drawn_count(total: usize, request: SortRequest, interactive_max: usize) -> usize {
    if request == SortRequest::Throttled && interactive_max > 0 && interactive_max < total {
        interactive_max
    } else {
        total
    }
}

/// How many of `total` splats the next frame draws.
pub fn drawn_instances(total: usize, request: SortRequest, interactive_max: usize) -> (n: usize)
    ensures
        n == drawn_count(total, request, interactive_max),
        n <= total,
{
    if request == SortRequest::Throttled && interactive_max > 0 && interactive_max < total {
        interactive_max
    } else {
        total
    }
}

/// Law: with a sort interval of zero, every frame re-sorts.
pub proof fn lemma_zero_interval_sorts_at_once(request: SortRequest, elapsed_ms: u64)
    ensures
        resort_due(request, elapsed_ms, 0),
{
}

/// Law: the splats are re-sorted at least once per interval: a frame drawn
/// `interval_ms` or more after the last sort re-sorts, whatever is pending.
pub proof fn lemma_interval_bounds_sort_age(request: SortRequest, elapsed_ms: u64, interval_ms: u64)
    requires
        elapsed_ms >= interval_ms,
    ensures
        resort_due(request, elapsed_ms, interval_ms),
{
}

/// Law: an interactive cap of zero never thins a frame.
pub proof fn lemma_zero_cap_draws_everything(total: usize, request: SortRequest)
    ensures
        drawn_count(total, request, 0) == total,
{
}

/// Law: the viewer returns to full quality after interaction. Once input
/// stops, whatever the state (a capped sort after a zoom or an orbit
/// included), of two frames each drawn at least `interval_ms` after the
/// previous sort, the second re-sorts and keeps every splat, whatever the
/// cap.
pub proof fn lemma_full_quality_after_interaction(
    state: ViewerInput,
    total: usize,
    interactive_max: usize,
    first_elapsed_ms: u64,
    second_elapsed_ms: u64,
    interval_ms: u64,
)
    requires
        first_elapsed_ms >= interval_ms,
        second_elapsed_ms >= interval_ms,
    ensures
        ({
            let next = state.after_frame(resort_due(state.sort_request, first_elapsed_ms, interval_ms));
            &&& resort_due(next.sort_request, second_elapsed_ms, interval_ms)
            &&& drawn_count(total, next.sort_request, interactive_max) == total
        }),
{
}

/// `count` of `total` positions spread evenly, in ascending order: the
/// `i`-th is `i * total / count`.
pub open spec fn thinned(total: nat, count: nat) -> Seq<usize> {
    Seq::new(count, |i: int| ((i * total) / (count as int)) as usize)
}

/// Picks `count` of `total` positions evenly spread over them, for drawing
/// a thinned set of splats.
pub fn thinned_indices(total: usize, count: usize) -> (r: Vec<usize>)
    requires
        count <= total,
    ensures
        r@ == thinned(total as nat, count as nat),
        forall|i: int| 0 <= i < r@.len() ==> #[trigger] r@[i] < total,
        forall|i: int, j: int| 0 <= i < j < r@.len() ==> #[trigger] r@[i] < #[trigger] r@[j],
{
    let mut r: Vec<usize> = Vec::new();
    let mut i: usize = 0;
    while i < count
        invariant
            count <= total,
            i <= count,
            r@ == thinned(total as nat, count as nat).take(i as int),
        decreases count - i,
    {
        proof {
            assert(i <= u64::MAX && total <= u64::MAX);
            assert((i as u128) * (total as u128) <= u64::MAX * u64::MAX) by (nonlinear_arith)
                requires
                    i <= u64::MAX,
                    total <= u64::MAX,
            ;
        }
        let product = i as u128 * total as u128;
        proof {
            assert(i * total < count * total) by (nonlinear_arith)
                requires
                    i < count,
                    total >= 1,
            ;
            vstd::arithmetic::div_mod::lemma_multiply_divide_lt(i * total, count as int, total as int);
            vstd::arithmetic::div_mod::lemma_div_pos_is_pos(i * total, count as int);
            assert(i * total <= u64::MAX * u64::MAX) by (nonlinear_arith)
                requires
                    i <= u64::MAX,
                    total <= u64::MAX,
            ;
        }
        let value = (product / count as u128) as usize;
        r.push(value);
        assert(r@ =~= thinned(total as nat, count as nat).take(i + 1));
        i += 1;
    }
    proof {
        assert(r@ =~= thinned(total as nat, count as nat));
        assert forall|i: int| 0 <= i < r@.len() implies #[trigger] r@[i] < total by {
            assert(i * total < count * total) by (nonlinear_arith)
                requires
                    0 <= i < count,
                    total >= 1,
            ;
            vstd::arithmetic::div_mod::lemma_multiply_divide_lt(i * total, count as int, total as int);
        }
        assert forall|i: int, j: int| 0 <= i < j < r@.len() implies #[trigger] r@[i] < #[trigger] r@[j] by {
            let c = count as int;
            let t = total as int;
            let qi = (i * t) / c;
            vstd::arithmetic::div_mod::lemma_fundamental_div_mod(i * t, c);
            assert(j * t >= i * t + t) by (nonlinear_arith)
                requires
                    i + 1 <= j,
                    t >= 0,
            ;
            assert(c * (qi + 1) == c * qi + c) by (nonlinear_arith);
            assert(j * t >= c * (qi + 1));
            vstd::arithmetic::div_mod::lemma_div_is_ordered(c * (qi + 1), j * t, c);
            vstd::arithmetic::mul::lemma_mul_is_commutative(c, qi + 1);
            vstd::arithmetic::div_mod::lemma_div_multiples_vanish(qi + 1, c);
            assert(j * t < c * t) by (nonlinear_arith)
                requires
                    j < c,
                    t >= 1,
            ;
            vstd::arithmetic::div_mod::lemma_multiply_divide_lt(j * t, c, t);
            vstd::arithmetic::div_mod::lemma_div_pos_is_pos(i * t, c);
            assert(qi < (j * t) / c);
            assert(r@[i] == qi as usize);
            assert(r@[j] == ((j * t) / c) as usize);
        }
    }
    r
}

/// The position of the first marked choice, if any: how the viewer picks
/// the first acceptable surface format, present mode or alpha mode.
pub fn first_marked(marks: &[bool]) -> (r: Option<usize>)
    ensures
        match r {
            Some(i) => i < marks@.len() && marks@[i as int] && forall|j: int| 0 <= j < i ==> !#[trigger] marks@[j],
            None => forall|j: int| 0 <= j < marks@.len() ==> !#[trigger] marks@[j],
        },
{
    let mut i: usize = 0;
    while i < marks.len()
        invariant
            i <= marks@.len(),
            forall|j: int| 0 <= j < i ==> !#[trigger] marks@[j],
        decreases marks.len() - i,
    {
        if marks[i] {
            return Some(i);
        }
        i += 1;
    }
    None
}

/// Counts frames between frame-rate reports.
#[derive(Clone, Copy, Debug, PartialEq, Eq, Structural)]
pub struct FrameCounter {
    /// Frames drawn since the last report.
    pub frames: u64,
}

/// Milliseconds between frame-rate reports.
pub const REPORT_INTERVAL_MS: u64 = 500;

impl FrameCounter {
    /// A counter with no frames counted.
    pub fn new() -> (r: Self)
        ensures
            r.frames == 0,
    {
        FrameCounter { frames: 0 }
    }

    /// Counts one frame, `elapsed_ms` after the last report. Once at least
    /// half a second has passed, returns the frames counted in that time
    /// (this one included) and starts counting afresh.
    pub fn tick(&mut self, elapsed_ms: u64) -> (report: Option<u64>)
        requires
            old(self).frames < u64::MAX,
        ensures
            elapsed_ms >= REPORT_INTERVAL_MS ==> report == Some((old(self).frames + 1) as u64) && final(self).frames
                == 0,
            elapsed_ms < REPORT_INTERVAL_MS ==> report is None && final(self).frames == old(self).frames + 1,
    {
        self.frames = self.frames + 1;
        if elapsed_ms >= REPORT_INTERVAL_MS {
            let frames = self.frames;
            self.frames = 0;
            Some(frames)
        } else {
            None
        }
    }
}

} // verus!
