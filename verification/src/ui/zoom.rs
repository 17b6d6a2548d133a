//! How the viewer scales and moves a picture: by keys, by the wheel, by pinching
//! and by dragging, and where the picture then lies.
use vstd::arithmetic::power2::{
    lemma2_to64, lemma2_to64_rest, lemma_pow2_pos, lemma_pow2_strictly_increases, pow2,
};
use vstd::prelude::*;

use crate::double::{
    half_is_within, magnitude_is_within, magnitudes_are_ordered, nearest_is_nearest, of_whole,
    product_is_within, rounding_keeps_order, scaled_ratio_error, sum_is_a_number, sum_is_at_least,
    sum_is_within, units, whole_is_exact, whole_is_within, Double, NOT_A_NUMBER, ONE, TWO, ZERO,
};
use crate::precision::quotient_is_near;
use crate::ui::place::percent_is_a_hundred_times_the_scale;
use crate::ui::viewer::{viewport, viewport_rect, MediaViewer};

verus! {

/// The bits of the least scale, one tenth.
pub const MIN_SCALE: u64 = 0x3fb9_9999_9999_999a;

/// The bits of the greatest scale, ten.
pub const MAX_SCALE: u64 = 0x4024_0000_0000_0000;

/// The bits of the distance below which scrolling is ignored, two hundredths.
pub const SCROLL_DEADZONE: u64 = 0x3f94_7ae1_47ae_147b;

/// The bits of the distance that makes one step of scrolling, one half.
pub const SCROLL_STEP_UNIT: u64 = 0x3fe0_0000_0000_0000;

/// How many steps one turn of the wheel makes at most.
pub const SCROLL_MAX_STEPS: u32 = 16;

/// The bits of the change of scale below which nothing changes, a billionth.
pub const SAME_SCALE: u64 = 0x3e11_2e0b_e826_d695;

/// The bits of the distance below which the picture is not moved, one hundredth.
pub const SAME_PLACE: u64 = 0x3f84_7ae1_47ae_147b;

/// The bits of a hundred.
pub const HUNDRED: u64 = 0x4059_0000_0000_0000;

/// How a picture is scaled and moved, and where it was put last.
#[derive(Clone, Copy, PartialEq, Eq, Structural, Debug)]
pub struct PictureView {
    pub scale: Double,
    pub pan_x: Double,
    pub pan_y: Double,
    /// The scrolling that has not made a whole step yet.
    pub scroll: Double,
    /// The scale when a pinch began.
    pub pinch_scale: Double,
    /// How far the picture was moved when a drag began.
    pub drag_x: Double,
    pub drag_y: Double,
    /// The size that was asked for last; below zero if none was.
    pub last_width: i32,
    pub last_height: i32,
    /// Where the picture was put last; no number if nowhere.
    pub last_x: Double,
    pub last_y: Double,
}

/// What is to be done to the picture: a size to ask for, a place to put it, and
/// whether it is worth decoding at its full size.
#[derive(Clone, Copy, PartialEq, Eq, Debug)]
pub struct Placement {
    pub size: Option<(i32, i32)>,
    pub position: Option<(Double, Double)>,
    pub full_decode: bool,
}

/// A scale kept within its bounds.
pub open spec fn bounded(scale: Double) -> Double {
    scale.clamped(Double { bits: MIN_SCALE }, Double { bits: MAX_SCALE })
}

/// A side of the picture at a scale.
pub open spec fn scaled(side: u32, scale: Double) -> Double {
    of_whole(side as nat).product(scale)
}

/// Where something of the given length begins that is centred in a room.
pub open spec fn centered(start: int, room: int, length: Double) -> Double {
    of_whole(start as nat).sum(
        of_whole(room as nat).sum(length.opposite()).quotient(Double { bits: TWO }),
    )
}

/// A length in whole pixels.
pub open spec fn pixels(length: Double) -> i32 {
    let n = length.nearest_whole();
    if n > i32::MAX {
        i32::MAX
    } else {
        n as i32
    }
}

/// Whether two places differ so much that the picture is to be moved.
pub open spec fn is_far(a: Double, b: Double) -> bool {
    Double { bits: SAME_PLACE }.less(a.sum(b.opposite()).absolute())
}

impl PictureView {
    /// Neither scaled nor moved, and put nowhere yet.
    pub open spec fn reset(self) -> PictureView {
        PictureView {
            scale: Double { bits: ONE },
            pan_x: Double { bits: ZERO },
            pan_y: Double { bits: ZERO },
            scroll: Double { bits: ZERO },
            ..self.forgotten()
        }
    }

    /// Put nowhere yet.
    pub open spec fn forgotten(self) -> PictureView {
        PictureView {
            last_width: (-1) as i32,
            last_height: (-1) as i32,
            last_x: Double { bits: NOT_A_NUMBER },
            last_y: Double { bits: NOT_A_NUMBER },
            ..self
        }
    }

    /// Where a picture lies across, in a viewport of the given place and size.
    pub open spec fn left(self, width: u32, x: int, room: int) -> Double {
        centered(x, room, scaled(width, self.scale)).sum(self.pan_x)
    }

    /// Where a picture lies down, in a viewport of the given place and size.
    pub open spec fn top(self, height: u32, y: int, room: int) -> Double {
        centered(y, room, scaled(height, self.scale)).sum(self.pan_y)
    }

    /// The size that is to be asked for: none if it is that of before.
    pub open spec fn size_to_ask(self, width: u32, height: u32) -> Option<(i32, i32)> {
        let w = pixels(scaled(width, self.scale));
        let h = pixels(scaled(height, self.scale));
        if w != self.last_width || h != self.last_height {
            Some((w, h))
        } else {
            None
        }
    }

    /// Where the picture is to be put: nowhere if it lies there.
    pub open spec fn place_to_take(
        self,
        width: u32,
        height: u32,
        x: int,
        y: int,
        room_w: int,
        room_h: int,
    ) -> Option<(Double, Double)> {
        let left = self.left(width, x, room_w);
        let top = self.top(height, y, room_h);
        if self.last_x.nan() || self.last_y.nan() || is_far(left, self.last_x) || is_far(
            top,
            self.last_y,
        ) {
            Some((left, top))
        } else {
            None
        }
    }

    /// The view after it was put where and asked for what it is to be.
    pub open spec fn done(self, size: Option<(i32, i32)>, position: Option<(Double, Double)>) -> PictureView {
        let sized = match size {
            Some((w, h)) => PictureView { last_width: w, last_height: h, ..self },
            None => self,
        };
        match position {
            Some((x, y)) => PictureView { last_x: x, last_y: y, ..sized },
            None => sized,
        }
    }

    /// A picture of one to one, in the middle.
    pub fn new() -> (r: Self)
        ensures
            r == r.reset(),
            r.pinch_scale == (Double { bits: ONE }),
            r.drag_x == (Double { bits: ZERO }),
            r.drag_y == (Double { bits: ZERO }),
    {
        PictureView {
            scale: Double { bits: ONE },
            pan_x: Double { bits: ZERO },
            pan_y: Double { bits: ZERO },
            scroll: Double { bits: ZERO },
            pinch_scale: Double { bits: ONE },
            drag_x: Double { bits: ZERO },
            drag_y: Double { bits: ZERO },
            last_width: -1,
            last_height: -1,
            last_x: Double { bits: NOT_A_NUMBER },
            last_y: Double { bits: NOT_A_NUMBER },
        }
    }

    /// Forgets where the picture was put.
    pub fn forget(&mut self)
        ensures
            *final(self) == old(self).forgotten(),
    {
        self.last_width = -1;
        self.last_height = -1;
        self.last_x = Double { bits: NOT_A_NUMBER };
        self.last_y = Double { bits: NOT_A_NUMBER };
    }

    /// Undoes all scaling and moving.
    pub fn restart(&mut self)
        ensures
            *final(self) == old(self).reset(),
    {
        self.scale = Double { bits: ONE };
        self.pan_x = Double { bits: ZERO };
        self.pan_y = Double { bits: ZERO };
        self.scroll = Double { bits: ZERO };
        self.forget();
    }
}

/// Keeps a scale within its bounds.
pub fn bound_scale(scale: Double) -> (r: Double)
    ensures
        r == bounded(scale),
{
    proof {
        magnitudes_are_ordered(MIN_SCALE as int, MAX_SCALE as int);
    }
    scale.clamp(Double { bits: MIN_SCALE }, Double { bits: MAX_SCALE })
}

fn scale_side(side: u32, scale: Double) -> (r: Double)
    ensures
        r == scaled(side, scale),
{
    Double::from_whole(side as u64).times(scale)
}

fn center(start: i32, room: i32, length: Double) -> (r: Double)
    requires
        start >= 0,
        room >= 0,
    ensures
        r == centered(start as int, room as int, length),
{
    let gap = Double::from_whole(room as u64).minus(length).over(Double { bits: TWO });
    Double::from_whole(start as u64).plus(gap)
}

fn whole_pixels(length: Double) -> (r: i32)
    ensures
        r == pixels(length),
{
    let n: u32 = length.round_to_whole();
    if n > i32::MAX as u32 {
        i32::MAX
    } else {
        n as i32
    }
}

/// Whether two scales are the same, or so near that it does not matter.
pub open spec fn is_same_scale(a: Double, b: Double) -> bool {
    a.sum(b.opposite()).absolute().less(Double { bits: SAME_SCALE })
}

fn moves(a: Double, b: Double) -> (r: bool)
    ensures
        r == is_far(a, b),
{
    Double { bits: SAME_PLACE }.is_less(a.minus(b).abs())
}

/// Whether a scale is within its bounds.
pub open spec fn is_bounded(scale: Double) -> bool {
    Double { bits: MIN_SCALE }.at_most(scale) && scale.at_most(Double { bits: MAX_SCALE })
}

/// What is to be asked for, and where a picture is to be put, in a viewer of the
/// given size. A video is not placed.
pub open spec fn placing(viewer: MediaViewer, full_w: i32, full_h: i32) -> (
    Option<(i32, i32)>,
    Option<(Double, Double)>,
) {
    match viewport(full_w, full_h) {
        Some((x, y, w, h)) if !viewer.is_video => (
            viewer.view.size_to_ask(viewer.image_width, viewer.image_height),
            viewer.view.place_to_take(
                viewer.image_width,
                viewer.image_height,
                x as int,
                y as int,
                w as int,
                h as int,
            ),
        ),
        _ => (None, None),
    }
}

/// Whether a viewer is another with its picture placed, and that is what is to be
/// done.
pub open spec fn is_placed(
    changed: MediaViewer,
    full_w: i32,
    full_h: i32,
    after: MediaViewer,
    r: Placement,
) -> bool {
    let (size, position) = placing(changed, full_w, full_h);
    &&& r.size == size
    &&& r.position == position
    &&& after == MediaViewer { view: changed.view.done(size, position), ..changed }
}

/// The viewer at another scale.
pub open spec fn at_scale(viewer: MediaViewer, scale: Double, by_user: bool) -> MediaViewer {
    MediaViewer {
        view: PictureView { scale: bounded(scale), ..viewer.view },
        user_interacted: viewer.user_interacted || by_user,
        ..viewer
    }
}

/// Whether a viewer is another at another scale, with its picture placed.
pub open spec fn is_scaled(
    before: MediaViewer,
    scale: Double,
    by_user: bool,
    full_w: i32,
    full_h: i32,
    after: MediaViewer,
    r: Placement,
) -> bool {
    &&& is_placed(at_scale(before, scale, by_user), full_w, full_h, after, r)
    &&& r.full_decode == (!before.is_video && Double { bits: ONE }.less(bounded(scale)))
}

/// Whether nothing is to be done.
pub open spec fn is_nothing(r: Placement) -> bool {
    r.size is None && r.position is None && !r.full_decode
}

/// The viewer with its picture moved.
pub open spec fn moved(viewer: MediaViewer, pan_x: Double, pan_y: Double) -> MediaViewer {
    MediaViewer {
        view: PictureView { pan_x, pan_y, ..viewer.view },
        user_interacted: true,
        ..viewer
    }
}

/// The scale at which a picture fits a room: never more than one.
pub open spec fn fit_scale(room_w: int, room_h: int, width: u32, height: u32) -> Double {
    let w = of_whole(room_w as nat).quotient(of_whole(width as nat));
    let h = of_whole(room_h as nat).quotient(of_whole(height as nat));
    w.smaller(h).smaller(Double { bits: ONE })
}

/// Whether a point lies along a side of the picture.
pub open spec fn is_along(pointer: Double, edge: Double, length: Double) -> bool {
    edge.at_most(pointer) && pointer.at_most(edge.sum(length))
}

/// What counts as the place of the pointer: beside the picture, its nearest edge.
pub open spec fn anchor_of(pointer: Double, edge: Double, length: Double, inside: bool) -> Double {
    if inside {
        pointer
    } else {
        pointer.clamped(edge, edge.sum(length))
    }
}

/// Along one side: how far the picture is moved so that what lies under the pointer
/// stays there at another scale. Beside the picture, its nearest edge counts as what
/// lies under the pointer.
pub open spec fn anchored_pan(
    start: int,
    room: int,
    side: u32,
    scale: Double,
    new_scale: Double,
    pan: Double,
    pointer: Double,
    inside: bool,
) -> Double {
    let length = scaled(side, scale);
    let edge = centered(start, room, length).sum(pan);
    let anchor = anchor_of(pointer, edge, length, inside);
    let point = anchor.sum(edge.opposite()).quotient(scale);
    let new_edge = anchor.sum(point.product(new_scale).opposite());
    new_edge.sum(centered(start, room, scaled(side, new_scale)).opposite())
}

/// The viewer with its picture moved so that what lies under the pointer stays there
/// at another scale.
pub open spec fn anchored(
    viewer: MediaViewer,
    pointer_x: Double,
    pointer_y: Double,
    scale: Double,
    room: (i32, i32, i32, i32),
) -> MediaViewer {
    let v = viewer.view;
    let (x, y, w, h) = room;
    let inside = is_along(
        pointer_x,
        v.left(viewer.image_width, x as int, w as int),
        scaled(viewer.image_width, v.scale),
    ) && is_along(
        pointer_y,
        v.top(viewer.image_height, y as int, h as int),
        scaled(viewer.image_height, v.scale),
    );
    moved(
        viewer,
        anchored_pan(
            x as int,
            w as int,
            viewer.image_width,
            v.scale,
            scale,
            v.pan_x,
            pointer_x,
            inside,
        ),
        anchored_pan(
            y as int,
            h as int,
            viewer.image_height,
            v.scale,
            scale,
            v.pan_y,
            pointer_y,
            inside,
        ),
    )
}

/// Whether the edges of a picture along one axis are numbers in order.
pub open spec fn edges_in_order(start: int, room: int, side: u32, scale: Double, pan: Double) -> bool {
    let length = scaled(side, scale);
    let edge = centered(start, room, length).sum(pan);
    !edge.nan() && edge.at_most(edge.sum(length))
}

/// Whether the picture can be scaled by a factor around a point: nothing is to be done,
/// or its edges are in order.
pub open spec fn can_anchor(viewer: MediaViewer, factor: Double, full_w: i32, full_h: i32) -> bool {
    let v = viewer.view;
    ||| is_same_scale(bounded(v.scale.product(factor)), v.scale)
    ||| viewer.image_width == 0
    ||| viewer.image_height == 0
    ||| match viewport(full_w, full_h) {
        Some((x, y, w, h)) => edges_in_order(
            x as int,
            w as int,
            viewer.image_width,
            v.scale,
            v.pan_x,
        ) && edges_in_order(y as int, h as int, viewer.image_height, v.scale, v.pan_y),
        None => true,
    }
}

/// A picture within the bounds of scaling, and moved by numbers, can be scaled around
/// any point.
pub proof fn bounded_view_can_be_anchored(
    viewer: MediaViewer,
    factor: Double,
    full_w: i32,
    full_h: i32,
)
    requires
        is_bounded(viewer.view.scale),
        !viewer.view.pan_x.nan() && !viewer.view.pan_y.nan(),
    ensures
        can_anchor(viewer, factor, full_w, full_h),
{
    if let Some((x, y, w, h)) = viewport(full_w, full_h) {
        lemma_edges(x, w, viewer.image_width, viewer.view.scale, viewer.view.pan_x);
        lemma_edges(y, h, viewer.image_height, viewer.view.scale, viewer.view.pan_y);
    }
}

/// Whether some scrolling is enough for a step.
pub open spec fn is_step(amount: Double) -> bool {
    Double { bits: SCROLL_STEP_UNIT }.at_most(amount.absolute())
}

/// Whether some scrolling goes down.
pub open spec fn is_down(amount: Double) -> bool {
    Double { bits: ZERO }.less(amount)
}

/// What is left of some scrolling after a step.
pub open spec fn after_step(amount: Double) -> Double {
    if is_down(amount) {
        amount.sum(Double { bits: SCROLL_STEP_UNIT }.opposite())
    } else {
        amount.sum(Double { bits: SCROLL_STEP_UNIT })
    }
}

/// How many steps some scrolling makes, at most the given number, and what is left
/// of it.
pub open spec fn scroll_steps(amount: Double, most: nat) -> (nat, Double)
    decreases most,
{
    if most == 0 || !is_step(amount) {
        (0, amount)
    } else {
        let rest = scroll_steps(after_step(amount), (most - 1) as nat);
        (rest.0 + 1, rest.1)
    }
}

/// The edges of a picture are in order, whatever it is moved by.
proof fn lemma_edges(start: i32, room: i32, side: u32, scale: Double, pan: Double)
    requires
        start >= 0,
        room >= 0,
        is_bounded(scale),
        !pan.nan(),
    ensures
        edges_in_order(start as int, room as int, side, scale, pan),
{
    lemma2_to64();
    lemma2_to64_rest();
    let length = scaled(side, scale);
    assert(scale.within(4) && !scale.negative()) by {
        magnitudes_are_ordered(0, MIN_SCALE as int);
        assert(units(0) == 0);
        if scale.magnitude() > MAX_SCALE {
            magnitudes_are_ordered(MAX_SCALE as int, scale.magnitude());
        }
        magnitude_is_within(scale, 4);
    }
    whole_is_within(side as nat, 32);
    product_is_within(of_whole(side as nat), scale, 32, 4);
    lemma_pow2_strictly_increases(32, 36);
    lemma_pow2_strictly_increases(32, 37);
    whole_is_within(room as nat, 36);
    assert(length.opposite().within(36));
    let gap = of_whole(room as nat).sum(length.opposite());
    sum_is_within(of_whole(room as nat), length.opposite(), 36);
    half_is_within(gap, 37);
    whole_is_within(start as nat, 37);
    let half = gap.quotient(Double { bits: TWO });
    sum_is_within(of_whole(start as nat), half, 37);
    let base = of_whole(start as nat).sum(half);
    sum_is_a_number(base, pan);
    sum_is_at_least(base.sum(pan), length);
}

fn check_edges(start: i32, room: i32, side: u32, scale: Double, pan: Double) -> (r: bool)
    requires
        start >= 0,
        room >= 0,
    ensures
        r == edges_in_order(start as int, room as int, side, scale, pan),
{
    let length = scale_side(side, scale);
    let edge = center(start, room, length).plus(pan);
    edge.is_at_most(edge.plus(length))
}

fn anchor_pan(
    span: (i32, i32),
    side: u32,
    scale: Double,
    new_scale: Double,
    pan: Double,
    pointer: Double,
    inside: bool,
) -> (r: Double)
    requires
        span.0 >= 0,
        span.1 >= 0,
        edges_in_order(span.0 as int, span.1 as int, side, scale, pan),
    ensures
        r == anchored_pan(
            span.0 as int,
            span.1 as int,
            side,
            scale,
            new_scale,
            pan,
            pointer,
            inside,
        ),
{
    let (start, room) = span;
    let length = scale_side(side, scale);
    let edge = center(start, room, length).plus(pan);
    let anchor = if inside {
        pointer
    } else {
        pointer.clamp(edge, edge.plus(length))
    };
    let point = anchor.minus(edge).over(scale);
    let new_edge = anchor.minus(point.times(new_scale));
    new_edge.minus(center(start, room, scale_side(side, new_scale)))
}

/// Scrolling keeps its direction.
pub(crate) proof fn lemma_scroll_direction(amount: Double)
    requires
        is_step(amount),
        is_step(after_step(amount)),
    ensures
        is_down(after_step(amount)) == is_down(amount),
{
    let unit = Double { bits: SCROLL_STEP_UNIT };
    assert(units(0) == 0);
    magnitudes_are_ordered(0, SCROLL_STEP_UNIT as int);
    let v = amount.value() + if is_down(amount) {
        unit.opposite().value()
    } else {
        unit.value()
    };
    nearest_is_nearest(v as nat, 1);
    nearest_is_nearest((-v) as nat, 1);
}

impl MediaViewer {
    /// Places the picture as it is scaled and moved.
    pub fn update_transform(&mut self, full_w: i32, full_h: i32) -> (r: Placement)
        ensures
            is_placed(*old(self), full_w, full_h, *final(self), r),
            !r.full_decode,
    {
        let nothing = Placement { size: None, position: None, full_decode: false };
        if self.is_video {
            return nothing;
        }
        let (x, y, w, h) = match viewport_rect(full_w, full_h) {
            Some(room) => room,
            None => return nothing,
        };
        let width = scale_side(self.image_width, self.view.scale);
        let height = scale_side(self.image_height, self.view.scale);
        let ask_w: i32 = whole_pixels(width);
        let ask_h: i32 = whole_pixels(height);
        let left = center(x, w, width).plus(self.view.pan_x);
        let top = center(y, h, height).plus(self.view.pan_y);
        let place: bool = self.view.last_x.is_nan() || self.view.last_y.is_nan() || moves(
            left,
            self.view.last_x,
        ) || moves(top, self.view.last_y);
        let size: Option<(i32, i32)> = if ask_w != self.view.last_width || ask_h
            != self.view.last_height {
            self.view.last_width = ask_w;
            self.view.last_height = ask_h;
            Some((ask_w, ask_h))
        } else {
            None
        };
        let position: Option<(Double, Double)> = if place {
            self.view.last_x = left;
            self.view.last_y = top;
            Some((left, top))
        } else {
            None
        };
        Placement { size, position, full_decode: false }
    }

    fn set_scale_internal(&mut self, scale: Double, by_user: bool, full_w: i32, full_h: i32) -> (r:
        Placement)
        ensures
            is_scaled(*old(self), scale, by_user, full_w, full_h, *final(self), r),
    {
        let kept = bound_scale(scale);
        self.view.scale = kept;
        if by_user {
            self.user_interacted = true;
        }
        let mut r = self.update_transform(full_w, full_h);
        r.full_decode = !self.is_video && Double { bits: ONE }.is_less(kept);
        r
    }

    /// Scales the picture; the user did so.
    pub fn set_scale(&mut self, scale: Double, full_w: i32, full_h: i32) -> (r: Placement)
        ensures
            is_scaled(*old(self), scale, true, full_w, full_h, *final(self), r),
            final(self).view.scale == bounded(scale),
            final(self).view.pan_x == old(self).view.pan_x,
            final(self).view.pan_y == old(self).view.pan_y,
            final(self).user_interacted,
    {
        self.set_scale_internal(scale, true, full_w, full_h)
    }

    /// Scales the picture by a factor.
    pub fn zoom_by(&mut self, factor: Double, full_w: i32, full_h: i32) -> (r: Placement)
        ensures
            is_scaled(
                *old(self),
                old(self).view.scale.product(factor),
                true,
                full_w,
                full_h,
                *final(self),
                r,
            ),
            final(self).view.scale == bounded(old(self).view.scale.product(factor)),
            final(self).view.pan_x == old(self).view.pan_x,
            final(self).view.pan_y == old(self).view.pan_y,
            final(self).user_interacted,
    {
        let scale = self.view.scale.times(factor);
        self.set_scale_internal(scale, true, full_w, full_h)
    }

    /// Whether the picture can be scaled by a factor around a point.
    pub fn can_zoom_at_point(&self, factor: Double, full_w: i32, full_h: i32) -> (r: bool)
        ensures
            r == can_anchor(*self, factor, full_w, full_h),
    {
        let old_scale = self.view.scale;
        let scale = bound_scale(old_scale.times(factor));
        if scale.minus(old_scale).abs().is_less(Double { bits: SAME_SCALE }) {
            return true;
        }
        if self.image_width == 0 || self.image_height == 0 {
            return true;
        }
        match viewport_rect(full_w, full_h) {
            Some((x, y, w, h)) => check_edges(x, w, self.image_width, old_scale, self.view.pan_x)
                && check_edges(y, h, self.image_height, old_scale, self.view.pan_y),
            None => true,
        }
    }

    /// Scales the picture by a factor so that what lies under the pointer stays
    /// there.
    pub fn zoom_at_point_with_factor(
        &mut self,
        pointer_x: Double,
        pointer_y: Double,
        factor: Double,
        full_w: i32,
        full_h: i32,
    ) -> (r: Placement)
        requires
            can_anchor(*old(self), factor, full_w, full_h),
        ensures
            ({
                let old_scale = old(self).view.scale;
                let scale = bounded(old_scale.product(factor));
                let room = viewport(full_w, full_h);
                if is_same_scale(scale, old_scale) || room is None || old(self).image_width == 0
                    || old(self).image_height == 0 {
                    *final(self) == *old(self) && is_nothing(r)
                } else {
                    is_scaled(
                        anchored(*old(self), pointer_x, pointer_y, scale, room->0),
                        scale,
                        true,
                        full_w,
                        full_h,
                        *final(self),
                        r,
                    )
                }
            }),
    {
        let nothing = Placement { size: None, position: None, full_decode: false };
        let old_scale = self.view.scale;
        let scale = bound_scale(old_scale.times(factor));
        if scale.minus(old_scale).abs().is_less(Double { bits: SAME_SCALE }) {
            return nothing;
        }
        let (x, y, w, h) = match viewport_rect(full_w, full_h) {
            Some(room) => room,
            None => return nothing,
        };
        if self.image_width == 0 || self.image_height == 0 {
            return nothing;
        }
        let width = scale_side(self.image_width, old_scale);
        let height = scale_side(self.image_height, old_scale);
        let left = center(x, w, width).plus(self.view.pan_x);
        let top = center(y, h, height).plus(self.view.pan_y);
        let inside: bool = left.is_at_most(pointer_x) && pointer_x.is_at_most(left.plus(width))
            && top.is_at_most(pointer_y) && pointer_y.is_at_most(top.plus(height));
        let pan_x = anchor_pan(
            (x, w),
            self.image_width,
            old_scale,
            scale,
            self.view.pan_x,
            pointer_x,
            inside,
        );
        let pan_y = anchor_pan(
            (y, h),
            self.image_height,
            old_scale,
            scale,
            self.view.pan_y,
            pointer_y,
            inside,
        );
        self.view.pan_x = pan_x;
        self.view.pan_y = pan_y;
        self.user_interacted = true;
        self.set_scale_internal(scale, true, full_w, full_h)
    }

    /// Scales the picture so that all of it is seen, in the middle; a small picture
    /// stays as it is.
    pub fn fit_to_window(&mut self, full_w: i32, full_h: i32) -> (r: Placement)
        ensures
            match viewport(full_w, full_h) {
                Some((x, y, w, h)) if !old(self).is_video && old(self).image_width > 0 && old(
                    self,
                ).image_height > 0 => is_scaled(
                    MediaViewer {
                        view: PictureView {
                            pan_x: Double { bits: ZERO },
                            pan_y: Double { bits: ZERO },
                            ..old(self).view
                        },
                        ..*old(self)
                    },
                    fit_scale(w as int, h as int, old(self).image_width, old(self).image_height),
                    false,
                    full_w,
                    full_h,
                    *final(self),
                    r,
                ),
                _ => *final(self) == *old(self) && is_nothing(r),
            },
            !old(self).is_video && old(self).image_width > 0 && old(self).image_height > 0 && full_w
                > 0 && full_h > 0 ==> {
                &&& final(self).view.pan_x.bits == ZERO
                &&& final(self).view.pan_y.bits == ZERO
                &&& final(self).user_interacted == old(self).user_interacted
            },
    {
        let nothing = Placement { size: None, position: None, full_decode: false };
        if self.is_video || self.image_width == 0 || self.image_height == 0 {
            return nothing;
        }
        let (_, _, w, h) = match viewport_rect(full_w, full_h) {
            Some(room) => room,
            None => return nothing,
        };
        let scale_w = Double::from_whole(w as u64).over(Double::from_whole(self.image_width as u64));
        let scale_h = Double::from_whole(h as u64).over(
            Double::from_whole(self.image_height as u64),
        );
        let scale = scale_w.min(scale_h).min(Double { bits: ONE });
        self.view.pan_x = Double { bits: ZERO };
        self.view.pan_y = Double { bits: ZERO };
        self.set_scale_internal(scale, false, full_w, full_h)
    }

    /// Moves the picture. A video is not moved.
    pub fn pan_by(&mut self, dx: Double, dy: Double, full_w: i32, full_h: i32) -> (r: Placement)
        ensures
            !r.full_decode,
            if old(self).is_video {
                *final(self) == *old(self) && is_nothing(r)
            } else {
                is_placed(
                    moved(*old(self), old(self).view.pan_x.sum(dx), old(self).view.pan_y.sum(dy)),
                    full_w,
                    full_h,
                    *final(self),
                    r,
                )
            },
            !old(self).is_video ==> {
                &&& final(self).view.pan_x == old(self).view.pan_x.sum(dx)
                &&& final(self).view.pan_y == old(self).view.pan_y.sum(dy)
                &&& final(self).view.scale == old(self).view.scale
                &&& final(self).user_interacted
            },
    {
        if self.is_video {
            return Placement { size: None, position: None, full_decode: false };
        }
        self.view.pan_x = self.view.pan_x.plus(dx);
        self.view.pan_y = self.view.pan_y.plus(dy);
        self.user_interacted = true;
        self.update_transform(full_w, full_h)
    }

    /// Undoes all scaling and moving.
    pub fn reset_view(&mut self, full_w: i32, full_h: i32) -> (r: Placement)
        ensures
            !r.full_decode,
            is_placed(
                MediaViewer { view: old(self).view.reset(), ..*old(self) },
                full_w,
                full_h,
                *final(self),
                r,
            ),
            final(self).view.scale.bits == ONE,
            final(self).view.pan_x.bits == ZERO,
            final(self).view.pan_y.bits == ZERO,
    {
        self.view.restart();
        self.update_transform(full_w, full_h)
    }

    /// A pinch begins.
    pub fn pinch_begin(&mut self)
        ensures
            *final(self) == (MediaViewer {
                view: PictureView { pinch_scale: old(self).view.scale, ..old(self).view },
                ..*old(self)
            }),
    {
        self.view.pinch_scale = self.view.scale;
    }

    /// Scales the picture by a factor from what it was when the pinch began. A video
    /// is not scaled.
    pub fn pinch_update(&mut self, factor: Double, full_w: i32, full_h: i32) -> (r: Placement)
        ensures
            if old(self).is_video {
                *final(self) == *old(self) && is_nothing(r)
            } else {
                is_scaled(
                    *old(self),
                    bounded(old(self).view.pinch_scale.product(factor)),
                    true,
                    full_w,
                    full_h,
                    *final(self),
                    r,
                )
            },
            !old(self).is_video ==> {
                &&& final(self).view.scale == bounded(
                    bounded(old(self).view.pinch_scale.product(factor)),
                )
                &&& final(self).view.pan_x == old(self).view.pan_x
                &&& final(self).view.pan_y == old(self).view.pan_y
                &&& final(self).user_interacted
            },
    {
        if self.is_video {
            return Placement { size: None, position: None, full_decode: false };
        }
        let scale = bound_scale(self.view.pinch_scale.times(factor));
        self.set_scale(scale, full_w, full_h)
    }

    /// A drag begins.
    pub fn drag_begin(&mut self)
        ensures
            *final(self) == (MediaViewer {
                view: PictureView {
                    drag_x: old(self).view.pan_x,
                    drag_y: old(self).view.pan_y,
                    ..old(self).view
                },
                ..*old(self)
            }),
    {
        self.view.drag_x = self.view.pan_x;
        self.view.drag_y = self.view.pan_y;
    }

    /// Moves the picture by an offset from where it was when the drag began. A video
    /// is not moved.
    pub fn drag_update(&mut self, offset_x: Double, offset_y: Double, full_w: i32, full_h: i32)
        -> (r: Placement)
        ensures
            !r.full_decode,
            if old(self).is_video {
                *final(self) == *old(self) && is_nothing(r)
            } else {
                is_placed(
                    moved(
                        *old(self),
                        old(self).view.drag_x.sum(offset_x),
                        old(self).view.drag_y.sum(offset_y),
                    ),
                    full_w,
                    full_h,
                    *final(self),
                    r,
                )
            },
            !old(self).is_video ==> {
                &&& final(self).view.pan_x == old(self).view.drag_x.sum(offset_x)
                &&& final(self).view.pan_y == old(self).view.drag_y.sum(offset_y)
                &&& final(self).view.scale == old(self).view.scale
                &&& final(self).user_interacted
            },
    {
        if self.is_video {
            return Placement { size: None, position: None, full_decode: false };
        }
        self.view.pan_x = self.view.drag_x.plus(offset_x);
        self.view.pan_y = self.view.drag_y.plus(offset_y);
        self.user_interacted = true;
        self.update_transform(full_w, full_h)
    }

    /// Takes in some scrolling and gives the steps that it makes: above zero down,
    /// below zero up. Very little scrolling is ignored, and a video is not scaled.
    pub fn scroll(&mut self, dy: Double) -> (r: i32)
        ensures
            if old(self).is_video || dy.absolute().less(Double { bits: SCROLL_DEADZONE }) {
                *final(self) == *old(self) && r == 0
            } else {
                let amount = old(self).view.scroll.sum(dy);
                let (steps, left) = scroll_steps(amount, SCROLL_MAX_STEPS as nat);
                &&& *final(self) == MediaViewer {
                    view: PictureView { scroll: left, ..old(self).view },
                    ..*old(self)
                }
                &&& r == if is_down(amount) {
                    steps as int
                } else {
                    -steps
                }
            },
            r > 0 ==> old(self).view.scroll.sum(dy).value() > 0,
            r < 0 ==> old(self).view.scroll.sum(dy).value() < 0,
    {
        if self.is_video || dy.abs().is_less(Double { bits: SCROLL_DEADZONE }) {
            return 0;
        }
        let unit = Double { bits: SCROLL_STEP_UNIT };
        let amount = self.view.scroll.plus(dy);
        let mut left = amount;
        let mut steps: i32 = 0;
        let mut taken: u32 = 0;
        let ghost all = scroll_steps(amount, SCROLL_MAX_STEPS as nat);
        while taken < SCROLL_MAX_STEPS && unit.is_at_most(left.abs())
            invariant
                taken <= SCROLL_MAX_STEPS,
                unit == (Double { bits: SCROLL_STEP_UNIT }),
                all.0 == taken + scroll_steps(left, (SCROLL_MAX_STEPS - taken) as nat).0,
                all.1 == scroll_steps(left, (SCROLL_MAX_STEPS - taken) as nat).1,
                steps == if is_down(amount) {
                    taken as int
                } else {
                    -taken
                },
                is_step(left) ==> is_down(left) == is_down(amount),
            decreases SCROLL_MAX_STEPS - taken,
        {
            proof {
                if is_step(after_step(left)) {
                    lemma_scroll_direction(left);
                }
            }
            if (Double { bits: ZERO }).is_less(left) {
                steps = steps + 1;
                left = left.minus(unit);
            } else {
                steps = steps - 1;
                left = left.plus(unit);
            }
            taken = taken + 1;
        }
        self.view.scroll = left;
        proof {
            assert(units(0) == 0);
            magnitudes_are_ordered(0, SCROLL_STEP_UNIT as int);
            assert(steps < 0 ==> is_step(amount));
        }
        steps
    }

    /// The scale in whole percent.
    pub fn percent(&self) -> (r: u32)
        ensures
            r == self.view.scale.product(Double { bits: HUNDRED }).whole(),
            is_bounded(self.view.scale) ==> r * pow2(1074) <= 100 * self.view.scale.value() + pow2(
                1034,
            ) && 100 * self.view.scale.value() < (r + 1) * pow2(1074) + pow2(1034),
    {
        proof {
            if is_bounded(self.view.scale) {
                percent_is_a_hundred_times_the_scale(self.view.scale);
            }
        }
        self.view.scale.times(Double { bits: HUNDRED }).to_whole()
    }
}

/// A scale that is a number is kept within its bounds, and one within them is kept
/// as it is.
pub proof fn scale_stays_within_bounds(scale: Double)
    requires
        !scale.nan(),
    ensures
        is_bounded(bounded(scale)),
        is_bounded(scale) ==> bounded(scale) == scale,
{
    magnitudes_are_ordered(MIN_SCALE as int, MAX_SCALE as int);
}

/// A side at the scale at which it fills its room takes no more pixels than the room
/// has, nor does it at a smaller scale.
proof fn lemma_side_fits(room: u32, side: u32, scale: Double)
    requires
        0 < room <= i32::MAX,
        side > 0,
        !scale.nan() && !scale.infinite() && !scale.negative(),
        scale.at_most(of_whole(room as nat).quotient(of_whole(side as nat))),
    ensures
        pixels(scaled(side, scale)) <= room,
{
    let full = of_whole(room as nat).quotient(of_whole(side as nat));
    let r = of_whole(side as nat).product(full);
    let u = pow2(1074);
    let length = scaled(side, scale);
    lemma_pow2_pos(1074);
    whole_is_exact(side as nat);
    scaled_ratio_error(side, room, side);
    let a = of_whole(side as nat).size();
    whole_is_exact(room as nat);
    lemma2_to64();
    whole_is_within(room as nat, 32);
    assert(of_whole(side as nat).size() >= u) by (nonlinear_arith)
        requires
            of_whole(side as nat).size() == side * u,
            side > 0,
    ;
    quotient_is_near(of_whole(room as nat), of_whole(side as nat), 32, 0);
    nearest_is_nearest(of_whole(room as nat).size() * u, of_whole(side as nat).size());
    assert(!full.nan() && !full.infinite() && !full.negative());
    assert(a * scale.size() <= a * full.size()) by (nonlinear_arith)
        requires
            scale.size() <= full.size(),
    ;
    rounding_keeps_order(a * scale.size(), a * full.size(), u);
    nearest_is_nearest(a * scale.size(), u);
    nearest_is_nearest(a * full.size(), u);
    if length.magnitude() < r.magnitude() {
        magnitudes_are_ordered(length.magnitude(), r.magnitude());
    }
    assert(length.size() <= r.size());
    let z = r.size() as int;
    let d = side as int;
    let n = room as int;
    let c: int = 0x20_0000_0000_0000;
    let b: int = 0x1f_ffff_ffff_ffff;
    assert(b * (b * z) <= c * (c * (n * u))) by (nonlinear_arith)
        requires
            c * (c * ((d * n) * u)) >= b * (b * (z * d)),
            d > 0,
    ;
    assert(2 * z < (2 * n + 1) * u) by (nonlinear_arith)
        requires
            b * (b * z) <= c * (c * (n * u)),
            c == 0x20_0000_0000_0000,
            b == 0x1f_ffff_ffff_ffff,
            0 < n <= 0x7fff_ffff,
            u > 0,
    ;
    let l = length.size() as int;
    assert((2 * l + u) / (2 * (u as int)) <= n) by (nonlinear_arith)
        requires
            2 * l < (2 * n + 1) * u,
            u > 0,
    ;
}

/// A picture that is fitted to a room lies within it, to the pixel. A picture more than
/// ten times as large as the room cannot be scaled so far down.
pub proof fn fitted_picture_lies_within(room_w: u32, room_h: u32, width: u32, height: u32)
    requires
        0 < room_w <= i32::MAX && 0 < room_h <= i32::MAX,
        width > 0 && height > 0,
        is_bounded(fit_scale(room_w as int, room_h as int, width, height)),
    ensures
        ({
            let scale = bounded(fit_scale(room_w as int, room_h as int, width, height));
            pixels(scaled(width, scale)) <= room_w && pixels(scaled(height, scale)) <= room_h
        }),
{
    let scale = fit_scale(room_w as int, room_h as int, width, height);
    scaled_ratio_error(width, room_w, width);
    scaled_ratio_error(height, room_h, height);
    let w = of_whole(room_w as nat).quotient(of_whole(width as nat));
    let h = of_whole(room_h as nat).quotient(of_whole(height as nat));
    assert(units(0) == 0);
    magnitudes_are_ordered(0, MIN_SCALE as int);
    if scale.magnitude() > MAX_SCALE {
        magnitudes_are_ordered(MAX_SCALE as int, scale.magnitude());
    }
    assert(!w.nan() && !h.nan());
    assert(scale.at_most(w) && scale.at_most(h));
    lemma_side_fits(room_w, width, scale);
    lemma_side_fits(room_h, height, scale);
}

/// Fitting a picture to the window never enlarges it.
pub proof fn fitting_does_not_enlarge(room_w: int, room_h: int, width: u32, height: u32)
    ensures
        bounded(fit_scale(room_w, room_h, width, height)).at_most(Double { bits: ONE }),
        is_bounded(bounded(fit_scale(room_w, room_h, width, height))),
{
    magnitudes_are_ordered(MIN_SCALE as int, ONE as int);
    magnitudes_are_ordered(ONE as int, MAX_SCALE as int);
}

proof fn lemma_is_not_far_from_itself(a: Double)
    ensures
        !is_far(a, a),
{
    magnitudes_are_ordered(0, SAME_PLACE as int);
    assert(units(0) == 0);
    assert(a.opposite().magnitude() == a.magnitude());
}

/// Placing a picture again where it was placed asks for nothing.
pub proof fn placing_twice_is_placing_once(viewer: MediaViewer, full_w: i32, full_h: i32)
    requires
        is_bounded(viewer.view.scale),
        !viewer.view.pan_x.nan() && !viewer.view.pan_y.nan(),
    ensures
        ({
            let (size, position) = placing(viewer, full_w, full_h);
            let after = MediaViewer { view: viewer.view.done(size, position), ..viewer };
            placing(after, full_w, full_h) == (None::<(i32, i32)>, None::<(Double, Double)>)
        }),
{
    match viewport(full_w, full_h) {
        Some((x, y, w, h)) => {
            lemma_edges(x, w, viewer.image_width, viewer.view.scale, viewer.view.pan_x);
            lemma_edges(y, h, viewer.image_height, viewer.view.scale, viewer.view.pan_y);
            lemma_is_not_far_from_itself(viewer.view.left(viewer.image_width, x as int, w as int));
            lemma_is_not_far_from_itself(viewer.view.top(viewer.image_height, y as int, h as int));
        },
        None => {},
    }
}

} // verus!
