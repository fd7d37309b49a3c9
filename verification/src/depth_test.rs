//! What the depth test guarantees, of one write, of two, and of any run of
//! writes.

use vstd::prelude::*;
use crate::binary32::Binary32;
use crate::binary32::lemma_below_infinity;
use crate::color::Color;
use crate::vector::Vector3;
use crate::framebuffer::Frame;
use crate::framebuffer::lemma_index_in_grid;

verus! {

/// The arguments of one write to a framebuffer.
pub struct Write {
    pub x: int,
    pub y: int,
    pub color: Vector3,
    pub depth: Binary32,
}

impl Write {
    pub open spec fn targets(self, x: int, y: int) -> bool {
        self.x == x && self.y == y
    }
}

impl Frame {
    /// The frame after a run of writes, made in order.
    pub open spec fn plot_all(self, writes: Seq<Write>) -> Frame
        decreases writes.len(),
    {
        if writes.len() == 0 {
            self
        } else {
            let w = writes.last();
            self.plot_all(writes.drop_last()).plot(w.x, w.y, w.color, w.depth)
        }
    }
}

/// A write keeps the size of the frame and both remembered colours, and
/// touches no pixel but its own.
pub proof fn lemma_plot_frame(frame: Frame, x: int, y: int, color: Vector3, depth: Binary32)
    requires
        frame.wf(),
    ensures
        ({
            let after = frame.plot(x, y, color, depth);
            &&& after.wf()
            &&& after.width == frame.width
            &&& after.height == frame.height
            &&& after.background == frame.background
            &&& after.current == frame.current
            &&& forall|u: int, v: int|
                frame.in_bounds(u, v) && !(u == x && v == y) ==> after.color_at(u, v)
                    == frame.color_at(u, v) && after.depth_at(u, v) == frame.depth_at(u, v)
        }),
{
    let after = frame.plot(x, y, color, depth);
    if frame.passes(x, y, depth) {
        lemma_index_in_grid(frame, x, y);
        assert forall|u: int, v: int| frame.in_bounds(u, v) && !(u == x && v == y) implies
            after.color_at(u, v) == frame.color_at(u, v) && after.depth_at(u, v)
            == frame.depth_at(u, v) by {
            lemma_index_in_grid(frame, u, v);
        }
    }
}

/// A write to a place off the grid changes nothing.
pub proof fn lemma_off_grid_write(frame: Frame, x: int, y: int, color: Vector3, depth: Binary32)
    requires
        !frame.in_bounds(x, y),
    ensures
        frame.plot(x, y, color, depth) == frame,
{
}

/// On a cleared frame every write with a finite depth to a pixel of the grid
/// passes the depth test: the pixel then shows that colour at that depth.
pub proof fn lemma_cleared_takes_finite(
    frame: Frame,
    x: int,
    y: int,
    color: Vector3,
    depth: Binary32,
)
    requires
        frame.wf(),
        frame.in_bounds(x, y),
        depth.is_finite_spec(),
    ensures
        frame.cleared().passes(x, y, depth),
        frame.cleared().plot(x, y, color, depth).color_at(x, y) == Color::from_unit_spec(color),
        frame.cleared().plot(x, y, color, depth).depth_at(x, y) == depth,
{
    lemma_index_in_grid(frame, x, y);
    lemma_below_infinity(depth);
}

/// Two writes to one pixel: the second replaces the first only where its
/// depth is strictly smaller, so at equal depths the first stays.
pub proof fn lemma_nearer_of_two(
    frame: Frame,
    x: int,
    y: int,
    first_color: Vector3,
    first_depth: Binary32,
    second_color: Vector3,
    second_depth: Binary32,
)
    requires
        frame.wf(),
        frame.in_bounds(x, y),
        frame.passes(x, y, first_depth),
    ensures
        ({
            let after = frame.plot(x, y, first_color, first_depth).plot(
                x,
                y,
                second_color,
                second_depth,
            );
            if second_depth.lt_spec(first_depth) {
                after.color_at(x, y) == Color::from_unit_spec(second_color) && after.depth_at(x, y)
                    == second_depth
            } else {
                after.color_at(x, y) == Color::from_unit_spec(first_color) && after.depth_at(x, y)
                    == first_depth
            }
        }),
{
    lemma_index_in_grid(frame, x, y);
}

/// After any run of writes, a pixel holds the nearest of what was written to
/// it, and among writes of that least depth the first.
///
/// In full: no write to the pixel, nor what it held before, is strictly
/// below the stored depth; and either the pixel is as it was, or it shows the
/// colour and depth of one write that was strictly below what the pixel held
/// before and strictly below every earlier write to it whose depth is a
/// number.
pub proof fn lemma_nearest_write_stays(frame: Frame, writes: Seq<Write>, x: int, y: int)
    requires
        frame.wf(),
        frame.in_bounds(x, y),
    ensures
        ({
            let after = frame.plot_all(writes);
            let stored = after.depth_at(x, y);
            &&& after.wf()
            &&& after.width == frame.width
            &&& after.height == frame.height
            &&& !frame.depth_at(x, y).lt_spec(stored)
            &&& forall|i: int|
                0 <= i < writes.len() && (#[trigger] writes[i]).targets(x, y)
                    ==> !writes[i].depth.lt_spec(stored)
            &&& {
                ||| stored == frame.depth_at(x, y) && after.color_at(x, y) == frame.color_at(x, y)
                ||| exists|k: int|
                    0 <= k < writes.len() && is_winner(frame, writes, x, y, k) && stored
                        == writes[k].depth && after.color_at(x, y) == Color::from_unit_spec(
                        writes[k].color,
                    )
            }
        }),
    decreases writes.len(),
{
    if writes.len() > 0 {
        let earlier = writes.drop_last();
        let w = writes.last();
        let mid = frame.plot_all(earlier);
        let after = mid.plot(w.x, w.y, w.color, w.depth);
        lemma_nearest_write_stays(frame, earlier, x, y);
        lemma_plot_frame(mid, w.x, w.y, w.color, w.depth);
        lemma_index_in_grid(mid, x, y);
        assert forall|i: int| 0 <= i < earlier.len() implies earlier[i] == writes[i] by {}
        if w.targets(x, y) && mid.passes(x, y, w.depth) {
            let k = writes.len() - 1;
            assert(is_winner(frame, writes, x, y, k));
        } else {
            if exists|k: int|
                0 <= k < earlier.len() && is_winner(frame, earlier, x, y, k) && mid.depth_at(x, y)
                    == earlier[k].depth && mid.color_at(x, y) == Color::from_unit_spec(
                    earlier[k].color,
                ) {
                let k = choose|k: int|
                    0 <= k < earlier.len() && is_winner(frame, earlier, x, y, k) && mid.depth_at(
                        x,
                        y,
                    ) == earlier[k].depth && mid.color_at(x, y) == Color::from_unit_spec(
                        earlier[k].color,
                    );
                assert(is_winner(frame, writes, x, y, k));
            }
        }
    }
}

/// Write `k` goes to pixel `(x, y)`, strictly below what the pixel held
/// before the run and strictly below every earlier write to it whose depth is
/// a number.
pub open spec fn is_winner(frame: Frame, writes: Seq<Write>, x: int, y: int, k: int) -> bool {
    &&& writes[k].targets(x, y)
    &&& writes[k].depth.lt_spec(frame.depth_at(x, y))
    &&& forall|j: int|
        0 <= j < k && (#[trigger] writes[j]).targets(x, y) ==> writes[j].depth.is_nan_spec()
            || writes[k].depth.lt_spec(writes[j].depth)
}

} // verus!
