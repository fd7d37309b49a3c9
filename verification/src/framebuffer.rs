//! The framebuffer: a grid of pixels beside a grid of depths of the same
//! size, written through a depth test.

use vstd::prelude::*;
use crate::binary32::Binary32;
use crate::binary32::INFINITY_BITS;
use crate::color::Color;
use crate::vector::Vector3;

verus! {

/// What a framebuffer holds, as mathematics: both grids in row-major order,
/// and the two colours it remembers.
pub struct Frame {
    pub width: int,
    pub height: int,
    pub colors: Seq<Color>,
    pub depths: Seq<Binary32>,
    pub background: Color,
    pub current: Color,
}

impl Frame {
    /// Both grids have `width * height` cells, and that count fits a 32-bit
    /// index.
    pub open spec fn wf(self) -> bool {
        &&& 0 <= self.width
        &&& 0 <= self.height
        &&& self.width * self.height <= i32::MAX
        &&& self.colors.len() == self.width * self.height
        &&& self.depths.len() == self.width * self.height
    }

    pub open spec fn in_bounds(self, x: int, y: int) -> bool {
        0 <= x < self.width && 0 <= y < self.height
    }

    /// Place of pixel `(x, y)` in the two grids.
    pub open spec fn index(self, x: int, y: int) -> int {
        y * self.width + x
    }

    pub open spec fn color_at(self, x: int, y: int) -> Color {
        self.colors[self.index(x, y)]
    }

    pub open spec fn depth_at(self, x: int, y: int) -> Binary32 {
        self.depths[self.index(x, y)]
    }

    /// Every pixel is the background colour and every depth is positive
    /// infinity: nothing has been drawn.
    pub open spec fn is_blank(self) -> bool {
        &&& forall|i: int| 0 <= i < self.colors.len() ==> #[trigger] self.colors[i] == self.background
        &&& forall|i: int|
            0 <= i < self.depths.len() ==> (#[trigger] self.depths[i]).bits == INFINITY_BITS
    }

    /// The frame with nothing drawn on it.
    pub open spec fn cleared(self) -> Frame {
        Frame {
            colors: Seq::new(self.colors.len(), |i: int| self.background),
            depths: Seq::new(self.depths.len(), |i: int| Binary32 { bits: INFINITY_BITS }),
            ..self
        }
    }

    /// The depth test: the pixel exists and `depth` is strictly below what
    /// it holds.
    pub open spec fn passes(self, x: int, y: int, depth: Binary32) -> bool {
        self.in_bounds(x, y) && depth.lt_spec(self.depth_at(x, y))
    }

    /// The frame after one write: where the depth test passes, the pixel
    /// takes the colour, opaque, and the depth; otherwise nothing changes.
    pub open spec fn plot(self, x: int, y: int, color: Vector3, depth: Binary32) -> Frame {
        if self.passes(x, y, depth) {
            Frame {
                colors: self.colors.update(self.index(x, y), Color::from_unit_spec(color)),
                depths: self.depths.update(self.index(x, y), depth),
                ..self
            }
        } else {
            self
        }
    }
}

/// Distinct pixels of a grid have distinct places, all within the grid.
pub proof fn lemma_index_in_grid(frame: Frame, x: int, y: int)
    requires
        0 <= frame.width,
        0 <= frame.height,
        frame.in_bounds(x, y),
    ensures
        0 <= frame.index(x, y) < frame.width * frame.height,
        frame.index(x, y) / frame.width == y,
        frame.index(x, y) % frame.width == x,
{
    let w = frame.width;
    assert(0 <= y * w && y * w + w <= frame.height * w) by (nonlinear_arith)
        requires
            0 <= y < frame.height,
            0 < w,
    ;
    assert(frame.height * w == w * frame.height) by (nonlinear_arith);
    vstd::arithmetic::div_mod::lemma_fundamental_div_mod_converse(y * w + x, w, y, x);
}

/// A colour grid with its depth grid.
///
/// A pixel's depth is positive infinity until something is drawn on it, and
/// from then on the depth of what its colour was last taken from.
pub struct Framebuffer {
    width: i32,
    height: i32,
    color_buffer: Vec<Color>,
    background_color: Color,
    current_color: Color,
    depth_buffer: Vec<Binary32>,
}

impl View for Framebuffer {
    type V = Frame;

    closed spec fn view(&self) -> Frame {
        Frame {
            width: self.width as int,
            height: self.height as int,
            colors: self.color_buffer@,
            depths: self.depth_buffer@,
            background: self.background_color,
            current: self.current_color,
        }
    }
}

impl Framebuffer {
    #[verifier::type_invariant]
    spec fn inv(&self) -> bool {
        self@.wf()
    }

    /// A blank framebuffer of the given size, with a black background and
    /// white as the current colour.
    pub fn new(width: i32, height: i32) -> (fb: Framebuffer)
        requires
            0 <= width,
            0 <= height,
            width * height <= i32::MAX,
        ensures
            fb@.wf(),
            fb@.width == width,
            fb@.height == height,
            fb@.background == (Color { r: 0, g: 0, b: 0, a: 255 }),
            fb@.current == (Color { r: 255, g: 255, b: 255, a: 255 }),
            fb@.is_blank(),
    {
        let background_color = Color::black();
        assert(0 <= width * height) by (nonlinear_arith)
            requires
                0 <= width,
                0 <= height,
        ;
        let cells: usize = (width * height) as usize;
        let mut color_buffer: Vec<Color> = Vec::new();
        let mut depth_buffer: Vec<Binary32> = Vec::new();
        let mut i: usize = 0;
        while i < cells
            invariant
                i <= cells,
                color_buffer@.len() == i,
                depth_buffer@.len() == i,
                forall|j: int| 0 <= j < i ==> #[trigger] color_buffer@[j] == background_color,
                forall|j: int| 0 <= j < i ==> (#[trigger] depth_buffer@[j]).bits == INFINITY_BITS,
            decreases cells - i,
        {
            color_buffer.push(background_color);
            depth_buffer.push(Binary32::infinity());
            i = i + 1;
        }
        Framebuffer {
            width,
            height,
            color_buffer,
            background_color,
            current_color: Color::white(),
            depth_buffer,
        }
    }

    pub fn width(&self) -> (w: i32)
        ensures
            w == self@.width,
            self@.wf(),
    {
        proof {
            use_type_invariant(self);
        }
        self.width
    }

    pub fn height(&self) -> (h: i32)
        ensures
            h == self@.height,
            self@.wf(),
    {
        proof {
            use_type_invariant(self);
        }
        self.height
    }

    pub fn background_color(&self) -> (c: Color)
        ensures
            c == self@.background,
    {
        self.background_color
    }

    pub fn current_color(&self) -> (c: Color)
        ensures
            c == self@.current,
    {
        self.current_color
    }

    /// The whole colour grid, row by row from the top.
    pub fn pixels(&self) -> (p: &Vec<Color>)
        ensures
            p@ == self@.colors,
            self@.wf(),
    {
        proof {
            use_type_invariant(self);
        }
        &self.color_buffer
    }

    /// Place of an in-bounds pixel in the two buffers.
    fn offset(&self, x: i32, y: i32) -> (i: usize)
        requires
            self@.in_bounds(x as int, y as int),
        ensures
            i == self@.index(x as int, y as int),
            i < self.color_buffer@.len(),
            i < self.depth_buffer@.len(),
    {
        proof {
            use_type_invariant(self);
            lemma_index_in_grid(self@, x as int, y as int);
        }
        (y * self.width + x) as usize
    }

    /// The colour of pixel `(x, y)`, if there is such a pixel.
    pub fn pixel(&self, x: i32, y: i32) -> (p: Option<Color>)
        ensures
            self@.in_bounds(x as int, y as int) ==> p == Some(self@.color_at(x as int, y as int)),
            !self@.in_bounds(x as int, y as int) ==> p.is_none(),
    {
        if x >= 0 && x < self.width && y >= 0 && y < self.height {
            let i = self.offset(x, y);
            Some(self.color_buffer[i])
        } else {
            None
        }
    }

    /// The depth stored for pixel `(x, y)`, if there is such a pixel.
    pub fn depth(&self, x: i32, y: i32) -> (d: Option<Binary32>)
        ensures
            self@.in_bounds(x as int, y as int) ==> d == Some(self@.depth_at(x as int, y as int)),
            !self@.in_bounds(x as int, y as int) ==> d.is_none(),
    {
        if x >= 0 && x < self.width && y >= 0 && y < self.height {
            let i = self.offset(x, y);
            Some(self.depth_buffer[i])
        } else {
            None
        }
    }

    /// Fills the colour grid with the background colour and the depth grid
    /// with positive infinity.
    pub fn clear(&mut self)
        ensures
            final(self)@ == old(self)@.cleared(),
            final(self)@.wf(),
            final(self)@.is_blank(),
    {
        proof {
            use_type_invariant(&*self);
        }
        let cells: usize = self.color_buffer.len();
        let mut i: usize = 0;
        while i < cells
            invariant
                i <= cells,
                self.width == old(self).width,
                self.height == old(self).height,
                self.background_color == old(self).background_color,
                self.current_color == old(self).current_color,
                old(self)@.wf(),
                self.color_buffer@.len() == cells,
                self.depth_buffer@.len() == cells,
                cells == old(self).color_buffer@.len(),
                forall|j: int| 0 <= j < i ==> #[trigger] self.color_buffer@[j] == self.background_color,
                forall|j: int| 0 <= j < i ==> (#[trigger] self.depth_buffer@[j]).bits == INFINITY_BITS,
            decreases cells - i,
        {
            let background = self.background_color;
            self.color_buffer[i] = background;
            self.depth_buffer[i] = Binary32::infinity();
            i = i + 1;
        }
        assert(self@.colors =~= old(self)@.cleared().colors);
        assert(self@.depths =~= old(self)@.cleared().depths);
    }

    /// Writes one fragment to pixel `(x, y)`, unless it lies off the grid or
    /// fails the depth test.
    ///
    /// The test passes when `depth` is strictly below the stored depth, so of
    /// two fragments at equal depth the one written first stays. A passing
    /// fragment stores its depth, and its colour with each channel held to
    /// the range from zero to one, scaled to eight bits, fully opaque.
    pub fn point(&mut self, x: i32, y: i32, color: Vector3, depth: Binary32)
        ensures
            final(self)@ == old(self)@.plot(x as int, y as int, color, depth),
            final(self)@.wf(),
            !old(self)@.in_bounds(x as int, y as int) ==> final(self)@ == old(self)@,
    {
        proof {
            use_type_invariant(&*self);
        }
        if x >= 0 && x < self.width && y >= 0 && y < self.height {
            let index = self.offset(x, y);
            if depth.lt(self.depth_buffer[index]) {
                self.depth_buffer[index] = depth;
                self.color_buffer[index] = Color::from_unit(color);
            }
        }
    }

    /// Writes one fragment whose screen position is given in single
    /// precision: the pixel is the position with its fractional parts
    /// dropped.
    pub fn plot_fragment(&mut self, x: Binary32, y: Binary32, color: Vector3, depth: Binary32)
        ensures
            final(self)@ == old(self)@.plot(x.truncated(), y.truncated(), color, depth),
            final(self)@.wf(),
    {
        self.point(x.to_i32(), y.to_i32(), color, depth);
    }

    pub fn set_background_color(&mut self, color: Color)
        ensures
            final(self)@ == (Frame { background: color, ..old(self)@ }),
            final(self)@.wf(),
    {
        proof {
            use_type_invariant(&*self);
        }
        self.background_color = color;
    }

    pub fn set_current_color(&mut self, color: Color)
        ensures
            final(self)@ == (Frame { current: color, ..old(self)@ }),
            final(self)@.wf(),
    {
        proof {
            use_type_invariant(&*self);
        }
        self.current_color = color;
    }
}

} // verus!
