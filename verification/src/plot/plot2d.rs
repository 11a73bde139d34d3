//! A two-dimensional plot: a framed canvas with axes and a sampled curve.
use vstd::prelude::*;

use crate::error::ImproError;
use crate::plot::canvas::{layers_render, Canvas};
use crate::plot::node::{blend_of, lemma_rect_pixel, BlendRel, Curve, Rect, Shape};
use crate::plot::{Pixel, Pos};

verus! {

/// The column where a plotted curve starts.
pub const CURVE_X0: usize = 40;

/// The row of a plotted curve's baseline (height zero).
pub const CURVE_Y0: usize = 460;

/// The number of columns a plotted curve spans.
pub const CURVE_WIDTH: usize = 400;

/// The greatest height a plotted curve may reach.
pub const CURVE_HEIGHT: usize = 400;

/// Data to plot: points (not drawn yet) or an equation sampled once per column of
/// the plot area, each sample the height of the curve in that column.
pub enum PlotData<N> {
    Vector(Vec<[N; 2]>),
    Equation(Vec<Option<usize>>),
}

/// A plot that draws on a canvas once one has been made.
pub struct Plot2D {
    cv: Option<Canvas<Shape>>,
}

/// The frame drawn around a fresh canvas of `dim` pixels.
pub open spec fn frame(dim: Pos) -> Rect {
    Rect {
        offset: Pos(20, 20),
        dim: Pos((dim.0 - 2 * 20) as usize, (dim.1 - 2 * 20) as usize),
        stroke: 2,
        color: [0u8, 0u8, 0u8, 255u8],
        fill: false,
    }
}

/// The vertical axis.
pub open spec fn y_axis() -> Rect {
    Rect { offset: Pos(40, 40), dim: Pos(2, 420), stroke: 2, color: [10u8, 0u8, 50u8, 255u8], fill: false }
}

/// The horizontal axis.
pub open spec fn x_axis() -> Rect {
    Rect { offset: Pos(40, 460), dim: Pos(420, 2), stroke: 2, color: [10u8, 0u8, 50u8, 255u8], fill: false }
}

impl Plot2D {
    /// The canvas, if one has been made.
    pub closed spec fn canvas_of(&self) -> Option<Canvas<Shape>> {
        self.cv
    }

    /// A made canvas is well formed and draws on its drawing layer.
    pub open spec fn wf(&self) -> bool {
        self.canvas_of() matches Some(c) ==> c.wf() && c.cur_of() == 1
    }

    /// A plot without a canvas.
    pub fn new() -> (r: Plot2D)
        ensures
            r.wf(),
            r.canvas_of() is None,
    {
        Plot2D { cv: None }
    }

    /// Fails exactly when no canvas has been made.
    pub fn check_cv(&self) -> (res: Result<(), ImproError>)
        ensures
            res is Err <==> self.canvas_of() is None,
            res is Err ==> res == Err::<(), ImproError>(ImproError::NoCanvas),
    {
        if self.cv.is_none() {
            Err(ImproError::NoCanvas)
        } else {
            Ok(())
        }
    }

    /// Whether the canvas, if one has been made, can be rendered.
    pub fn is_renderable(&self) -> (r: bool)
        ensures
            r == (self.canvas_of() matches Some(c) ==> c.renderable()),
    {
        match &self.cv {
            Some(cv) => cv.is_renderable(),
            None => true,
        }
    }

    /// Renders the canvas into the RGBA bytes that saving it writes; fails when no
    /// canvas has been made. `edge` blends the rims of circles, `over` lays the
    /// drawing layer over the background.
    pub fn save_canvas<E: Fn(u8, u8, u8) -> u8, O: Fn(u8, u8, u8) -> u8>(&self, edge: &E, over: &O) -> (res: Result<
        Vec<u8>,
        ImproError,
    >)
        requires
            self.wf(),
            self.canvas_of() matches Some(c) ==> c.renderable(),
            forall|x: u8, y: u8, z: u8| call_requires(*edge, (x, y, z)),
            forall|x: u8, y: u8, z: u8| call_requires(*over, (x, y, z)),
        ensures
            res is Err <==> self.canvas_of() is None,
            res is Err ==> res == Err::<Vec<u8>, ImproError>(ImproError::NoCanvas),
            res matches Ok(out) ==> {
                let c = self.canvas_of()->0;
                &&& out@.len() == 4 * (c.dim_of().0 * c.dim_of().1)
                &&& layers_render(c.layers_of(), c.dim_of(), blend_of(*edge), *over, out@)
            },
    {
        self.check_cv()?;
        match &self.cv {
            Some(cv) => cv.render(edge, over),
            None => Err(ImproError::NoCanvas),
        }
    }

    /// Makes a canvas of `dim` pixels with background `bg_color`, framed by a
    /// rectangle 20 pixels in from each edge, and makes its drawing layer current.
    pub fn make_canvas(&mut self, dim: Pos, bg_color: Pixel)
        requires
            dim.0 >= 2 * 20,
            dim.1 >= 2 * 20,
        ensures
            final(self).wf(),
            final(self).canvas_of() matches Some(c) && {
                &&& c.dim_of() == dim
                &&& c.layers_of()[0].bg_of() == bg_color
                &&& c.cur_of() == 1
                &&& c.layers_of()[0].nodes_of() == Seq::<Shape>::empty()
                &&& c.layers_of()[1].bg_of() == [0u8, 0u8, 0u8, 0u8]
                &&& c.layers_of()[1].nodes_of() == seq![Shape::Rect(frame(dim))]
            },
    {
        let mut cv = Canvas::new(dim, bg_color);
        let r1 = cv.set_layer(1);
        let r2 = cv.add_node(
            Shape::Rect(
                Rect {
                    offset: Pos(20, 20),
                    dim: Pos(dim.0 - 2 * 20, dim.1 - 2 * 20),
                    stroke: 2,
                    color: [0, 0, 0, 255],
                    fill: false,
                },
            ),
        );
        proof {
            assert(cv.layers_of()[1].nodes_of() =~= seq![Shape::Rect(frame(dim))]);
        }
        self.cv = Some(cv);
    }

    /// Draws `data` on the canvas; fails when no canvas has been made. Points are not
    /// drawn; an equation adds the two axes and its sampled curve to the drawing layer.
    pub fn draw<N>(&mut self, data: PlotData<N>) -> (res: Result<(), ImproError>)
        requires
            old(self).wf(),
        ensures
            final(self).wf(),
            res is Err <==> old(self).canvas_of() is None,
            res is Err ==> res == Err::<(), ImproError>(ImproError::NoCanvas) && final(self).canvas_of()
                == old(self).canvas_of(),
            res is Ok ==> {
                let before = old(self).canvas_of()->0;
                let after = final(self).canvas_of()->0;
                &&& final(self).canvas_of() is Some
                &&& after.dim_of() == before.dim_of()
                &&& after.cur_of() == before.cur_of()
                &&& after.layers_of()[0] == before.layers_of()[0]
                &&& after.layers_of()[1].pos_of() == before.layers_of()[1].pos_of()
                &&& after.layers_of()[1].dim_of() == before.layers_of()[1].dim_of()
                &&& after.layers_of()[1].bg_of() == before.layers_of()[1].bg_of()
                &&& after.layers_of()[1].is_locked() == before.layers_of()[1].is_locked()
                &&& match data {
                    PlotData::Vector(_) => after.layers_of()[1] == before.layers_of()[1],
                    PlotData::Equation(rows) => after.layers_of()[1].nodes_of() == before.layers_of()[1].nodes_of().push(
                        Shape::Rect(y_axis()),
                    ).push(Shape::Rect(x_axis())).push(
                        Shape::Curve(Curve { origin: Pos(40, 460), color: [255u8, 0u8, 0u8, 255u8], rows }),
                    ),
                }
            },
    {
        self.check_cv()?;
        let mut cv = match self.cv.take() {
            Some(c) => c,
            None => { return Err(ImproError::NoCanvas); },
        };
        let res = match data {
            PlotData::Vector(_) => Ok(()),
            PlotData::Equation(rows) => {
                let a = cv.add_node(
                    Shape::Rect(
                        Rect {
                            offset: Pos(40, 40),
                            dim: Pos(2, 420),
                            stroke: 2,
                            color: [10, 0, 50, 255],
                            fill: false,
                        },
                    ),
                );
                let b = cv.add_node(
                    Shape::Rect(
                        Rect {
                            offset: Pos(40, 460),
                            dim: Pos(420, 2),
                            stroke: 2,
                            color: [10, 0, 50, 255],
                            fill: false,
                        },
                    ),
                );
                let c = cv.add_node(
                    Shape::Curve(
                        Curve { origin: Pos(CURVE_X0, CURVE_Y0), color: [255, 0, 0, 255], rows },
                    ),
                );
                Ok(())
            },
        };
        self.cv = Some(cv);
        res
    }
}


/// The axes that plotting an equation adds meet at the curve's origin: the horizontal
/// axis starts at the origin, on the curve's baseline, spans every sampled column and
/// is drawn solid; the vertical axis stands in the curve's first column, rises from
/// the baseline to the top of the plot area and is drawn solid. Drawn on a canvas
/// that holds it, the horizontal axis colors the baseline row under every column of
/// the curve.
pub proof fn lemma_equation_axes(
    nodes: Seq<Shape>,
    earlier: Seq<Shape>,
    rows: Vec<Option<usize>>,
    cv: Pos,
    before: Seq<Pixel>,
    after: Seq<Pixel>,
    blend: BlendRel,
    col: int,
)
    requires
        nodes == earlier.push(Shape::Rect(y_axis())).push(Shape::Rect(x_axis())).push(
            Shape::Curve(Curve { origin: Pos(40, 460), color: [255u8, 0u8, 0u8, 255u8], rows }),
        ),
        nodes[nodes.len() - 2].paints_over(cv, before, after, blend),
        cv.0 >= CURVE_X0 + 420,
        cv.1 > CURVE_Y0,
        before.len() == cv.0 * cv.1,
        CURVE_X0 <= col < CURVE_X0 + CURVE_WIDTH,
    ensures
        ({
            let n = nodes.len();
            &&& nodes[n - 3] matches Shape::Rect(ya)
            &&& nodes[n - 2] matches Shape::Rect(xa)
            &&& nodes[n - 1] matches Shape::Curve(c)
            &&& xa.offset == c.origin
            &&& c.origin == Pos(CURVE_X0, CURVE_Y0)
            &&& xa.offset.0 + xa.dim.0 >= c.origin.0 + CURVE_WIDTH
            &&& xa.dim.1 <= 2 * xa.stroke
            &&& ya.offset.0 == c.origin.0
            &&& ya.offset.1 + ya.dim.1 == c.origin.1
            &&& ya.offset.1 <= c.origin.1 - CURVE_HEIGHT
            &&& ya.dim.0 <= 2 * ya.stroke
            &&& after[CURVE_Y0 * cv.0 + col] == xa.color
        }),
{
    let n = nodes.len();
    let xa = x_axis();
    assert(nodes[n - 2] == Shape::Rect(xa));
    assert(nodes[n - 3] == Shape::Rect(y_axis()));
    assert(CURVE_Y0 * cv.0 + col < cv.0 * cv.1) by (nonlinear_arith)
        requires CURVE_Y0 < cv.1, 0 <= col < cv.0, CURVE_Y0 >= 0;
    lemma_rect_pixel(xa, cv, before, after, blend, col, CURVE_Y0 as int);
}


/// The frame of a fresh plot canvas is an outline centred on it, with equal margins on
/// all four sides.
pub proof fn lemma_frame_centred(dim: Pos)
    requires
        dim.0 >= 2 * 20,
        dim.1 >= 2 * 20,
    ensures
        ({
            let f = frame(dim);
            &&& 2 * f.offset.0 + f.dim.0 == dim.0
            &&& 2 * f.offset.1 + f.dim.1 == dim.1
            &&& f.offset.0 == f.offset.1
            &&& f.offset.0 > 0
            &&& f.stroke > 0
            &&& !f.fill
        }),
{
}

} // verus!
