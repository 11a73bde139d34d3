//! A canvas: a locked background layer and a drawing layer, laid over one
//! another when rendered.
use vstd::prelude::*;

use crate::error::ImproError;
use crate::arith::{byte_at, lemma_byte_in_grid};
use crate::ops::doub::{lemma_overlay_blends_exactly_the_overlap, lemma_overlay_transparent, overlaid, overlay, overlay_arith_ok};
use crate::plot::node::{blend_of, lemma_empty_layer_renders_background, BlendRel, Layer, Node};
use crate::plot::{flatten, Pixel, Pos};

verus! {

/// A canvas of `dim` pixels with its layers; nodes go to the current layer.
pub struct Canvas<N> {
    dim: Pos,
    layers: Vec<Layer<N>>,
    cur_layer: u8,
}

/// The size of a layer as the renderer passes it on (`u32`, truncated).
pub open spec fn dims_u32(p: Pos) -> (u32, u32) {
    (p.0 as u32, p.1 as u32)
}

/// The position of a layer as the renderer passes it on (`i32`, truncated).
pub open spec fn pos_i32(p: Pos) -> (i32, i32) {
    (p.0 as i32, p.1 as i32)
}

/// `out` is a rendering of `layers` onto a base of `base` pixels: layer 0 rendered,
/// then every further layer rendered and laid over the result with `over`.
pub open spec fn layers_render<N: Node, O: Fn(u8, u8, u8) -> u8>(
    layers: Seq<Layer<N>>,
    base: Pos,
    blend: BlendRel,
    over: O,
    out: Seq<u8>,
) -> bool {
    exists|acc: Seq<Seq<u8>>, tops: Seq<Seq<u8>>|
        #[trigger] layers_trace(layers, base, blend, over, acc, tops) && out == acc.last()
}

/// `acc[i]` is the image after laying layers `0..=i`; `tops[i]` is layer `i` rendered.
pub open spec fn layers_trace<N: Node, O: Fn(u8, u8, u8) -> u8>(
    layers: Seq<Layer<N>>,
    base: Pos,
    blend: BlendRel,
    over: O,
    acc: Seq<Seq<u8>>,
    tops: Seq<Seq<u8>>,
) -> bool {
    &&& layers.len() >= 1
    &&& acc.len() == layers.len()
    &&& tops.len() == layers.len()
    &&& forall|i: int| 0 <= i < layers.len() ==> #[trigger] layers[i].renders(blend, tops[i])
    &&& acc[0] == tops[0]
    &&& forall|i: int|
        1 <= i < layers.len() ==> overlaid(
            acc[i - 1],
            #[trigger] acc[i],
            dims_u32(base),
            tops[i],
            dims_u32(layers[i].dim_of()),
            pos_i32(layers[i].pos_of()),
            over,
        )
}

impl<N: Node> Canvas<N> {
    /// The canvas size.
    pub closed spec fn dim_of(&self) -> Pos {
        self.dim
    }

    /// The layers, background first.
    pub closed spec fn layers_of(&self) -> Seq<Layer<N>> {
        self.layers@
    }

    /// The index of the layer that takes new nodes.
    pub closed spec fn cur_of(&self) -> u8 {
        self.cur_layer
    }

    /// The shape of every canvas: a locked background layer and an unlocked drawing
    /// layer, both the canvas's size at its origin, and a current layer among them.
    pub open spec fn wf(&self) -> bool {
        &&& self.layers_of().len() == 2
        &&& self.cur_of() < 2
        &&& self.layers_of()[0].is_locked()
        &&& !self.layers_of()[1].is_locked()
        &&& forall|i: int|
            0 <= i < 2 ==> #[trigger] self.layers_of()[i].pos_of() == Pos(0, 0) && self.layers_of()[i].dim_of()
                == self.dim_of()
    }

    /// Layer `k` is the first whose rendering fails.
    pub open spec fn fails_first(&self, k: int) -> bool {
        &&& 0 <= k < self.layers_of().len()
        &&& !self.layers_of()[k].draws_ok()
        &&& forall|j: int| 0 <= j < k ==> #[trigger] self.layers_of()[j].draws_ok()
    }

    /// The error that rendering the canvas fails with: that of its first failing layer.
    pub open spec fn draw_error(&self) -> ImproError {
        self.layers_of()[choose|k: int| self.fails_first(k)].draw_error()
    }

    /// A layer that fails after all layers before it rendered is the first failing one.
    proof fn lemma_first_failure(&self, k: int)
        requires
            self.fails_first(k),
        ensures
            !self.draws_ok(),
            (choose|k2: int| self.fails_first(k2)) == k,
    {
        let k2 = choose|k2: int| self.fails_first(k2);
        assert(self.fails_first(k2));
        if k2 < k {
            assert(self.layers_of()[k2].draws_ok());
        } else if k2 > k {
            assert(self.layers_of()[k].draws_ok());
        }
    }

    /// Drawing every node of every layer succeeds.
    pub open spec fn draws_ok(&self) -> bool {
        forall|i: int| 0 <= i < self.layers_of().len() ==> #[trigger] self.layers_of()[i].draws_ok()
    }

    /// The canvas can be rendered: the layers can, and their sizes and positions suit `overlay`.
    pub open spec fn renderable(&self) -> bool {
        let d = dims_u32(self.dim_of());
        &&& forall|i: int| 0 <= i < self.layers_of().len() ==> #[trigger] self.layers_of()[i].renderable()
        &&& d.0 * d.1 == self.dim_of().0 * self.dim_of().1
        &&& d.0 * d.1 <= u32::MAX
        &&& overlay_arith_ok(d, d, (0, 0))
    }

    /// Whether the canvas can be rendered, as `renderable` says.
    pub fn is_renderable(&self) -> (r: bool)
        ensures
            r == self.renderable(),
    {
        let (w, h) = self.dim.to_u32();
        proof {
            assert(self.dim.0 * self.dim.1 <= 0xffff_ffff_ffff_ffff * 0xffff_ffff_ffff_ffff) by (nonlinear_arith)
                requires self.dim.0 <= 0xffff_ffff_ffff_ffff, self.dim.1 <= 0xffff_ffff_ffff_ffff;
            assert((w as u128) * (h as u128) <= 0xffff_ffff * 0xffff_ffff) by (nonlinear_arith)
                requires w <= 0xffff_ffff, h <= 0xffff_ffff;
        }
        let area: u128 = (w as u128) * (h as u128);
        if area != (self.dim.0 as u128) * (self.dim.1 as u128) || area > u32::MAX as u128 {
            return false;
        }
        if w > i32::MAX as u32 || 4 * (w as u128) > usize::MAX as u128 {
            return false;
        }
        let mut k: usize = 0;
        while k < self.layers.len()
            invariant
                0 <= k <= self.layers@.len(),
                forall|i: int| 0 <= i < k ==> #[trigger] self.layers@[i].renderable(),
            decreases self.layers@.len() - k,
        {
            if !self.layers[k].is_renderable() {
                assert(!self.layers_of()[k as int].renderable());
                return false;
            }
            k = k + 1;
        }
        true
    }

    /// A canvas of `dim` pixels: a locked background layer filled with `color`, and a
    /// transparent drawing layer, which is current.
    pub fn new(dim: Pos, color: Pixel) -> (r: Self)
        ensures
            r.wf(),
            r.dim_of() == dim,
            r.cur_of() == 1,
            r.layers_of()[0].bg_of() == color,
            r.layers_of()[0].nodes_of() == Seq::<N>::empty(),
            r.layers_of()[1].bg_of() == [0u8, 0u8, 0u8, 0u8],
            r.layers_of()[1].nodes_of() == Seq::<N>::empty(),
    {
        let mut layers: Vec<Layer<N>> = Vec::new();
        layers.push(Layer::new(Pos(0, 0), dim, color, true));
        layers.push(Layer::new(Pos(0, 0), dim, [0, 0, 0, 0], false));
        Canvas { dim, layers, cur_layer: 1 }
    }

    /// Makes layer `n` current; fails, changing nothing, when there is no such layer.
    pub fn set_layer(&mut self, n: u8) -> (res: Result<(), ImproError>)
        requires
            old(self).wf(),
        ensures
            final(self).wf(),
            res is Err <==> n as int >= old(self).layers_of().len(),
            res is Err ==> res == Err::<(), ImproError>(ImproError::LayerOutOfBounds) && *final(self)
                == *old(self),
            res is Ok ==> final(self).cur_of() == n,
            final(self).dim_of() == old(self).dim_of(),
            final(self).layers_of() == old(self).layers_of(),
    {
        if n as usize >= self.layers.len() {
            return Err(ImproError::LayerOutOfBounds);
        }
        self.cur_layer = n;
        Ok(())
    }

    /// Adds `node` to the current layer; fails, changing nothing, when that layer is locked.
    pub fn add_node(&mut self, node: N) -> (res: Result<(), ImproError>)
        requires
            old(self).wf(),
        ensures
            final(self).wf(),
            res is Err <==> old(self).layers_of()[old(self).cur_of() as int].is_locked(),
            res is Err ==> res == Err::<(), ImproError>(ImproError::LayerLocked) && final(self).layers_of()
                == old(self).layers_of(),
            res is Ok ==> final(self).layers_of()[old(self).cur_of() as int].nodes_of() == old(self).layers_of()[old(self).cur_of() as int].nodes_of().push(node),
            final(self).dim_of() == old(self).dim_of(),
            final(self).cur_of() == old(self).cur_of(),
            final(self).layers_of().len() == old(self).layers_of().len(),
            forall|i: int|
                0 <= i < old(self).layers_of().len() && i != old(self).cur_of() ==> #[trigger] final(self).layers_of()[i] == old(self).layers_of()[i],
            forall|i: int|
                0 <= i < old(self).layers_of().len() ==> {
                    &&& (#[trigger] final(self).layers_of()[i]).pos_of() == old(self).layers_of()[i].pos_of()
                    &&& final(self).layers_of()[i].dim_of() == old(self).layers_of()[i].dim_of()
                    &&& final(self).layers_of()[i].bg_of() == old(self).layers_of()[i].bg_of()
                    &&& final(self).layers_of()[i].is_locked() == old(self).layers_of()[i].is_locked()
                },
    {
        let idx = self.cur_layer as usize;
        let ghost before = self.layers@;
        let res = self.layers[idx].push(node);
        proof {
            assert(self.layers_of()[0].pos_of() == Pos(0, 0));
            assert(self.layers_of()[1].pos_of() == Pos(0, 0));
            assert(before[0].pos_of() == Pos(0, 0));
            assert(before[1].pos_of() == Pos(0, 0));
            if res is Err {
                assert(self.layers@ =~= before);
            }
        }
        res
    }

    /// Renders the canvas into RGBA bytes: the background layer, with each further
    /// layer laid over it by `overlay` with `over`; `edge` blends the rims of circles.
    pub fn render<E: Fn(u8, u8, u8) -> u8, O: Fn(u8, u8, u8) -> u8>(&self, edge: &E, over: &O) -> (res: Result<
        Vec<u8>,
        ImproError,
    >)
        requires
            self.wf(),
            self.renderable(),
            forall|x: u8, y: u8, z: u8| call_requires(*edge, (x, y, z)),
            forall|x: u8, y: u8, z: u8| call_requires(*over, (x, y, z)),
        ensures
            res is Ok <==> self.draws_ok(),
            res is Err ==> res == Err::<Vec<u8>, ImproError>(self.draw_error()),
            res matches Ok(out) ==> out@.len() == 4 * (self.dim_of().0 * self.dim_of().1) && layers_render(
                self.layers_of(),
                self.dim_of(),
                blend_of(*edge),
                *over,
                out@,
            ),
    {
        let layers = &self.layers;
        assert(layers@[0].renderable());
        assert(self.layers_of()[0].pos_of() == Pos(0, 0));
        assert(self.layers_of()[1].pos_of() == Pos(0, 0));
        let base_dim = *layers[0].get_dim();
        let mut raw = match layers[0].draw_u8(edge) {
            Ok(r) => r,
            Err(e) => {
                proof {
                    self.lemma_first_failure(0);
                }
                return Err(e);
            },
        };
        let ghost mut acc: Seq<Seq<u8>> = seq![raw@];
        let ghost mut tops: Seq<Seq<u8>> = seq![raw@];
        let mut idx: usize = 1;
        while idx < layers.len()
            invariant
                1 <= idx <= layers@.len(),
                layers@ == self.layers_of(),
                self.wf(),
                self.renderable(),
                base_dim == self.dim_of(),
                forall|x: u8, y: u8, z: u8| call_requires(*edge, (x, y, z)),
                forall|x: u8, y: u8, z: u8| call_requires(*over, (x, y, z)),
                raw@.len() == 4 * (self.dim_of().0 * self.dim_of().1),
                acc.len() == idx,
                tops.len() == idx,
                acc[idx - 1] == raw@,
                forall|i: int| 0 <= i < idx ==> #[trigger] layers@[i].renders(blend_of(*edge), tops[i]),
                acc[0] == tops[0],
                forall|j: int| 0 <= j < idx ==> #[trigger] self.layers_of()[j].draws_ok(),
                forall|i: int|
                    1 <= i < idx ==> overlaid(
                        acc[i - 1],
                        #[trigger] acc[i],
                        dims_u32(base_dim),
                        tops[i],
                        dims_u32(layers@[i].dim_of()),
                        pos_i32(layers@[i].pos_of()),
                        *over,
                    ),
            decreases layers@.len() - idx,
        {
            let l = &layers[idx];
            assert(layers@[idx as int].renderable());
            let raw2 = match l.draw_u8(edge) {
                Ok(r) => r,
                Err(e) => {
                    proof {
                        self.lemma_first_failure(idx as int);
                    }
                    return Err(e);
                },
            };
            let ghost before = raw@;
            overlay(&mut raw, base_dim.to_u32(), &raw2, l.get_dim().to_u32(), l.get_pos().to_i32(), over)?;
            proof {
                acc = acc.push(raw@);
                tops = tops.push(raw2@);
                assert(overlaid(
                    acc[idx - 1],
                    acc[idx as int],
                    dims_u32(base_dim),
                    tops[idx as int],
                    dims_u32(layers@[idx as int].dim_of()),
                    pos_i32(layers@[idx as int].pos_of()),
                    *over,
                ));
            }
            idx = idx + 1;
        }
        proof {
            assert(layers_trace(self.layers_of(), self.dim_of(), blend_of(*edge), *over, acc, tops));
        }
        Ok(raw)
    }
}


/// A canvas with no nodes and a transparent drawing layer renders as its background,
/// for any blend that keeps the base byte where alpha is zero.
pub proof fn lemma_blank_canvas_renders_background<N: Node, O: Fn(u8, u8, u8) -> u8>(
    c: Canvas<N>,
    blend: BlendRel,
    over: O,
    out: Seq<u8>,
)
    requires
        c.wf(),
        c.renderable(),
        c.layers_of()[0].nodes_of().len() == 0,
        c.layers_of()[1].nodes_of().len() == 0,
        c.layers_of()[1].bg_of()[3] == 0,
        forall|x: u8, y: u8, z: u8| call_ensures(over, (x, y, 0u8), z) ==> z == x,
        layers_render(c.layers_of(), c.dim_of(), blend, over, out),
    ensures
        out == flatten(c.layers_of()[0].background()),
{
    let layers = c.layers_of();
    let (acc, tops) = choose|acc: Seq<Seq<u8>>, tops: Seq<Seq<u8>>|
        #[trigger] layers_trace(layers, c.dim_of(), blend, over, acc, tops) && out == acc.last();
    assert(layers[0].renders(blend, tops[0]));
    assert(layers[1].renders(blend, tops[1]));
    lemma_empty_layer_renders_background(layers[0], blend, tops[0]);
    lemma_empty_layer_renders_background(layers[1], blend, tops[1]);
    assert(layers[0].pos_of() == Pos(0, 0));
    assert(layers[1].pos_of() == Pos(0, 0));
    let d = dims_u32(c.dim_of());
    let top = tops[1];
    let bg1 = layers[1].background();
    assert forall|r: int, col: int| 0 <= r < d.1 && 0 <= col < d.0 implies #[trigger] byte_at(top, d.0 as int, r, col, 3)
        == 0 by {
        lemma_byte_in_grid(r, col, 3, d.0 as int, d.1 as int);
        let k = d.0 * r + col;
        assert((4 * k + 3) / 4 == k && (4 * k + 3) % 4 == 3);
        assert(top[4 * k + 3] == bg1[k][3]);
    }
    assert(overlaid(acc[0], acc[1], d, tops[1], dims_u32(layers[1].dim_of()), pos_i32(layers[1].pos_of()), over));
    lemma_overlay_transparent(acc[0], acc[1], d, tops[1], d, (0, 0), over);
}


/// The drawing layer lies over the background: every byte of a rendered canvas is a
/// result of `over` on the background layer's byte, the drawing layer's byte and the
/// drawing layer's alpha at that pixel.
pub proof fn lemma_drawing_over_background<N: Node, O: Fn(u8, u8, u8) -> u8>(
    c: Canvas<N>,
    blend: BlendRel,
    over: O,
    out: Seq<u8>,
)
    requires
        c.wf(),
        c.dim_of().0 <= i32::MAX,
        c.dim_of().1 <= i32::MAX,
        layers_render(c.layers_of(), c.dim_of(), blend, over, out),
    ensures
        exists|bottom: Seq<u8>, top: Seq<u8>|
            {
                &&& c.layers_of()[0].renders(blend, bottom)
                &&& c.layers_of()[1].renders(blend, top)
                &&& forall|r: int, col: int, ch: int|
                    0 <= r < c.dim_of().1 && 0 <= col < c.dim_of().0 && 0 <= ch < 4 ==> call_ensures(
                        over,
                        (
                            byte_at(bottom, c.dim_of().0 as int, r, col, ch),
                            byte_at(top, c.dim_of().0 as int, r, col, ch),
                            byte_at(top, c.dim_of().0 as int, r, col, 3),
                        ),
                        #[trigger] byte_at(out, c.dim_of().0 as int, r, col, ch),
                    )
            },
{
    let layers = c.layers_of();
    let (acc, tops) = choose|acc: Seq<Seq<u8>>, tops: Seq<Seq<u8>>|
        #[trigger] layers_trace(layers, c.dim_of(), blend, over, acc, tops) && out == acc.last();
    assert(layers[0].renders(blend, tops[0]));
    assert(layers[1].renders(blend, tops[1]));
    assert(layers[1].pos_of() == Pos(0, 0));
    assert(layers[1].dim_of() == c.dim_of());
    let d = dims_u32(c.dim_of());
    assert(overlaid(acc[0], acc[1], d, tops[1], dims_u32(layers[1].dim_of()), pos_i32(layers[1].pos_of()), over));
    assert(out == acc[1]);
    assert forall|r: int, col: int, ch: int|
        0 <= r < c.dim_of().1 && 0 <= col < c.dim_of().0 && 0 <= ch < 4 implies call_ensures(
            over,
            (
                byte_at(tops[0], c.dim_of().0 as int, r, col, ch),
                byte_at(tops[1], c.dim_of().0 as int, r, col, ch),
                byte_at(tops[1], c.dim_of().0 as int, r, col, 3),
            ),
            #[trigger] byte_at(out, c.dim_of().0 as int, r, col, ch),
        ) by {
        lemma_overlay_blends_exactly_the_overlap(acc[0], acc[1], d, tops[1], d, (0, 0), over, r, col, ch);
    }
}

} // verus!
