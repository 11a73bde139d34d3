use impro::error::ImproError;
use impro::plot::canvas::Canvas;
use impro::plot::node::{Circ, Curve, Layer, Node, Rect, Shape};
use impro::plot::plot2d::{Plot2D, PlotData, CURVE_HEIGHT, CURVE_WIDTH, CURVE_X0, CURVE_Y0};
use impro::plot::{Pixel, Pos};

fn alpha_blend(i: u8, f: u8, a: u8) -> u8 {
    (i as f32 - (a as f32 / 255 as f32) * (i as f32 - f as f32)) as u8
}

fn edge_blend(cur: u8, color: u8, k: u8) -> u8 {
    let d = k as f32 / 100_f32;
    (d * cur as f32 + (1_f32 - d) * color as f32) as u8
}

const BG: Pixel = [1, 2, 3, 4];
const RED: Pixel = [200, 0, 0, 255];

#[test]
fn pos_conversions() {
    let p = Pos(3, 7);
    assert_eq!(p.to_i32(), (3, 7));
    assert_eq!(p.to_u32(), (3, 7));
    assert_eq!(Pos(usize::MAX, 0).to_u32(), (u32::MAX, 0));
}

#[test]
fn rect_outline_and_fill() {
    let rect = Rect { offset: Pos(1, 1), dim: Pos(3, 3), stroke: 1, color: RED, fill: false };
    let mut raw = vec![BG; 25];
    assert!(rect.draw(&mut raw, Pos(5, 5), &edge_blend).is_ok());
    for r in 0..5 {
        for c in 0..5 {
            let inside = (1..4).contains(&r) && (1..4).contains(&c);
            let border = inside && !(r == 2 && c == 2);
            assert_eq!(raw[5 * r + c], if border { RED } else { BG }, "r={} c={}", r, c);
        }
    }
    let filled = Rect { fill: true, ..rect };
    let mut raw = vec![BG; 25];
    filled.draw(&mut raw, Pos(5, 5), &edge_blend).unwrap();
    assert_eq!(raw[12], RED);
}

#[test]
fn rect_wider_than_row_wraps() {
    let rect = Rect { offset: Pos(2, 0), dim: Pos(3, 1), stroke: 1, color: RED, fill: true };
    let mut raw = vec![BG; 8];
    rect.draw(&mut raw, Pos(4, 2), &edge_blend).unwrap();
    assert_eq!(raw, vec![BG, BG, RED, RED, RED, BG, BG, BG]);
}

#[test]
fn circle_ring_and_fill() {
    let circ = Circ { offset: Pos(0, 0), dim: Pos(40, 40), stroke: 0, color: [200, 200, 200, 200], fill: false };
    let mut raw = vec![[0u8, 255, 0, 0]; 1600];
    circ.draw(&mut raw, Pos(40, 40), &edge_blend).unwrap();
    // on the ring: distance excess 0, full color
    assert_eq!(raw[20], [200, 200, 200, 200]);
    // far corner and centre are kept
    assert_eq!(raw[0], [0, 255, 0, 0]);
    assert_eq!(raw[40 * 20 + 20], [0, 255, 0, 0]);
    // (x=20, y=1): excess 39, blended with the old pixel
    assert_eq!(raw[40 + 20], [122, 221, 122, 122]);
    let disc = Circ { fill: true, ..circ };
    let mut raw = vec![[0u8, 0, 0, 0]; 1600];
    disc.draw(&mut raw, Pos(40, 40), &edge_blend).unwrap();
    assert_eq!(raw[40 * 20 + 20], [200, 200, 200, 200]);
}

#[test]
fn curve_points() {
    let curve = Curve { origin: Pos(1, 3), color: RED, rows: vec![Some(0), None, Some(3), Some(1)] };
    let mut raw = vec![BG; 16];
    curve.draw(&mut raw, Pos(4, 4), &edge_blend).unwrap();
    let mut expect = vec![BG; 16];
    expect[3 * 4 + 1] = RED; // column 1, height 0
    expect[0 * 4 + 3] = RED; // column 3, height 3
    assert_eq!(raw, expect);
}

#[test]
fn layer_lock_and_push() {
    let mut layer = Layer::new(Pos(0, 0), Pos(2, 2), BG, true);
    assert_eq!(layer.check_lock(), Err(ImproError::LayerLocked));
    let rect = Rect { offset: Pos(0, 0), dim: Pos(1, 1), stroke: 1, color: RED, fill: true };
    assert_eq!(layer.push(Shape::Rect(rect)), Err(ImproError::LayerLocked));
    assert_eq!(layer.draw_u8(&edge_blend).unwrap(), BG.repeat(4));
    layer.unlock();
    assert_eq!(layer.check_lock(), Ok(()));
    let rect = Rect { offset: Pos(0, 0), dim: Pos(1, 1), stroke: 1, color: RED, fill: true };
    assert_eq!(layer.push(Shape::Rect(rect)), Ok(()));
    assert_eq!(layer.draw_u8(&edge_blend).unwrap(), [RED, BG, BG, BG].concat());
    layer.lock();
    assert_eq!(layer.check_lock(), Err(ImproError::LayerLocked));
    assert_eq!(*layer.get_dim(), Pos(2, 2));
    assert_eq!(*layer.get_pos(), Pos(0, 0));
    assert_eq!(*layer.get_bg(), BG);
    assert_eq!(ImproError::LayerLocked.message(), "Failed to modify locked layer.");
}

#[test]
fn layer_draws_nodes_in_order() {
    let mut layer = Layer::new(Pos(0, 0), Pos(3, 1), BG, false);
    let a = Rect { offset: Pos(0, 0), dim: Pos(2, 1), stroke: 1, color: RED, fill: true };
    let b = Rect { offset: Pos(1, 0), dim: Pos(2, 1), stroke: 1, color: [9, 9, 9, 9], fill: true };
    layer.push(Shape::Rect(a)).unwrap();
    layer.push(Shape::Rect(b)).unwrap();
    assert_eq!(layer.draw_u8(&edge_blend).unwrap(), [RED, [9, 9, 9, 9], [9, 9, 9, 9]].concat());
}

#[test]
fn canvas_layers() {
    let mut cv = Canvas::new(Pos(2, 2), [10, 20, 30, 255]);
    assert_eq!(cv.set_layer(2), Err(ImproError::LayerOutOfBounds));
    assert_eq!(ImproError::LayerOutOfBounds.message(), "Given layer index is out of bounds.");
    assert_eq!(cv.set_layer(0), Ok(()));
    let rect = Rect { offset: Pos(0, 0), dim: Pos(1, 1), stroke: 1, color: RED, fill: true };
    assert_eq!(cv.add_node(Shape::Rect(rect)), Err(ImproError::LayerLocked));
    assert_eq!(cv.set_layer(1), Ok(()));
    let rect = Rect { offset: Pos(0, 0), dim: Pos(1, 1), stroke: 1, color: RED, fill: true };
    assert_eq!(cv.add_node(Shape::Rect(rect)), Ok(()));
    let out = cv.render(&edge_blend, &alpha_blend).unwrap();
    // the drawing layer's transparent cells leave the background as it was
    assert_eq!(out, [RED, [10, 20, 30, 255], [10, 20, 30, 255], [10, 20, 30, 255]].concat());
}

#[test]
fn canvas_transparent_layer_keeps_background() {
    let cv = Canvas::<Shape>::new(Pos(3, 3), [10, 20, 30, 255]);
    let out = cv.render(&edge_blend, &alpha_blend).unwrap();
    assert_eq!(out, [10u8, 20, 30, 255].repeat(9));
}

#[test]
fn plot_without_canvas() {
    let mut plot = Plot2D::new();
    assert_eq!(plot.check_cv(), Err(ImproError::NoCanvas));
    assert_eq!(plot.draw(PlotData::<f64>::Equation(vec![])), Err(ImproError::NoCanvas));
    assert_eq!(plot.save_canvas(&edge_blend, &alpha_blend), Err(ImproError::NoCanvas));
    assert_eq!(ImproError::NoCanvas.message(), "No previously created Canvas found.");
}

#[test]
fn plot_frame_axes_and_curve() {
    let mut plot = Plot2D::new();
    plot.make_canvas(Pos(500, 500), [255; 4]);
    assert_eq!(plot.check_cv(), Ok(()));
    assert_eq!(plot.draw(PlotData::<f64>::Vector(vec![[1.0, 2.0]])), Ok(()));
    let rows: Vec<Option<usize>> = (0..CURVE_WIDTH)
        .map(|x| {
            let y = 2.0 * x as f64;
            if y > CURVE_Y0 as f64 || y > CURVE_HEIGHT as f64 { None } else { Some(y as usize) }
        })
        .collect();
    assert_eq!(plot.draw(PlotData::<f64>::Equation(rows)), Ok(()));
    let out = plot.save_canvas(&edge_blend, &alpha_blend).unwrap();
    assert_eq!(out.len(), 4 * 500 * 500);
    let px = |x: usize, y: usize| out[4 * (500 * y + x)..4 * (500 * y + x) + 4].to_vec();
    // frame corner, inside the frame, axis, curve point (x = 10, height 20)
    assert_eq!(px(20, 20), vec![0, 0, 0, 255]);
    assert_eq!(px(100, 100), vec![255, 255, 255, 255]);
    assert_eq!(px(40, 300), vec![10, 0, 50, 255]);
    assert_eq!(px(CURVE_X0 + 10, CURVE_Y0 - 20), vec![255, 0, 0, 255]);
    assert_eq!(px(CURVE_X0 + 10, CURVE_Y0 - 21), vec![255, 255, 255, 255]);
}

#[test]
fn rect_and_curve_drawn_twice_as_once() {
    let rect = Rect { offset: Pos(1, 0), dim: Pos(3, 3), stroke: 1, color: RED, fill: false };
    let mut once = vec![BG; 20];
    rect.draw(&mut once, Pos(5, 4), &edge_blend).unwrap();
    let mut twice = once.clone();
    rect.draw(&mut twice, Pos(5, 4), &edge_blend).unwrap();
    assert_eq!(twice, once);

    let curve = Curve { origin: Pos(0, 3), color: [9, 9, 9, 9], rows: vec![Some(0), None, Some(2), Some(3)] };
    let mut once = vec![BG; 20];
    curve.draw(&mut once, Pos(5, 4), &edge_blend).unwrap();
    assert_eq!(once[15], [9, 9, 9, 9]);
    let mut twice = once.clone();
    curve.draw(&mut twice, Pos(5, 4), &edge_blend).unwrap();
    assert_eq!(twice, once);
}

#[test]
fn drawability_checks() {
    let inside = Rect { offset: Pos(1, 1), dim: Pos(3, 3), stroke: 1, color: RED, fill: false };
    assert!(inside.is_drawable(Pos(5, 5), 25));
    let past_end = Rect { offset: Pos(3, 3), dim: Pos(3, 3), stroke: 1, color: RED, fill: true };
    assert!(!past_end.is_drawable(Pos(5, 5), 25));
    let circ = Circ { offset: Pos(0, 0), dim: Pos(10, 10), stroke: 1, color: RED, fill: true };
    assert!(circ.is_drawable(Pos(10, 10), 100));
    assert!(!circ.is_drawable(Pos(10, 10), 50));
    let curve = Curve { origin: Pos(0, 3), color: RED, rows: vec![Some(1), Some(4)] };
    assert!(!curve.is_drawable(Pos(5, 4), 20));
    let curve = Curve { origin: Pos(0, 3), color: RED, rows: vec![Some(1), Some(3)] };
    assert!(curve.is_drawable(Pos(5, 4), 20));
    assert!(Shape::Curve(curve).is_drawable(Pos(5, 4), 20));

    let mut layer = Layer::new(Pos(0, 0), Pos(5, 5), BG, false);
    assert!(layer.is_renderable());
    layer.push(Shape::Rect(past_end)).unwrap();
    assert!(!layer.is_renderable());

    let mut cv = Canvas::new(Pos(5, 5), BG);
    assert!(cv.is_renderable());
    cv.add_node(Shape::Rect(Rect { offset: Pos(3, 3), dim: Pos(3, 3), stroke: 1, color: RED, fill: true })).unwrap();
    assert!(!cv.is_renderable());

    let mut plot = Plot2D::new();
    assert!(plot.is_renderable());
    plot.make_canvas(Pos(500, 500), [255; 4]);
    assert!(plot.is_renderable());
}

#[test]
fn layer_of_one_node_type() {
    let mut layer: Layer<Rect> = Layer::new(Pos(0, 0), Pos(2, 2), BG, false);
    layer.push(Rect { offset: Pos(1, 1), dim: Pos(1, 1), stroke: 1, color: RED, fill: true }).unwrap();
    assert!(layer.is_renderable());
    let out = layer.draw_u8(&edge_blend).unwrap();
    assert_eq!(out, [BG, BG, BG, RED].concat());
    let mut cv: Canvas<Curve> = Canvas::new(Pos(2, 2), [0, 0, 0, 255]);
    cv.add_node(Curve { origin: Pos(0, 1), color: RED, rows: vec![Some(0), Some(1)] }).unwrap();
    assert!(cv.is_renderable());
    cv.add_node(Curve { origin: Pos(0, 1), color: RED, rows: vec![Some(2)] }).unwrap();
    assert!(!cv.is_renderable());
}

#[test]
fn layer_keeps_its_frame() {
    let mut layer = Layer::new(Pos(3, 4), Pos(2, 2), BG, false);
    layer.lock();
    assert_eq!(layer.push(Shape::Rect(Rect { offset: Pos(0, 0), dim: Pos(1, 1), stroke: 1, color: RED, fill: true })), Err(ImproError::LayerLocked));
    layer.unlock();
    layer.push(Shape::Rect(Rect { offset: Pos(0, 0), dim: Pos(1, 1), stroke: 1, color: RED, fill: true })).unwrap();
    assert_eq!(layer.check_lock(), Ok(()));
    layer.draw_u8(&edge_blend).unwrap();
    assert_eq!((layer.get_pos().0, layer.get_pos().1), (3, 4));
    assert_eq!((layer.get_dim().0, layer.get_dim().1), (2, 2));
    assert_eq!(*layer.get_bg(), BG);
}
