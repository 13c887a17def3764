use dioxus_flow::{
    bounds, canvas_point, clamp_zoom, dots_position, dots_size, fit_viewport, wheel_exponent,
    wheel_zoom, zoom_at, Double, FlowNode, NodeId, Point, Size, Viewport,
};

fn double(x: f64) -> Double {
    Double::from_bits(x.to_bits())
}

fn number(x: Double) -> f64 {
    f64::from_bits(x.to_bits())
}

fn point(x: f64, y: f64) -> Point {
    Point::new(double(x), double(y))
}

fn size(width: f64, height: f64) -> Size {
    Size::new(double(width), double(height))
}

fn viewport(x: f64, y: f64, zoom: f64) -> Viewport {
    Viewport { x: double(x), y: double(y), zoom: double(zoom) }
}

fn node(id: &str, x: f64, y: f64, width: f64, height: f64) -> FlowNode {
    FlowNode { id: NodeId::from(id), position: point(x, y), size: size(width, height) }
}

/// Numbers of the kind that layouts produce, from a congruential sequence.
fn layout_numbers(n: usize) -> Vec<f64> {
    let mut state: u64 = 99;
    let mut out: Vec<f64> = Vec::new();
    for _ in 0..n {
        state = state.wrapping_mul(6364136223846793005).wrapping_add(1442695040888963407);
        out.push(((state >> 33) as f64 - 1073741824.0) / 262144.7);
    }
    out
}

#[test]
fn zoom_keeps_anchor_over_the_same_graph_point() {
    let before = Viewport { x: double(20.0), y: double(40.0), zoom: double(1.0) };
    let anchor = Point::new(double(120.0), double(90.0));
    let next = zoom_at(before, anchor, double(2.0));
    assert_eq!(next, Viewport { x: double(-80.0), y: double(-10.0), zoom: double(2.0) });
}

#[test]
fn fit_centers_node_bounds() {
    let nodes = vec![FlowNode {
        id: NodeId::from("a"),
        position: Point::new(double(100.0), double(50.0)),
        size: Size::new(double(200.0), double(100.0)),
    }];
    let viewport = fit_viewport(
        &nodes,
        Size::new(double(500.0), double(300.0)),
        double(50.0),
        double(0.1),
        double(4.0),
    );
    assert_eq!(viewport.zoom, double(2.0));
    assert_eq!(viewport.x, double(-150.0));
    assert_eq!(viewport.y, double(-50.0));
}

#[test]
fn zoom_at_computes_in_double_precision() {
    let xs = layout_numbers(60);
    for w in xs.windows(6) {
        let zoom = 0.1 + w[3].abs() / 1000.0;
        let next = 0.1 + w[4].abs() / 3000.0;
        let got = zoom_at(viewport(w[0], w[1], zoom), point(w[2], w[5]), double(next));
        let graph_x = (w[2] - w[0]) / zoom;
        let graph_y = (w[5] - w[1]) / zoom;
        assert_eq!(number(got.x), w[2] - graph_x * next);
        assert_eq!(number(got.y), w[5] - graph_y * next);
        assert_eq!(number(got.zoom), next);
    }
}

#[test]
fn zooming_drifts_by_rounding_only() {
    let xs = layout_numbers(200);
    for w in xs.windows(5) {
        let zoom = 0.35 + w[3].abs() / 5000.0;
        let next = 0.35 + w[4].abs() / 5000.0;
        let got = zoom_at(viewport(w[0], w[1], zoom), point(w[2], 0.0), double(next));
        let before = (w[2] - w[0]) / zoom;
        let after = (w[2] - number(got.x)) / next;
        assert!((before - after).abs() <= 1e-9 * (1.0 + before.abs()), "{before} {after}");
    }
}

#[test]
fn zooming_in_and_out_again_by_two_is_exact() {
    let start = viewport(13.0, -7.0, 1.0);
    let anchor = point(101.0, 55.0);
    let there = zoom_at(start, anchor, double(2.0));
    assert_eq!(there, viewport(-75.0, -69.0, 2.0));
    assert_eq!(zoom_at(there, anchor, double(1.0)), start);
}

#[test]
fn zoom_is_clamped() {
    let (low, high) = (double(0.35), double(2.0));
    assert_eq!(clamp_zoom(double(0.1), low, high), low);
    assert_eq!(clamp_zoom(double(3.0), low, high), high);
    assert_eq!(clamp_zoom(double(1.25), low, high), double(1.25));
    assert_eq!(clamp_zoom(low, low, high), low);
    assert!(clamp_zoom(double(f64::NAN), low, high).is_nan());
    assert_eq!(clamp_zoom(double(f64::INFINITY), low, high), high);
}

#[test]
fn wheel_zooms_about_the_pointer_within_limits() {
    let exponent = wheel_exponent(double(-100.0));
    assert_eq!(number(exponent), 100.0 * 0.0015);
    assert_eq!(number(wheel_exponent(double(33.0))), -33.0 * 0.0015);
    let factor = number(exponent).exp();
    let anchor = canvas_point(point(140.0, 95.0), point(20.0, 5.0));
    assert_eq!(anchor, point(120.0, 90.0));
    let start = viewport(20.0, 40.0, 1.0);
    let next = wheel_zoom(start, anchor, double(factor), double(0.35), double(2.0));
    assert_eq!(number(next.zoom), factor);
    assert_eq!(next, zoom_at(start, anchor, double(factor)));
    let far = wheel_zoom(start, anchor, double(100.0), double(0.35), double(2.0));
    assert_eq!(far, viewport(-80.0, -10.0, 2.0));
    let near = wheel_zoom(start, anchor, double(0.001), double(0.5), double(2.0));
    assert_eq!(near.zoom, double(0.5));
}

#[test]
fn fitting_nothing_gives_the_initial_viewport() {
    let got = fit_viewport(&[], size(10.0, 10.0), double(1.0), double(5.0), double(1.0));
    assert_eq!(got, Viewport::default());
    assert_eq!(got, viewport(24.0, 24.0, 1.0));
}

#[test]
fn fitting_respects_the_zoom_limits() {
    let wide = vec![node("a", 0.0, 0.0, 100000.0, 10.0)];
    let got = fit_viewport(&wide, size(500.0, 300.0), double(50.0), double(0.35), double(2.0));
    assert_eq!(got.zoom, double(0.35));
    let tiny = vec![node("a", 5.0, 5.0, 0.0, 0.0)];
    let got = fit_viewport(&tiny, size(500.0, 300.0), double(50.0), double(0.35), double(2.0));
    assert_eq!(got.zoom, double(2.0));
    assert_eq!(got.x, double((500.0 - 2.0) / 2.0 - 10.0));
    let cramped = vec![node("a", 0.0, 0.0, 4.0, 2.0)];
    let got = fit_viewport(&cramped, size(10.0, 10.0), double(50.0), double(0.01), double(2.0));
    assert_eq!(got.zoom, double(0.25));
}

#[test]
fn fitting_computes_in_double_precision() {
    let xs = layout_numbers(120);
    for w in xs.chunks(12) {
        let nodes = vec![
            node("a", w[0], w[1], w[2].abs(), w[3].abs()),
            node("b", w[4], w[5], w[6].abs(), w[7].abs()),
            node("c", w[8], w[9], w[10].abs(), w[11].abs()),
        ];
        let b = bounds(&nodes).unwrap();
        let left = w[0].min(w[4]).min(w[8]);
        let top = w[1].min(w[5]).min(w[9]);
        let right = (w[0] + w[2].abs()).max(w[4] + w[6].abs()).max(w[8] + w[10].abs());
        let bottom = (w[1] + w[3].abs()).max(w[5] + w[7].abs()).max(w[9] + w[11].abs());
        assert_eq!(number(b.left), left);
        assert_eq!(number(b.top), top);
        assert_eq!(number(b.right), right);
        assert_eq!(number(b.bottom), bottom);
        let got = fit_viewport(&nodes, size(1280.0, 719.5), double(31.25), double(0.01), double(4.0));
        let width = (right - left).max(1.0);
        let height = (bottom - top).max(1.0);
        let zoom = ((1280.0 - 31.25 * 2.0) / width)
            .min((719.5 - 31.25 * 2.0) / height)
            .clamp(0.01, 4.0);
        assert_eq!(number(got.zoom), zoom);
        assert_eq!(number(got.x), (1280.0 - width * zoom) / 2.0 - left * zoom);
        assert_eq!(number(got.y), (719.5 - height * zoom) / 2.0 - top * zoom);
        // The middle of the box is in the middle of the viewport.
        let middle = number(got.x) + (left + width / 2.0) * zoom;
        assert!((middle - 640.0).abs() < 1e-9);
        assert!(width * zoom <= 1280.0 - 62.5 + 1e-9);
        assert!(height * zoom <= 719.5 - 62.5 + 1e-9);
    }
}

#[test]
fn bounds_ignore_what_is_no_number() {
    let nodes = vec![
        node("a", f64::NAN, 1.0, 1.0, 1.0),
        node("b", 3.0, f64::NAN, 4.0, 1.0),
        node("c", -2.0, 5.0, 1.0, 1.0),
    ];
    let b = bounds(&nodes).unwrap();
    assert_eq!(b.left, double(-2.0));
    assert_eq!(b.top, double(1.0));
    assert_eq!(b.right, double(7.0));
    assert_eq!(b.bottom, double(6.0));
    assert!(bounds(&[]).is_none());
}

#[test]
fn dots_follow_the_viewport_modulo_their_distance() {
    assert_eq!(dots_size(viewport(0.0, 0.0, 1.5)), double(30.0));
    let (x, y) = dots_position(viewport(65.0, -5.0, 1.0));
    assert_eq!(x, double(5.0));
    assert_eq!(y, double(15.0));
    let (x, y) = dots_position(viewport(40.0, -40.0, 1.0));
    assert_eq!(x, double(0.0));
    assert_eq!(y, double(0.0));
    for w in layout_numbers(100).windows(3) {
        let zoom = 0.35 + w[2].abs() / 5000.0;
        let (x, y) = dots_position(viewport(w[0], w[1], zoom));
        assert_eq!(number(x), w[0].rem_euclid(20.0 * zoom));
        assert_eq!(number(y), w[1].rem_euclid(20.0 * zoom));
        assert!(number(x) >= 0.0 && number(x) <= 20.0 * zoom);
    }
}

#[test]
fn dots_repeat_by_whole_tiles() {
    let (x, _) = dots_position(viewport(7.25, 0.0, 1.0));
    let (moved, _) = dots_position(viewport(7.25 + 60.0, 0.0, 1.0));
    assert_eq!(x, moved);
    assert_eq!(x, double(7.25));
}

#[test]
fn points_and_sizes_have_defaults() {
    assert_eq!(Point::default(), point(0.0, 0.0));
    assert_eq!(Size::default(), size(0.0, 0.0));
    assert!(point(0.0, 1.0) != point(1.0, 0.0));
    assert!(point(f64::NAN, 0.0) != point(f64::NAN, 0.0));
    assert_eq!(point(0.0, 0.0), point(-0.0, 0.0));
}

#[test]
fn zooming_in_two_steps_is_zooming_once() {
    for (n, x) in layout_numbers(60).into_iter().enumerate() {
        let start = viewport(x, -x / 3.0, 0.8);
        let anchor = point(311.0 + n as f64, 97.3);
        let middle = double(1.7);
        let target = double(0.45);
        let twice = zoom_at(zoom_at(start, anchor, middle), anchor, target);
        let once = zoom_at(start, anchor, target);
        assert_eq!(number(twice.zoom), 0.45);
        let scale = 1.0 + x.abs();
        assert!((number(twice.x) - number(once.x)).abs() < 1e-12 * scale + 1e-11);
        assert!((number(twice.y) - number(once.y)).abs() < 1e-12 * scale + 1e-11);
    }
    // In fractions nothing is rounded.
    let start = viewport(10.0, 20.0, 1.0);
    let anchor = point(110.0, 70.0);
    let twice = zoom_at(zoom_at(start, anchor, double(4.0)), anchor, double(2.0));
    assert_eq!(twice, viewport(-90.0, -30.0, 2.0));
}

#[test]
fn zooming_back_restores_up_to_rounding() {
    let start = viewport(17.3, -8.1, 0.7);
    let anchor = point(123.4, 56.7);
    let back = zoom_at(zoom_at(start, anchor, double(1.9)), anchor, double(0.7));
    assert_eq!(number(back.zoom), 0.7);
    assert!((number(back.x) - 17.3).abs() < 1e-12);
    assert!((number(back.y) + 8.1).abs() < 1e-12);
    let same = zoom_at(start, anchor, double(0.7));
    assert_eq!(number(same.zoom), 0.7);
    assert!((number(same.x) - 17.3).abs() < 1e-12);
    assert!((number(same.y) + 8.1).abs() < 1e-12);
}

#[test]
fn fitting_follows_nodes_that_are_moved() {
    let nodes = vec![node("a", 0.0, 0.0, 160.0, 64.0), node("b", 240.5, 96.0, 160.0, 64.0)];
    let moved = vec![
        node("a", 1024.0, -300.25, 160.0, 64.0),
        node("b", 1264.5, -204.25, 160.0, 64.0),
    ];
    let room = size(801.0, 600.0);
    let before = fit_viewport(&nodes, room, double(0.0), double(0.25), double(4.0));
    let after = fit_viewport(&moved, room, double(0.0), double(0.25), double(4.0));
    // 801 / 400.5 is two, and every step is exact.
    assert_eq!(number(before.zoom), 2.0);
    assert_eq!(after.zoom, before.zoom);
    assert_eq!(number(after.x), number(before.x) - 1024.0 * 2.0);
    assert_eq!(number(after.y), number(before.y) + 300.25 * 2.0);
    // A zoom that is rounded is still the same.
    let before = fit_viewport(&nodes, size(700.0, 500.0), double(33.3), double(0.35), double(2.0));
    let after = fit_viewport(&moved, size(700.0, 500.0), double(33.3), double(0.35), double(2.0));
    assert_eq!(after.zoom, before.zoom);
    let zoom = number(before.zoom);
    for (a, b) in nodes.iter().zip(moved.iter()) {
        let place = number(a.position.x) * zoom + number(before.x);
        let next = number(b.position.x) * zoom + number(after.x);
        assert!((place - next).abs() < 1e-11);
    }
    // Coordinates that are rounded when they are moved.
    let nodes = vec![node("a", 0.1, 0.7, 33.3, 20.0), node("b", 71.9, 5.3, 12.7, 20.0)];
    let moved = vec![node("a", 0.1 + 1e3, 0.7, 33.3, 20.0), node("b", 71.9 + 1e3, 5.3, 12.7, 20.0)];
    let before = fit_viewport(&nodes, room, double(20.0), double(0.1), double(100.0));
    let after = fit_viewport(&moved, room, double(20.0), double(0.1), double(100.0));
    let zoom = number(before.zoom);
    assert!((number(after.zoom) - zoom).abs() < 1e-11);
    assert!((number(after.x) - (number(before.x) - 1e3 * zoom)).abs() < 1e-8);
}

#[test]
fn more_room_never_lowers_the_fitted_zoom() {
    let nodes = vec![node("a", -20.0, 3.0, 160.0, 64.0), node("b", 540.0, 96.0, 160.0, 64.0)];
    let sizes = [0.0, 10.0, 300.0, 301.0, 640.0, 1920.0, 1e9, f64::MAX];
    let paddings = [1e6, 500.0, 40.0, 39.9, 0.0, -10.0];
    let mut last = f64::NEG_INFINITY;
    for w in sizes {
        let room = size(w, w / 2.0);
        let zooms: Vec<f64> = paddings
            .iter()
            .map(|p| number(fit_viewport(&nodes, room, double(*p), double(0.01), double(9.0)).zoom))
            .collect();
        assert!(zooms.windows(2).all(|pair| pair[0] <= pair[1]));
        assert!(last <= zooms[2]);
        last = zooms[2];
    }
    assert_eq!(last, 9.0);
}

#[test]
fn fitting_shows_every_node_within_the_padding_and_as_large_as_it_can() {
    let nodes = vec![
        node("a", -37.5, 12.25, 160.0, 64.0),
        node("b", 411.1, 96.0, 33.3, 64.0),
        node("c", 100.0, 300.7, 80.0, 10.0),
    ];
    let (width, height, padding) = (640.0, 480.0, 40.0);
    let v = fit_viewport(&nodes, size(width, height), double(padding), double(0.1), double(5.0));
    let (x, y, zoom) = (number(v.x), number(v.y), number(v.zoom));
    let slack = 1e-9;
    for n in nodes.iter() {
        let (left, top) = (number(n.position.x), number(n.position.y));
        let (right, bottom) = (left + number(n.size.width), top + number(n.size.height));
        assert!(left * zoom + x >= padding - slack);
        assert!(top * zoom + y >= padding - slack);
        assert!(right * zoom + x <= width - padding + slack);
        assert!(bottom * zoom + y <= height - padding + slack);
    }
    let b = bounds(&nodes).unwrap();
    let content_width = number(b.right) - number(b.left);
    let content_height = number(b.bottom) - number(b.top);
    let larger = zoom * 1.000_001;
    assert!(
        larger * content_width > width - 2.0 * padding
            || larger * content_height > height - 2.0 * padding
    );
}

#[test]
fn dots_of_either_sign_repeat_up_to_rounding() {
    for x in layout_numbers(60) {
        let tile = 20.0;
        let (a, _) = dots_position(viewport(x, 0.0, 1.0));
        let (b, _) = dots_position(viewport(x - 1000.0 * tile, 0.0, 1.0));
        let apart = (number(a) - number(b)).abs();
        assert!(apart < 1e-9 || (apart - tile).abs() < 1e-9);
        assert!(number(a) >= 0.0 && number(a) <= tile);
    }
    // Minus fifteen and five are twenty apart: one tile, of opposite signs.
    let (a, b) = dots_position(viewport(-15.0, 5.0, 1.0));
    assert_eq!(number(a), 5.0);
    assert_eq!(number(b), 5.0);
}

#[test]
fn panning_by_rounded_tiles_keeps_the_dots() {
    for (n, x) in layout_numbers(60).into_iter().enumerate() {
        let zoom = 0.35 + (n as f64) / 37.0;
        let size = 20.0 * zoom;
        let moved = x + (n as f64 - 30.0) * size;
        let (a, _) = dots_position(viewport(x, 0.0, zoom));
        let (b, _) = dots_position(viewport(moved, 0.0, zoom));
        let apart = (number(a) - number(b)).abs();
        assert!(apart < 1e-9 || (apart - size).abs() < 1e-9);
    }
}

#[test]
fn without_room_no_larger_zoom_fits_either() {
    // The paddings are wider than the viewport: one is left.
    let nodes = vec![node("a", 0.0, 0.0, 3.0, 0.5)];
    let v = fit_viewport(&nodes, size(50.0, 50.0), double(40.0), double(0.01), double(4.0));
    let zoom = number(v.zoom);
    assert_eq!(zoom, 1.0 / 3.0);
    let larger = f64::from_bits(zoom.to_bits() + 1);
    assert!(larger * 3.0 >= 1.0 && zoom * 3.0 <= 1.0);
}
