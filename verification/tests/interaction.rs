use dioxus_flow::{
    exceeds_node_drag_threshold, finish_pan, move_drag, move_pan, press_canvas, press_node,
    release_drag, release_node, Double, DragState, FlowNode, NodeId, NodeMove, NodePress, Pan,
    Point, Size, Viewport,
};

fn double(x: f64) -> Double {
    Double::from_bits(x.to_bits())
}

fn point(x: f64, y: f64) -> Point {
    Point::new(double(x), double(y))
}

fn node(id: &str, x: f64, y: f64) -> FlowNode {
    FlowNode {
        id: NodeId::from(id),
        position: point(x, y),
        size: Size::new(double(160.0), double(64.0)),
    }
}

fn viewport(x: f64, y: f64, zoom: f64) -> Viewport {
    Viewport { x: double(x), y: double(y), zoom: double(zoom) }
}

#[test]
fn node_drag_requires_three_pixels_of_movement() {
    let start = Point::new(double(10.0), double(10.0));
    assert!(!exceeds_node_drag_threshold(start, Point::new(double(12.0), double(12.0))));
    assert!(exceeds_node_drag_threshold(start, Point::new(double(13.0), double(10.0))));
}

#[test]
fn threshold_is_exact_between_pixels() {
    for x in -5i32..6 {
        for y in -5i32..6 {
            let start = point(100.0, -40.0);
            let current = point(100.0 + x as f64, -40.0 + y as f64);
            assert_eq!(exceeds_node_drag_threshold(start, current), x * x + y * y >= 9);
        }
    }
}

#[test]
fn short_press_is_a_click() {
    let mut drag: Option<DragState> = None;
    let a = node("a", 5.0, 6.0);
    assert_eq!(press_node(&mut drag, 0, false, &a, point(10.0, 10.0)), NodePress::Begun);
    assert_eq!(move_drag(&mut drag, point(12.0, 12.0), double(1.0)), None);
    assert!(release_node(&mut drag, &NodeId::from("a")));
    assert!(drag.is_none());
    assert!(!release_node(&mut drag, &NodeId::from("a")));
}

#[test]
fn release_over_another_node_is_no_click() {
    let mut drag: Option<DragState> = None;
    press_node(&mut drag, 0, false, &node("a", 5.0, 6.0), point(10.0, 10.0));
    assert!(!release_node(&mut drag, &NodeId::from("b")));
    assert!(drag.is_none());
}

#[test]
fn long_press_drags_and_is_no_click() {
    let mut drag: Option<DragState> = None;
    let a = node("a", 5.0, 6.0);
    press_node(&mut drag, 0, false, &a, point(10.0, 10.0));
    assert_eq!(
        move_drag(&mut drag, point(14.0, 8.0), double(2.0)),
        Some(NodeMove { id: NodeId::from("a"), position: point(7.0, 5.0) })
    );
    // Once dragging, even small distances are reported.
    assert_eq!(
        move_drag(&mut drag, point(11.0, 10.0), double(2.0)),
        Some(NodeMove { id: NodeId::from("a"), position: point(5.5, 6.0) })
    );
    // Back at the start, the node is back too.
    assert_eq!(
        move_drag(&mut drag, point(10.0, 10.0), double(0.35)),
        Some(NodeMove { id: NodeId::from("a"), position: a.position })
    );
    assert_eq!(
        drag,
        Some(DragState::Node {
            id: NodeId::from("a"),
            start: point(10.0, 10.0),
            origin: point(5.0, 6.0),
            moved: true,
        })
    );
    assert!(!release_node(&mut drag, &NodeId::from("a")));
}

#[test]
fn other_buttons_and_exempt_parts_begin_nothing() {
    let mut drag: Option<DragState> = None;
    let a = node("a", 5.0, 6.0);
    assert_eq!(press_node(&mut drag, 2, false, &a, point(0.0, 0.0)), NodePress::Ignored);
    assert_eq!(press_node(&mut drag, 2, true, &a, point(0.0, 0.0)), NodePress::Ignored);
    assert_eq!(press_node(&mut drag, 0, true, &a, point(0.0, 0.0)), NodePress::Stopped);
    assert!(drag.is_none());
    assert_eq!(move_drag(&mut drag, point(99.0, 99.0), double(1.0)), None);
    press_node(&mut drag, 0, false, &a, point(0.0, 0.0));
    let kept = drag.clone();
    assert_eq!(press_node(&mut drag, 1, false, &a, point(7.0, 7.0)), NodePress::Ignored);
    assert_eq!(drag, kept);
}

#[test]
fn release_elsewhere_ends_the_drag() {
    let mut drag: Option<DragState> = None;
    press_node(&mut drag, 0, false, &node("a", 0.0, 0.0), point(0.0, 0.0));
    release_drag(&mut drag);
    assert!(drag.is_none());
    assert_eq!(move_drag(&mut drag, point(50.0, 50.0), double(1.0)), None);
}

#[test]
fn pan_follows_the_pointer_and_commits_once() {
    let mut pan: Option<Pan> = None;
    let start = viewport(24.0, 24.0, 0.5);
    assert!(press_canvas(&mut pan, 0, start, point(100.0, 200.0)));
    assert_eq!(move_pan(&mut pan, point(110.0, 190.0)), Some(viewport(34.0, 14.0, 0.5)));
    assert_eq!(move_pan(&mut pan, point(90.0, 260.0)), Some(viewport(14.0, 84.0, 0.5)));
    assert_eq!(finish_pan(&mut pan), Some(viewport(14.0, 84.0, 0.5)));
    assert!(pan.is_none());
    assert_eq!(move_pan(&mut pan, point(0.0, 0.0)), None);
    assert_eq!(finish_pan(&mut pan), None);
}

#[test]
fn pan_without_movement_commits_the_viewport_unchanged() {
    let mut pan: Option<Pan> = None;
    let start = viewport(1.5, -2.25, 1.0);
    assert!(press_canvas(&mut pan, 0, start, point(3.0, 4.0)));
    assert_eq!(finish_pan(&mut pan), Some(start));
    assert!(press_canvas(&mut pan, 0, start, point(3.0, 4.0)));
    move_pan(&mut pan, point(1000.0, 77.0));
    assert_eq!(move_pan(&mut pan, point(3.0, 4.0)), Some(start));
}

#[test]
fn only_the_primary_button_pans() {
    let mut pan: Option<Pan> = None;
    assert!(!press_canvas(&mut pan, 1, viewport(0.0, 0.0, 1.0), point(0.0, 0.0)));
    assert!(pan.is_none());
    assert!(press_canvas(&mut pan, 0, viewport(0.0, 0.0, 1.0), point(0.0, 0.0)));
    move_pan(&mut pan, point(5.0, 5.0));
    // A press while a pan lasts begins anew from the viewport of the application.
    assert!(press_canvas(&mut pan, 0, viewport(0.0, 0.0, 1.0), point(9.0, 9.0)));
    assert_eq!(finish_pan(&mut pan), Some(viewport(0.0, 0.0, 1.0)));
}
