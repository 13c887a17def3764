use dioxus_flow::style::{
    dots_background_position, dots_style, edge_path, frame_class, frame_style, frame_transform,
    label_corner, marker_id, marker_reference, node_style,
};
use dioxus_flow::{
    edge_curve, find_node, place_edges, CanvasNumbers, Double, EdgeCurve, EdgeEmphasis, FlowEdge,
    FlowNode, NodeId, Point, Size, Viewport, FIRST_CANVAS,
};

fn double(x: f64) -> Double {
    Double::from_bits(x.to_bits())
}

fn viewport(x: f64, y: f64, zoom: f64) -> Viewport {
    Viewport { x: double(x), y: double(y), zoom: double(zoom) }
}

fn node(id: &str, x: f64, y: f64) -> FlowNode {
    FlowNode {
        id: NodeId::from(id),
        position: Point::new(double(x), double(y)),
        size: Size::new(double(160.0), double(64.0)),
    }
}

fn edge(id: &str, source: &str, target: &str) -> FlowEdge {
    FlowEdge {
        id: String::from(id),
        source: NodeId::from(source),
        target: NodeId::from(target),
        ..Default::default()
    }
}

#[test]
fn edge_class_reflects_style_flags() {
    let edge = FlowEdge {
        dashed: true,
        emphasis: EdgeEmphasis::Highlight,
        ..Default::default()
    };
    assert_eq!(edge.class(), "flow-edge flow-edge--dashed flow-edge--highlight");
    assert_eq!(FlowEdge::default().class(), "flow-edge");
}

#[test]
fn every_style_has_its_class_list() {
    let mut seen: Vec<String> = Vec::new();
    for dashed in [false, true] {
        for emphasis in [EdgeEmphasis::Normal, EdgeEmphasis::Highlight, EdgeEmphasis::Dim] {
            let class = FlowEdge { dashed, emphasis, ..Default::default() }.class();
            assert!(!seen.contains(&class));
            seen.push(class);
        }
    }
    assert_eq!(seen[2], "flow-edge flow-edge--dim");
    assert_eq!(seen[5], "flow-edge flow-edge--dashed flow-edge--dim");
}

#[test]
fn ids_come_from_strings() {
    assert_eq!(NodeId::from("a"), NodeId::from(String::from("a")));
    assert_eq!(NodeId::from("a").0, "a");
    assert!(NodeId::from("a") != NodeId::from("b"));
    assert_eq!(NodeId::default().0, "");
    assert_eq!(EdgeEmphasis::default(), EdgeEmphasis::Normal);
}

#[test]
fn edges_and_nodes_compare_by_content() {
    let a = edge("e", "a", "b");
    assert_eq!(a, a.clone());
    assert!(a != FlowEdge { label: Some(String::from("x")), ..a.clone() });
    assert!(
        FlowEdge { label: Some(String::from("x")), ..a.clone() }
            != FlowEdge { label: Some(String::from("y")), ..a.clone() }
    );
    assert!(a != FlowEdge { target_offset: double(1.0), ..a.clone() });
    assert_eq!(node("a", 1.0, 2.0), node("a", 1.0, 2.0).clone());
    assert!(node("a", 1.0, 2.0) != node("a", 1.0, 3.0));
}

#[test]
fn the_last_node_of_a_name_is_meant() {
    let nodes = vec![node("a", 0.0, 0.0), node("b", 1.0, 0.0), node("a", 2.0, 0.0)];
    assert_eq!(find_node(&nodes, &NodeId::from("a")), Some(2));
    assert_eq!(find_node(&nodes, &NodeId::from("b")), Some(1));
    assert_eq!(find_node(&nodes, &NodeId::from("c")), None);
}

#[test]
fn edges_with_a_missing_end_are_not_drawn() {
    let nodes = vec![node("a", 0.0, 0.0), node("b", 400.0, 100.0)];
    let edges = vec![
        edge("1", "a", "b"),
        edge("2", "a", "gone"),
        edge("3", "gone", "b"),
        edge("4", "b", "a"),
        edge("5", "a", "a"),
    ];
    let placed = place_edges(&nodes, &edges);
    let drawn: Vec<usize> = placed.iter().map(|p| p.index).collect();
    assert_eq!(drawn, vec![0, 3, 4]);
    let first = placed[0].curve;
    assert_eq!(first.x1, double(160.0));
    assert_eq!(first.y1, double(32.0));
    assert_eq!(first.x2, double(400.0));
    assert_eq!(first.y2, double(132.0));
    assert_eq!(first.mid_x, double(280.0));
}

#[test]
fn curves_are_offset_and_labelled() {
    let a = node("a", 0.5, 10.25);
    let b = node("b", 333.3, -7.5);
    let e = FlowEdge {
        source_offset: double(-8.0),
        target_offset: double(12.5),
        ..edge("e", "a", "b")
    };
    let c = edge_curve(&a, &b, &e);
    let (x1, x2) = (0.5 + 160.0, 333.3);
    let (y1, y2) = (10.25 + 64.0 / 2.0 + -8.0, -7.5 + 64.0 / 2.0 + 12.5);
    assert_eq!(c.y1, double(y1));
    assert_eq!(c.y2, double(y2));
    assert_eq!(c.mid_x, double((x1 + x2) / 2.0));
    assert_eq!(c.label_x, double(x1 + (x2 - x1) * 0.68 - 22.0));
    assert_eq!(c.label_y, double(y1 + (y2 - y1) * 0.68 - 10.0));
}

#[test]
fn texts_are_what_the_browser_reads() {
    let shown = viewport(1.5, -2.0, 0.5);
    assert_eq!(frame_transform(shown), "translate(1.5px, -2px) scale(0.5)");
    assert_eq!(
        frame_style(shown),
        "position: absolute; left: 0; top: 0; transform-origin: 0 0; transform: translate(1.5px, -2px) scale(0.5); will-change: transform;"
    );
    assert_eq!(frame_class(true), "flow-frame flow-frame--animate");
    assert_eq!(frame_class(false), "flow-frame");
    let panned = viewport(33.0, -26.0, 1.5);
    assert_eq!(dots_background_position(panned), "3px 4px");
    assert_eq!(
        dots_style(panned),
        "position: absolute; inset: 0; pointer-events: none; background-image: url(\"data:image/svg+xml;utf8,<svg xmlns='http://www.w3.org/2000/svg' width='20' height='20'><circle cx='2' cy='2' r='1.4' fill='%2394a3b8' fill-opacity='0.45'/></svg>\"); background-repeat: repeat; background-size: 30px 30px; background-position: 3px 4px;"
    );
    assert_eq!(
        node_style(&node("a", 1.0, 2.0)),
        "position: absolute; left: 1px; top: 2px; width: 160px; height: 64px; cursor: grab;"
    );
    let curve = EdgeCurve {
        x1: double(1.0),
        y1: double(2.0),
        x2: double(4.0),
        y2: double(5.0),
        mid_x: double(3.0),
        label_x: double(6.5),
        label_y: double(-7.0),
    };
    assert_eq!(edge_path(curve), "M 1 2 C 3 2, 3 5, 4 5");
    assert_eq!(label_corner(curve), (String::from("6.5"), String::from("-7")));
    assert_eq!(marker_reference("m"), "url(#m)");
}

#[test]
fn redrawing_writes_what_panning_wrote() {
    let shown = viewport(7.25, 800.5, 2.0);
    assert!(frame_style(shown).contains(&frame_transform(shown)));
    assert!(dots_style(shown).contains(&dots_background_position(shown)));
}

#[test]
fn canvases_have_their_own_markers() {
    for n in [0, 1, 9, 10, 11, 99, 100, 1234567890, u64::MAX] {
        assert_eq!(marker_id(n), format!("dioxus-flow-arrow-{n}"));
    }
    assert!(marker_id(1) != marker_id(11));
}

#[test]
fn canvases_are_numbered_one_by_one() {
    let mut numbers = CanvasNumbers { next: FIRST_CANVAS };
    let first: Vec<String> = (0..12).map(|_| marker_id(numbers.take())).collect();
    assert_eq!(first[0], "dioxus-flow-arrow-1");
    assert_eq!(first[11], "dioxus-flow-arrow-12");
    for i in 0..first.len() {
        for j in 0..i {
            assert!(first[i] != first[j]);
        }
    }
    let mut last = CanvasNumbers { next: u64::MAX };
    assert_eq!(last.take(), u64::MAX);
    assert_eq!(last.take(), 0);
    assert_eq!(last.take(), 1);
}

#[test]
fn a_canvas_keeps_its_number_when_it_is_drawn_again() {
    let mut numbers = CanvasNumbers { next: FIRST_CANVAS };
    let (mut a, mut b) = (None, None);
    assert_eq!(numbers.number_for(&mut a), 1);
    assert_eq!(numbers.number_for(&mut b), 2);
    for _ in 0..5 {
        assert_eq!(numbers.number_for(&mut b), 2);
        assert_eq!(numbers.number_for(&mut a), 1);
    }
    assert_eq!((a, b, numbers.next), (Some(1), Some(2), 3));
}
