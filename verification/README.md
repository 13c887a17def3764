# dioxus-flow

A business-agnostic node canvas for Dioxus Web: viewport panning and zooming, node
dragging, and SVG Bezier edges. Callers hold node data, layout and node content; the
canvas handles viewport interaction and edge rendering.

## Features

- The wheel zooms about the pointer (`zoom_at`), dragging the canvas pans it, and nodes are
  dragged; a threshold of 3 px tells a click from a drag.
- Edges are cubic Bezier curves with an arrow marker, and have a `label`, `dashed` and an
  `emphasis`.
- `fit_viewport` is a pure function from the bounding box of the nodes to the viewport that
  shows them; the property `animate` turns on transitions of the viewport.
- Only `ViewportFrame` renders when the viewport changes. A pan writes its styles to the DOM
  as the pointer moves, without waiting for a render.

## Usage

The components, and the helpers that make points and sizes from machine numbers (`point`,
`size`; `double` and `number` for single numbers), are in `app/`:

```rust
#[component]
fn Graph() -> Element {
    let viewport = use_signal(Viewport::default);
    let nodes = vec![FlowNode {
        id: NodeId::from("a"),
        position: point(0.0, 0.0),
        size: size(160.0, 64.0),
    }];
    rsx! {
        div { style: "width: 100%; height: 600px;",
            FlowCanvas {
                nodes,
                edges: vec![],
                viewport,
                render_node: move |id: NodeId| rsx! { div { "{id.0}" } },
                on_node_move: |_| {},
                on_node_click: |_| {},
            }
        }
    }
}
```

`clamp_zoom`, `zoom_at` and `fit_viewport` of `app/` take their zoom factors and their
padding as machine numbers too:

```rust
let shown = fit_viewport(&nodes, size(800.0, 600.0), 40.0, 0.35, 2.0);
let closer = zoom_at(shown, point(400.0, 300.0), 1.5);
```

## Layout

- `src/` is the verified library: everything that the canvas computes and decides.
  - `double`, `rounding`, `arithmetic`: double-precision numbers as bit patterns, with
    arithmetic that is proved to return the nearest number.
  - `natural`, `digits`, `decimal`, `fixed`, `notation`, `format`: numbers in decimal
    notation.
  - `accuracy`: how far that arithmetic is from exact arithmetic, and where it is exact.
  - `geometry`, `graph`: points, sizes, the viewport; nodes and edges.
  - `viewport`: `zoom_at`, `clamp_zoom`, `fit_viewport`, the wheel, the dotted background.
  - `drag`, `pan`: the two mouse interactions, as functions from state and event to state
    and outcome.
  - `canvases`: the numbers that tell canvases apart.
  - `scene`, `style`: which edges are drawn and where; the texts for the browser.
  - `laws`: what holds of the canvas as a whole.
- `tests/` runs the library on concrete values, and its arithmetic against the machine's.
- `app/` holds the Dioxus components and the DOM listeners around the library.

## Numbers

Verified code handles numbers as bit patterns (`Double`), and writes them with the
shortest digits that read back as the same number. `app/` converts from and to `f64`. The
exponential function of the wheel, which has no fixed result, is called there too.

## Styling

Callers style edges by class:

```css
.flow-edge--dashed path { stroke-dasharray: 6 5; }
.flow-edge--highlight path { stroke-opacity: 1; stroke-width: 2.5px; }
.flow-edge--dim path { stroke-opacity: 0.12; }
```

Elements inside a node that must not drag it carry the attribute `data-flow-no-drag`.
