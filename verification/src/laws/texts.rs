//! What the texts for the browser say, and that they can be read back.
use crate::digits::decimal_text;
use crate::double::Double;
use crate::geometry::Viewport;
use crate::graph::{edge_class, EdgeEmphasis, FlowNode};
use crate::laws::reading::{
    all_digits, decimal_text_reads_back, display_text_has_number_chars,
    display_text_tells_numbers_apart, is_number_char, number_of,
};
use crate::laws::redraw::holds;
use crate::scene::EdgeCurve;
use crate::style::{
    background_position_text, dots_style_text, edge_path_text, frame_class_text, frame_style_text,
    marker_id_text, node_style_text, transform_text, DOTS_TILE,
};
use vstd::prelude::*;

verus! {

/// Where `part` occurs in `text`, its characters do.
proof fn lemma_occurrence(text: Seq<char>, part: Seq<char>) -> (i: int)
    requires
        holds(text, part),
    ensures
        0 <= i <= text.len() - part.len(),
        forall|j: int| 0 <= j < part.len() ==> text[i + j] == #[trigger] part[j],
{
    let (before, after) = choose|before: Seq<char>, after: Seq<char>|
        text == #[trigger] (before + part + after);
    before.len() as int
}

/// The three classes besides the first.
proof fn lemma_class_texts()
    ensures
        "flow-edge"@.len() == 9,
        " flow-edge--dashed"@.len() == 18,
        " flow-edge--highlight"@.len() == 21,
        " flow-edge--dim"@.len() == 15,
        forall|i: int| 0 <= i < 9 ==> #[trigger] "flow-edge"@[i] != ' ',
        forall|i: int| 0 < i < 18 ==> #[trigger] " flow-edge--dashed"@[i] != ' ',
        forall|i: int| 0 < i < 21 ==> #[trigger] " flow-edge--highlight"@[i] != ' ',
        forall|i: int| 0 < i < 15 ==> #[trigger] " flow-edge--dim"@[i] != ' ',
        " flow-edge--dashed"@[0] == ' ',
        " flow-edge--highlight"@[0] == ' ',
        " flow-edge--dim"@[0] == ' ',
        " flow-edge--dashed"@[13] == 'a',
        " flow-edge--highlight"@[13] == 'i',
        " flow-edge--dim"@[13] == 'i',
        " flow-edge--highlight"@[12] == 'h',
        " flow-edge--dim"@[12] == 'd',
{
    reveal_strlit("flow-edge");
    reveal_strlit(" flow-edge--dashed");
    reveal_strlit(" flow-edge--highlight");
    reveal_strlit(" flow-edge--dim");
}

/// Each flag's class is in the list if and only if the flag is set, whatever the other
/// says. The list starts with the class of all edges, and holds nothing else.
pub proof fn class_list_names_the_style(dashed: bool, emphasis: EdgeEmphasis)
    ensures
        ({
            let list = edge_class(dashed, emphasis);
            &&& holds(list, " flow-edge--dashed"@) <==> dashed
            &&& holds(list, " flow-edge--highlight"@) <==> emphasis == EdgeEmphasis::Highlight
            &&& holds(list, " flow-edge--dim"@) <==> emphasis == EdgeEmphasis::Dim
            &&& list.take(9) == "flow-edge"@
            &&& list.len() == 9 + (if dashed {
                18int
            } else {
                0
            }) + match emphasis {
                EdgeEmphasis::Normal => 0int,
                EdgeEmphasis::Highlight => 21,
                EdgeEmphasis::Dim => 15,
            }
        }),
{
    lemma_class_texts();
    let list = edge_class(dashed, emphasis);
    let (base, dash, high, dim) = (
        "flow-edge"@,
        " flow-edge--dashed"@,
        " flow-edge--highlight"@,
        " flow-edge--dim"@,
    );
    let none = Seq::<char>::empty();
    if dashed {
        let rest = match emphasis {
            EdgeEmphasis::Normal => none,
            EdgeEmphasis::Highlight => high,
            EdgeEmphasis::Dim => dim,
        };
        assert(list =~= base + dash + rest);
    }
    let front = base + if dashed {
        dash
    } else {
        none
    };
    match emphasis {
        EdgeEmphasis::Normal => {},
        EdgeEmphasis::Highlight => {
            assert(list =~= front + high + none);
        },
        EdgeEmphasis::Dim => {
            assert(list =~= front + dim + none);
        },
    }
    assert(list.take(9) =~= base);
    assert(forall|i: int| 0 <= i < list.len() && #[trigger] list[i] == ' ' ==> i == 9 || (dashed
        && i == 27));
    if holds(list, dash) && !dashed {
        let i = lemma_occurrence(list, dash);
        assert(list[i + 0] == dash[0] && list[i + 13] == dash[13]);
    }
    if holds(list, high) && emphasis != EdgeEmphasis::Highlight {
        let i = lemma_occurrence(list, high);
        assert(list[i + 0] == high[0] && list[i + 12] == high[12] && list[i + 13] == high[13]);
    }
    if holds(list, dim) && emphasis != EdgeEmphasis::Dim {
        let i = lemma_occurrence(list, dim);
        assert(list[i + 0] == dim[0] && list[i + 12] == dim[12] && list[i + 13] == dim[13]);
    }
}

/// The layer's class list has the class for animation if and only if it is asked for, and
/// starts with the class of all such layers.
pub proof fn frame_class_tells_animation(animate: bool)
    ensures
        ({
            let list = frame_class_text(animate);
            &&& holds(list, " flow-frame--animate"@) <==> animate
            &&& list.take(10) == "flow-frame"@
            &&& list.len() == if animate {
                30int
            } else {
                10
            }
        }),
{
    reveal_strlit("flow-frame");
    reveal_strlit(" flow-frame--animate");
    reveal_strlit("flow-frame flow-frame--animate");
    let list = frame_class_text(animate);
    let (base, extra) = ("flow-frame"@, " flow-frame--animate"@);
    assert(list.take(10) =~= base);
    if animate {
        assert(list =~= base + extra + Seq::empty());
    } else if holds(list, extra) {
        let i = lemma_occurrence(list, extra);
    }
}

/// Whether a character does not occur in a text.
pub open spec fn free_of(s: Seq<char>, c: char) -> bool {
    forall|i: int| 0 <= i < s.len() ==> #[trigger] s[i] != c
}

/// A text up to the first place where a character occurs.
pub open spec fn up_to(s: Seq<char>, c: char) -> Seq<char>
    decreases s.len(),
{
    if s.len() == 0 || s[0] == c {
        Seq::empty()
    } else {
        seq![s[0]] + up_to(s.skip(1), c)
    }
}

proof fn lemma_up_to(a: Seq<char>, rest: Seq<char>, c: char)
    requires
        free_of(a, c),
        rest.len() > 0,
        rest[0] == c,
    ensures
        up_to(a + rest, c) == a,
    decreases a.len(),
{
    let s = a + rest;
    if a.len() > 0 {
        assert(s.skip(1) =~= a.skip(1) + rest);
        lemma_up_to(a.skip(1), rest, c);
        assert(a =~= seq![a[0]] + a.skip(1));
    }
}

/// What a reader takes for the next field of a text: all that comes before the mark that
/// follows it, or all there is if nothing follows.
pub open spec fn next_field(s: Seq<char>, mark: Seq<char>) -> Seq<char> {
    if mark.len() == 0 {
        s
    } else {
        up_to(s, mark[0])
    }
}

/// The fields that a reader finds in a text that has the marks from number `i` on, one
/// before each field and one after the last.
pub open spec fn fields(text: Seq<char>, marks: Seq<Seq<char>>, i: int) -> Seq<Seq<char>>
    decreases marks.len() - i,
{
    if i + 1 >= marks.len() {
        Seq::empty()
    } else {
        let rest = text.skip(marks[i].len() as int);
        let field = next_field(rest, marks[i + 1]);
        seq![field] + fields(rest.skip(field.len() as int), marks, i + 1)
    }
}

/// Whether a text has the marks from number `i` on where the reader expects them, and
/// nothing else but the fields.
pub open spec fn has_marks(text: Seq<char>, marks: Seq<Seq<char>>, i: int) -> bool
    decreases marks.len() - i,
{
    if i + 1 >= marks.len() {
        text == marks[i]
    } else {
        let rest = text.skip(marks[i].len() as int);
        let field = next_field(rest, marks[i + 1]);
        &&& text.take(marks[i].len() as int) == marks[i]
        &&& has_marks(rest.skip(field.len() as int), marks, i + 1)
    }
}

/// Whether a text is made of the marks and the values, in turn: a reader finds the marks,
/// and the values between them.
pub open spec fn reads_as_fields(text: Seq<char>, marks: Seq<Seq<char>>, values: Seq<Seq<char>>) -> bool {
    has_marks(text, marks, 0) && fields(text, marks, 0) == values
}

/// The marks and the values from number `i` on, in turn.
spec fn assembled(marks: Seq<Seq<char>>, values: Seq<Seq<char>>, i: int) -> Seq<char>
    decreases marks.len() - i,
{
    if i + 1 >= marks.len() {
        marks[i]
    } else {
        marks[i] + values[i] + assembled(marks, values, i + 1)
    }
}

/// What is assembled can be read, where no value has the character that the mark behind it
/// starts with.
proof fn lemma_assembled(marks: Seq<Seq<char>>, values: Seq<Seq<char>>, i: int)
    requires
        0 <= i < marks.len(),
        values.len() == marks.len() - 1,
        forall|j: int|
            0 <= j < values.len() && marks[j + 1].len() > 0 ==> free_of(
                #[trigger] values[j],
                marks[j + 1][0],
            ),
        forall|j: int|
            0 <= j < values.len() && (#[trigger] marks[j + 1]).len() == 0 ==> j + 2
                == marks.len(),
    ensures
        has_marks(assembled(marks, values, i), marks, i),
        fields(assembled(marks, values, i), marks, i) == values.skip(i),
    decreases marks.len() - i,
{
    let text = assembled(marks, values, i);
    if i + 1 < marks.len() {
        let tail = assembled(marks, values, i + 1);
        lemma_assembled(marks, values, i + 1);
        let rest = text.skip(marks[i].len() as int);
        assert(rest =~= values[i] + tail);
        assert(text.take(marks[i].len() as int) =~= marks[i]);
        let mark = marks[i + 1];
        if mark.len() > 0 {
            assert(tail.len() > 0 && tail[0] == mark[0]);
            lemma_up_to(values[i], tail, mark[0]);
        } else {
            assert(tail =~= Seq::<char>::empty());
            assert(rest =~= values[i]);
        }
        let field = next_field(rest, mark);
        assert(field == values[i]);
        assert(rest.skip(field.len() as int) =~= tail);
        assert(seq![field] + values.skip(i + 1) =~= values.skip(i));
    } else {
        assert(values.skip(i) =~= Seq::<Seq<char>>::empty());
    }
}

/// A number's text has no character but those of numbers.
proof fn lemma_free_of(x: Double, c: char)
    requires
        !is_number_char(c),
    ensures
        free_of(x.display_text(), c),
{
    assert forall|i: int| 0 <= i < x.display_text().len() implies #[trigger] x.display_text()[i]
        != c by {
        display_text_has_number_chars(x, i);
    }
}

/// Numbers as text, in order.
pub open spec fn number_texts(numbers: Seq<Double>) -> Seq<Seq<char>> {
    numbers.map_values(|x: Double| x.display_text())
}

proof fn lemma_read_numbers(marks: Seq<Seq<char>>, numbers: Seq<Double>)
    requires
        numbers.len() == marks.len() - 1,
        forall|j: int|
            0 < j < marks.len() && (#[trigger] marks[j]).len() > 0 ==> !is_number_char(marks[j][0]),
        forall|j: int| 0 < j < marks.len() && (#[trigger] marks[j]).len() == 0 ==> j + 1
            == marks.len(),
    ensures
        reads_as_fields(assembled(marks, number_texts(numbers), 0), marks, number_texts(numbers)),
{
    let values = number_texts(numbers);
    assert forall|j: int| 0 <= j < values.len() && marks[j + 1].len() > 0 implies free_of(
        #[trigger] values[j],
        marks[j + 1][0],
    ) by {
        lemma_free_of(numbers[j], marks[j + 1][0]);
    }
    lemma_assembled(marks, values, 0);
    assert(values.skip(0) =~= values);
}

/// Where the numbers stand in the scene's transformation.
pub open spec fn transform_marks() -> Seq<Seq<char>> {
    seq!["translate("@, "px, "@, "px) scale("@, ")"@]
}

/// The scene's transformation moves by the viewport's offset and scales by its zoom: a
/// reader finds the text of each where the browser looks for it.
pub proof fn transform_reads_back(v: Viewport)
    ensures
        reads_as_fields(
            transform_text(v.x.display_text(), v.y.display_text(), v.zoom.display_text()),
            transform_marks(),
            number_texts(seq![v.x, v.y, v.zoom]),
        ),
{
    reveal_strlit("px, ");
    reveal_strlit("px) scale(");
    reveal_strlit(")");
    let marks = transform_marks();
    let numbers = seq![v.x, v.y, v.zoom];
    lemma_read_numbers(marks, numbers);
    reveal_with_fuel(assembled, 4);
    assert(assembled(marks, number_texts(numbers), 0) =~= transform_text(
        v.x.display_text(),
        v.y.display_text(),
        v.zoom.display_text(),
    ));
}

/// Different viewports have different transformations.
pub proof fn transform_tells_viewports_apart(v: Viewport, w: Viewport)
    requires
        transform_text(v.x.display_text(), v.y.display_text(), v.zoom.display_text())
            == transform_text(w.x.display_text(), w.y.display_text(), w.zoom.display_text()),
    ensures
        v.x == w.x || v.x.nan() && w.x.nan(),
        v.y == w.y || v.y.nan() && w.y.nan(),
        v.zoom == w.zoom || v.zoom.nan() && w.zoom.nan(),
{
    transform_reads_back(v);
    transform_reads_back(w);
    let (a, b) = (
        number_texts(seq![v.x, v.y, v.zoom]),
        number_texts(seq![w.x, w.y, w.zoom]),
    );
    assert(a[0] == b[0] && a[1] == b[1] && a[2] == b[2]);
    display_text_tells_numbers_apart(v.x, w.x);
    display_text_tells_numbers_apart(v.y, w.y);
    display_text_tells_numbers_apart(v.zoom, w.zoom);
}

/// The style of the scene's layer puts its origin into the upper left corner, and
/// transforms it by the viewport's offset and zoom.
pub proof fn frame_style_reads_back(v: Viewport)
    ensures
        reads_as_fields(
            frame_style_text(v.x.display_text(), v.y.display_text(), v.zoom.display_text()),
            seq![
                "position: absolute; left: 0; top: 0; transform-origin: 0 0; transform: translate("@,
                "px, "@,
                "px) scale("@,
                "); will-change: transform;"@,
            ],
            number_texts(seq![v.x, v.y, v.zoom]),
        ),
{
    reveal_strlit("translate(");
    reveal_strlit("px, ");
    reveal_strlit("px) scale(");
    reveal_strlit(")");
    reveal_strlit("position: absolute; left: 0; top: 0; transform-origin: 0 0; transform: ");
    reveal_strlit(
        "position: absolute; left: 0; top: 0; transform-origin: 0 0; transform: translate(",
    );
    reveal_strlit("; will-change: transform;");
    reveal_strlit("); will-change: transform;");
    let head = "position: absolute; left: 0; top: 0; transform-origin: 0 0; transform: "@;
    let whole =
        "position: absolute; left: 0; top: 0; transform-origin: 0 0; transform: translate("@;
    assert(whole =~= head + "translate("@);
    assert("); will-change: transform;"@ =~= ")"@ + "; will-change: transform;"@);
    let marks = seq![whole, "px, "@, "px) scale("@, "); will-change: transform;"@];
    let numbers = seq![v.x, v.y, v.zoom];
    lemma_read_numbers(marks, numbers);
    reveal_with_fuel(assembled, 4);
    assert(assembled(marks, number_texts(numbers), 0) =~= frame_style_text(
        v.x.display_text(),
        v.y.display_text(),
        v.zoom.display_text(),
    ));
}

/// The background's position is the two numbers, in pixels.
pub proof fn background_position_reads_back(x: Double, y: Double)
    ensures
        reads_as_fields(
            background_position_text(x.display_text(), y.display_text()),
            seq![""@, "px "@, "px"@],
            number_texts(seq![x, y]),
        ),
{
    reveal_strlit("");
    reveal_strlit("px ");
    reveal_strlit("px");
    let marks = seq![""@, "px "@, "px"@];
    let numbers = seq![x, y];
    lemma_read_numbers(marks, numbers);
    reveal_with_fuel(assembled, 3);
    assert(assembled(marks, number_texts(numbers), 0) =~= background_position_text(
        x.display_text(),
        y.display_text(),
    ));
}

/// The background repeats the tile of dots, each as wide and as high as `size`, from
/// `(x, y)` on.
pub proof fn dots_style_reads_back(size: Double, x: Double, y: Double)
    ensures
        reads_as_fields(
            dots_style_text(size.display_text(), x.display_text(), y.display_text()),
            seq![
                "position: absolute; inset: 0; pointer-events: none; background-image: "@
                    + "url(\"data:image/svg+xml;utf8,<svg xmlns='http://www.w3.org/2000/svg' width='20' height='20'><circle cx='2' cy='2' r='1.4' fill='%2394a3b8' fill-opacity='0.45'/></svg>\")"@
                    + "; background-repeat: repeat; background-size: "@,
                "px "@,
                "px; background-position: "@,
                "px "@,
                "px;"@,
            ],
            number_texts(seq![size, size, x, y]),
        ),
{
    reveal_strlit("px ");
    reveal_strlit("px");
    reveal_strlit(";");
    reveal_strlit("px;");
    reveal_strlit("px; background-position: ");
    let head = "position: absolute; inset: 0; pointer-events: none; background-image: "@
        + DOTS_TILE@ + "; background-repeat: repeat; background-size: "@;
    assert("px;"@ =~= "px"@ + ";"@);
    let marks = seq![head, "px "@, "px; background-position: "@, "px "@, "px;"@];
    let numbers = seq![size, size, x, y];
    lemma_read_numbers(marks, numbers);
    reveal_with_fuel(assembled, 5);
    assert(assembled(marks, number_texts(numbers), 0) =~= dots_style_text(
        size.display_text(),
        x.display_text(),
        y.display_text(),
    ));
}

/// The style of a node's frame is the node's rectangle: a reader finds its left, its top,
/// its width and its height where the browser looks for them.
pub proof fn node_style_reads_back(node: FlowNode)
    ensures
        reads_as_fields(
            node_style_text(
                node.position.x.display_text(),
                node.position.y.display_text(),
                node.size.width.display_text(),
                node.size.height.display_text(),
            ),
            seq![
                "position: absolute; left: "@,
                "px; top: "@,
                "px; width: "@,
                "px; height: "@,
                "px; cursor: grab;"@,
            ],
            number_texts(seq![node.position.x, node.position.y, node.size.width, node.size.height]),
        ),
{
    reveal_strlit("px; top: ");
    reveal_strlit("px; width: ");
    reveal_strlit("px; height: ");
    reveal_strlit("px; cursor: grab;");
    let marks = seq![
        "position: absolute; left: "@,
        "px; top: "@,
        "px; width: "@,
        "px; height: "@,
        "px; cursor: grab;"@,
    ];
    let numbers = seq![node.position.x, node.position.y, node.size.width, node.size.height];
    lemma_read_numbers(marks, numbers);
    reveal_with_fuel(assembled, 5);
    assert(assembled(marks, number_texts(numbers), 0) =~= node_style_text(
        node.position.x.display_text(),
        node.position.y.display_text(),
        node.size.width.display_text(),
        node.size.height.display_text(),
    ));
}

/// The path of an edge starts at the curve's start, has both control points at the bend,
/// each at the height of the end next to it, and ends at the curve's end: a reader finds
/// the eight coordinates of a cubic curve.
pub proof fn edge_path_reads_back(c: EdgeCurve)
    ensures
        reads_as_fields(
            edge_path_text(
                c.x1.display_text(),
                c.y1.display_text(),
                c.mid_x.display_text(),
                c.x2.display_text(),
                c.y2.display_text(),
            ),
            seq!["M "@, " "@, " C "@, " "@, ", "@, " "@, ", "@, " "@, ""@],
            number_texts(seq![c.x1, c.y1, c.mid_x, c.y1, c.mid_x, c.y2, c.x2, c.y2]),
        ),
{
    reveal_strlit(" ");
    reveal_strlit(" C ");
    reveal_strlit(", ");
    reveal_strlit("");
    let marks = seq!["M "@, " "@, " C "@, " "@, ", "@, " "@, ", "@, " "@, ""@];
    let numbers = seq![c.x1, c.y1, c.mid_x, c.y1, c.mid_x, c.y2, c.x2, c.y2];
    lemma_read_numbers(marks, numbers);
    let values = number_texts(numbers);
    let p1 = marks[0] + values[0];
    let p2 = lemma_assembled_from(p1, marks, values, 1);
    let p3 = lemma_assembled_from(p2, marks, values, 2);
    let p4 = lemma_assembled_from(p3, marks, values, 3);
    let p5 = lemma_assembled_from(p4, marks, values, 4);
    let p6 = lemma_assembled_from(p5, marks, values, 5);
    let p7 = lemma_assembled_from(p6, marks, values, 6);
    let p8 = lemma_assembled_from(p7, marks, values, 7);
    assert(p8 + assembled(marks, values, 8) =~= p8);
}

/// What is assembled up to a mark, and what is assembled from it on.
proof fn lemma_assembled_from(
    front: Seq<char>,
    marks: Seq<Seq<char>>,
    values: Seq<Seq<char>>,
    i: int,
) -> (next: Seq<char>)
    requires
        0 <= i < marks.len() - 1,
    ensures
        next == front + marks[i] + values[i],
        next + assembled(marks, values, i + 1) == front + assembled(marks, values, i),
{
    let next = front + marks[i] + values[i];
    assert(next + assembled(marks, values, i + 1) =~= front + assembled(marks, values, i));
    next
}

/// The name of a canvas's marker ends in the canvas's number.
pub proof fn marker_id_reads_back(n: nat)
    ensures
        ({
            let id = marker_id_text(n);
            let digits = id.skip(18);
            &&& id.len() > 18
            &&& id.take(18) == "dioxus-flow-arrow-"@
            &&& all_digits(digits)
            &&& number_of(digits) == n
            &&& digits.len() > 1 ==> digits[0] != '0'
        }),
{
    reveal_strlit("dioxus-flow-arrow-");
    decimal_text_reads_back(n);
    let id = marker_id_text(n);
    assert(id.take(18) =~= "dioxus-flow-arrow-"@);
    assert(id.skip(18) =~= decimal_text(n));
}

} // verus!
