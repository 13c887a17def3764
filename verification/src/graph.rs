//! The nodes and edges that callers hand to the canvas.
use crate::double::Double;
use crate::geometry::{Point, Size};
use vstd::prelude::*;

verus! {

/// The name by which callers know a node.
#[derive(Debug, Hash)]
pub struct NodeId(pub String);

impl View for NodeId {
    type V = Seq<char>;

    open spec fn view(&self) -> Seq<char> {
        self.0@
    }
}

impl Clone for NodeId {
    fn clone(&self) -> (r: NodeId)
        ensures
            r == *self,
    {
        NodeId(self.0.clone())
    }
}

impl Default for NodeId {
    /// The empty name.
    fn default() -> (r: NodeId)
        ensures
            r@ == Seq::<char>::empty(),
    {
        NodeId(String::new())
    }
}

impl PartialEq for NodeId {
    fn eq(&self, other: &NodeId) -> (r: bool) {
        self.0 == other.0
    }
}

impl vstd::std_specs::cmp::PartialEqSpecImpl for NodeId {
    open spec fn obeys_eq_spec() -> bool {
        true
    }

    open spec fn eq_spec(&self, other: &NodeId) -> bool {
        self@ == other@
    }
}

impl Eq for NodeId {

}

impl From<String> for NodeId {
    fn from(value: String) -> (r: NodeId) {
        NodeId(value)
    }
}

impl vstd::std_specs::convert::FromSpecImpl<String> for NodeId {
    open spec fn obeys_from_spec() -> bool {
        true
    }

    open spec fn from_spec(value: String) -> NodeId {
        NodeId(value)
    }
}

impl From<&str> for NodeId {
    fn from(value: &str) -> (r: NodeId)
        ensures
            r@ == value@,
    {
        NodeId(value.to_owned())
    }
}

impl vstd::std_specs::convert::FromSpecImpl<&str> for NodeId {
    open spec fn obeys_from_spec() -> bool {
        false
    }

    open spec fn from_spec(value: &str) -> NodeId {
        arbitrary()
    }
}

/// A node: its name and the rectangle that it takes up in the graph.
#[derive(Debug)]
pub struct FlowNode {
    pub id: NodeId,
    pub position: Point,
    pub size: Size,
}

impl Clone for FlowNode {
    fn clone(&self) -> (r: FlowNode)
        ensures
            r == *self,
    {
        FlowNode { id: self.id.clone(), position: self.position, size: self.size }
    }
}

impl PartialEq for FlowNode {
    fn eq(&self, other: &FlowNode) -> (r: bool) {
        self.id == other.id && self.position == other.position && self.size == other.size
    }
}

impl vstd::std_specs::cmp::PartialEqSpecImpl for FlowNode {
    open spec fn obeys_eq_spec() -> bool {
        true
    }

    open spec fn eq_spec(&self, other: &FlowNode) -> bool {
        &&& self.id@ == other.id@
        &&& self.position.same_as(other.position)
        &&& self.size.same_as(other.size)
    }
}

/// How an edge is emphasized relative to the rest of the graph.
#[derive(Clone, Copy, Debug, PartialEq, Eq, Structural)]
pub enum EdgeEmphasis {
    Normal,
    /// Highlighted, e.g. part of the hovered node's ancestor chain.
    Highlight,
    /// Pushed into the background while some other chain is highlighted.
    Dim,
}

impl Default for EdgeEmphasis {
    fn default() -> (r: EdgeEmphasis)
        ensures
            r == EdgeEmphasis::Normal,
    {
        EdgeEmphasis::Normal
    }
}

/// An edge from the right side of one node to the left side of another.
#[derive(Debug)]
pub struct FlowEdge {
    pub id: String,
    pub source: NodeId,
    pub target: NodeId,
    /// How far below the middle of the source's side the edge leaves.
    pub source_offset: Double,
    /// How far below the middle of the target's side the edge arrives.
    pub target_offset: Double,
    pub label: Option<String>,
    /// Render with a dashed stroke (e.g. for a special edge kind).
    pub dashed: bool,
    pub emphasis: EdgeEmphasis,
}

/// What a label, if there is one, says.
pub open spec fn label_view(label: Option<String>) -> Option<Seq<char>> {
    match label {
        None => None,
        Some(text) => Some(text@),
    }
}

impl Clone for FlowEdge {
    fn clone(&self) -> (r: FlowEdge)
        ensures
            r == *self,
    {
        FlowEdge {
            id: self.id.clone(),
            source: self.source.clone(),
            target: self.target.clone(),
            source_offset: self.source_offset,
            target_offset: self.target_offset,
            label: match &self.label {
                None => None,
                Some(text) => Some(text.clone()),
            },
            dashed: self.dashed,
            emphasis: self.emphasis,
        }
    }
}

impl PartialEq for FlowEdge {
    fn eq(&self, other: &FlowEdge) -> (r: bool) {
        let same_label: bool = match (&self.label, &other.label) {
            (None, None) => true,
            (Some(a), Some(b)) => *a == *b,
            _ => false,
        };
        self.id == other.id && self.source == other.source && self.target == other.target
            && self.source_offset == other.source_offset && self.target_offset
            == other.target_offset && same_label && self.dashed == other.dashed && self.emphasis
            == other.emphasis
    }
}

impl vstd::std_specs::cmp::PartialEqSpecImpl for FlowEdge {
    open spec fn obeys_eq_spec() -> bool {
        true
    }

    open spec fn eq_spec(&self, other: &FlowEdge) -> bool {
        &&& self.id@ == other.id@
        &&& self.source@ == other.source@
        &&& self.target@ == other.target@
        &&& self.source_offset.spec_eq(other.source_offset)
        &&& self.target_offset.spec_eq(other.target_offset)
        &&& label_view(self.label) == label_view(other.label)
        &&& self.dashed == other.dashed
        &&& self.emphasis == other.emphasis
    }
}

impl Default for FlowEdge {
    /// An unnamed, unlabelled edge without style.
    fn default() -> (r: FlowEdge)
        ensures
            r.id@ == Seq::<char>::empty(),
            r.source@ == Seq::<char>::empty(),
            r.target@ == Seq::<char>::empty(),
            r.source_offset.bits == 0,
            r.target_offset.bits == 0,
            r.label is None,
            !r.dashed,
            r.emphasis == EdgeEmphasis::Normal,
    {
        FlowEdge {
            id: String::new(),
            source: NodeId::default(),
            target: NodeId::default(),
            source_offset: Double { bits: 0 },
            target_offset: Double { bits: 0 },
            label: None,
            dashed: false,
            emphasis: EdgeEmphasis::Normal,
        }
    }
}

/// The class list of an edge with the given style.
pub open spec fn edge_class(dashed: bool, emphasis: EdgeEmphasis) -> Seq<char> {
    let base = "flow-edge"@ + if dashed {
        " flow-edge--dashed"@
    } else {
        Seq::empty()
    };
    match emphasis {
        EdgeEmphasis::Normal => base,
        EdgeEmphasis::Highlight => base + " flow-edge--highlight"@,
        EdgeEmphasis::Dim => base + " flow-edge--dim"@,
    }
}

/// The class list tells every style from every other.
pub proof fn classes_tell_styles_apart(
    dashed: bool,
    emphasis: EdgeEmphasis,
    other_dashed: bool,
    other_emphasis: EdgeEmphasis,
)
    requires
        edge_class(dashed, emphasis) == edge_class(other_dashed, other_emphasis),
    ensures
        dashed == other_dashed,
        emphasis == other_emphasis,
{
    lemma_class_length(dashed, emphasis);
    lemma_class_length(other_dashed, other_emphasis);
}

proof fn lemma_class_length(dashed: bool, emphasis: EdgeEmphasis)
    ensures
        edge_class(dashed, emphasis).len() == 9 + (if dashed {
            18int
        } else {
            0
        }) + match emphasis {
            EdgeEmphasis::Normal => 0int,
            EdgeEmphasis::Highlight => 21,
            EdgeEmphasis::Dim => 15,
        },
{
    reveal_strlit("flow-edge");
    reveal_strlit(" flow-edge--dashed");
    reveal_strlit(" flow-edge--highlight");
    reveal_strlit(" flow-edge--dim");
}

impl FlowEdge {
    /// The CSS class list by which callers style the edge.
    pub fn class(&self) -> (r: String)
        ensures
            r@ == edge_class(self.dashed, self.emphasis),
            !self.dashed && self.emphasis == EdgeEmphasis::Normal ==> r@ == "flow-edge"@,
            self.dashed && self.emphasis == EdgeEmphasis::Normal ==> r@ == "flow-edge"@
                + " flow-edge--dashed"@,
            !self.dashed && self.emphasis == EdgeEmphasis::Highlight ==> r@ == "flow-edge"@
                + " flow-edge--highlight"@,
            self.dashed && self.emphasis == EdgeEmphasis::Highlight ==> r@ == "flow-edge"@
                + " flow-edge--dashed"@ + " flow-edge--highlight"@,
            !self.dashed && self.emphasis == EdgeEmphasis::Dim ==> r@ == "flow-edge"@
                + " flow-edge--dim"@,
            self.dashed && self.emphasis == EdgeEmphasis::Dim ==> r@ == "flow-edge"@
                + " flow-edge--dashed"@ + " flow-edge--dim"@,
    {
        let mut class: String = "flow-edge".to_owned();
        if self.dashed {
            class.append(" flow-edge--dashed");
        }
        match self.emphasis {
            EdgeEmphasis::Normal => {}
            EdgeEmphasis::Highlight => class.append(" flow-edge--highlight"),
            EdgeEmphasis::Dim => class.append(" flow-edge--dim"),
        }
        assert(class@ =~= edge_class(self.dashed, self.emphasis));
        class
    }
}

/// A request to place a node elsewhere.
#[derive(Debug)]
pub struct NodeMove {
    pub id: NodeId,
    pub position: Point,
}

impl Clone for NodeMove {
    fn clone(&self) -> (r: NodeMove)
        ensures
            r == *self,
    {
        NodeMove { id: self.id.clone(), position: self.position }
    }
}

impl PartialEq for NodeMove {
    fn eq(&self, other: &NodeMove) -> (r: bool) {
        self.id == other.id && self.position == other.position
    }
}

impl vstd::std_specs::cmp::PartialEqSpecImpl for NodeMove {
    open spec fn obeys_eq_spec() -> bool {
        true
    }

    open spec fn eq_spec(&self, other: &NodeMove) -> bool {
        &&& self.id@ == other.id@
        &&& self.position.same_as(other.position)
    }
}

} // verus!
