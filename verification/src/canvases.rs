//! The numbers that tell canvases apart.
use crate::style::{marker_id_text, markers_are_distinct};
use vstd::prelude::*;

verus! {

/// The number of the first canvas.
pub const FIRST_CANVAS: u64 = 1;

/// The numbers for canvases: each canvas takes one when it is made. After the last one
/// they start again at zero.
pub struct CanvasNumbers {
    /// The number that the next canvas gets.
    pub next: u64,
}

/// The number that canvas `i` gets, counting from the canvas that gets `first`.
pub open spec fn canvas_number(first: u64, i: nat) -> nat {
    (first + i) as nat % 0x1_0000_0000_0000_0000
}

impl CanvasNumbers {
    /// What is left of the numbers when `i` canvases have taken theirs.
    pub open spec fn after(self, i: nat) -> CanvasNumbers
        decreases i,
    {
        if i == 0 {
            self
        } else {
            self.after((i - 1) as nat).taken()
        }
    }

    /// What is left of the numbers when one more canvas has taken its own.
    pub open spec fn taken(self) -> CanvasNumbers {
        CanvasNumbers { next: if self.next == u64::MAX { 0 } else { (self.next + 1) as u64 } }
    }

    /// The number of a new canvas.
    pub fn take(&mut self) -> (r: u64)
        ensures
            r == old(self).next,
            *final(self) == old(self).taken(),
            final(self).next == (old(self).next + 1) % 0x1_0000_0000_0000_0000,
    {
        let r: u64 = self.next;
        self.next = r.wrapping_add(1);
        r
    }

    /// The number of a canvas, each time that it is drawn: `own` is the one that it has
    /// already. If it has none it takes one and keeps it.
    pub fn number_for(&mut self, own: &mut Option<u64>) -> (r: u64)
        ensures
            *final(own) == Some(r),
            match *old(own) {
                Some(number) => r == number && *final(self) == *old(self),
                None => r == old(self).next && *final(self) == old(self).taken(),
            },
    {
        match *own {
            Some(number) => number,
            None => {
                let number: u64 = self.take();
                *own = Some(number);
                number
            },
        }
    }
}

/// The numbers are taken in order. Counting from the first one, every number is at least
/// that until all are used up.
pub proof fn canvases_are_numbered_in_order(numbers: CanvasNumbers, i: nat)
    ensures
        numbers.after(i).next == canvas_number(numbers.next, i),
        numbers.next == FIRST_CANVAS && i < u64::MAX ==> numbers.after(i).next == 1 + i,
    decreases i,
{
    if i > 0 {
        canvases_are_numbered_in_order(numbers, (i - 1) as nat);
    }
}

/// No two canvases have the same number or the same marker, until all numbers are used
/// up.
pub proof fn canvases_have_markers_of_their_own(numbers: CanvasNumbers, i: nat, j: nat)
    requires
        i < j < i + 0x1_0000_0000_0000_0000,
    ensures
        numbers.after(i).next != numbers.after(j).next,
        marker_id_text(numbers.after(i).next as nat) != marker_id_text(
            numbers.after(j).next as nat,
        ),
{
    canvases_are_numbered_in_order(numbers, i);
    canvases_are_numbered_in_order(numbers, j);
    markers_are_distinct(numbers.after(i).next as nat, numbers.after(j).next as nat);
}

/// The canvases of a program: the numbers that are left, and the number that each canvas
/// has which has been drawn.
pub ghost struct Canvases {
    pub numbers: CanvasNumbers,
    pub own: Map<nat, u64>,
}

impl Canvases {
    /// No canvas has been drawn.
    pub open spec fn none() -> Canvases {
        Canvases { numbers: CanvasNumbers { next: FIRST_CANVAS }, own: Map::empty() }
    }

    /// The canvas `c` has been drawn, with the number that
    /// [`CanvasNumbers::number_for`] gives it.
    pub open spec fn drawn(self, c: nat) -> Canvases {
        if self.own.dom().contains(c) {
            self
        } else {
            Canvases {
                numbers: self.numbers.taken(),
                own: self.own.insert(c, self.numbers.next),
            }
        }
    }

    /// The canvases in `draws` have been drawn, one after the other and any of them again
    /// and again.
    pub open spec fn drawn_all(self, draws: Seq<nat>) -> Canvases
        decreases draws.len(),
    {
        if draws.len() == 0 {
            self
        } else {
            self.drawn_all(draws.drop_last()).drawn(draws.last())
        }
    }

    /// Every number is taken once, from the first one on.
    pub open spec fn numbered(self) -> bool {
        &&& self.own.dom().finite()
        &&& self.own.dom().len() <= u64::MAX ==> {
            &&& self.numbers.next == canvas_number(FIRST_CANVAS, self.own.dom().len())
            &&& forall|c: nat| #[trigger]
                self.own.dom().contains(c) ==> FIRST_CANVAS <= self.own[c]
                    <= self.own.dom().len()
            &&& forall|c: nat, d: nat|
                #![trigger self.own[c], self.own[d]]
                self.own.dom().contains(c) && self.own.dom().contains(d) && c != d
                    ==> self.own[c] != self.own[d]
        }
    }
}

proof fn lemma_numbered(draws: Seq<nat>)
    ensures
        Canvases::none().drawn_all(draws).numbered(),
    decreases draws.len(),
{
    if draws.len() > 0 {
        lemma_numbered(draws.drop_last());
        let before = Canvases::none().drawn_all(draws.drop_last());
        let after = before.drawn(draws.last());
        if !before.own.dom().contains(draws.last()) {
            assert(after.own.dom() =~= before.own.dom().insert(draws.last()));
        }
    } else {
        assert(Canvases::none().own.dom() =~= Set::empty());
    }
}

/// However often canvases are drawn, and in whatever order: until all numbers are used up,
/// every canvas has a number that is at least the first one, and two canvases have
/// different numbers and different markers.
pub proof fn drawn_canvases_have_markers_of_their_own(draws: Seq<nat>, c: nat, d: nat)
    requires
        c != d,
        ({
            let canvases = Canvases::none().drawn_all(draws);
            &&& canvases.own.dom().len() <= u64::MAX
            &&& canvases.own.dom().contains(c)
            &&& canvases.own.dom().contains(d)
        }),
    ensures
        ({
            let own = Canvases::none().drawn_all(draws).own;
            &&& own[c] >= FIRST_CANVAS
            &&& own[d] >= FIRST_CANVAS
            &&& own[c] != own[d]
            &&& marker_id_text(own[c] as nat) != marker_id_text(own[d] as nat)
        }),
{
    lemma_numbered(draws);
    let own = Canvases::none().drawn_all(draws).own;
    markers_are_distinct(own[c] as nat, own[d] as nat);
}

/// A canvas keeps its number, whatever is drawn after it.
pub proof fn drawn_canvas_keeps_its_number(canvases: Canvases, draws: Seq<nat>, c: nat)
    requires
        canvases.own.dom().contains(c),
    ensures
        canvases.drawn_all(draws).own.dom().contains(c),
        canvases.drawn_all(draws).own[c] == canvases.own[c],
    decreases draws.len(),
{
    if draws.len() > 0 {
        drawn_canvas_keeps_its_number(canvases, draws.drop_last(), c);
    }
}

} // verus!
