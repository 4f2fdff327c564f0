//! What the pointer does on a page: drawing a stroke, selecting labels and moving them.
//!
//! The page is laid out by the caller. It says where the pointer is, in a type of its
//! choice, and which label lies under it; the gestures here decide what follows.

use crate::notebook::TextElement;
use crate::placement::holds;
use crate::search::marked;
use vstd::prelude::*;

verus! {

/// A stroke while it is drawn.
pub struct StrokeGesture<P> {
    points: Vec<P>,
    drawing: bool,
}

/// What follows from a drag with the selection tool.
#[derive(Debug, PartialEq, Eq)]
pub enum DragAction<P> {
    /// The selection frame changed: the labels under it are to be selected anew.
    UpdateSelection,
    /// The selected labels are to be moved as far as the pointer went since `from`.
    MoveSelected { from: P },
    /// Nothing is to be done.
    Nothing,
}

/// The selection of labels, and the frame or the drag that is under way.
pub struct Selection<P> {
    selecting: bool,
    start: Option<P>,
    end: Option<P>,
    selected: Vec<usize>,
}

/// The texts of the labels that `selected` names, in that order, a line feed between
/// one and the next. An index that names no label is passed over, and nothing is put in
/// front of a text while all before it are empty.
pub open spec fn joined<G>(elements: Seq<TextElement<G>>, selected: Seq<usize>) -> Seq<char>
    decreases selected.len(),
{
    if selected.len() == 0 {
        Seq::empty()
    } else {
        let before = joined(elements, selected.drop_last());
        if selected.last() >= elements.len() {
            before
        } else if before.len() == 0 {
            elements[selected.last() as int].text@
        } else {
            before.push('\n') + elements[selected.last() as int].text@
        }
    }
}

/// Whether a character is a decimal digit.
pub open spec fn is_digit(c: char) -> bool {
    48 <= c as u32 <= 57
}

/// The number that a sequence of decimal digits stands for.
pub open spec fn digits_value(digits: Seq<char>) -> nat
    decreases digits.len(),
{
    if digits.len() == 0 {
        0
    } else {
        digits_value(digits.drop_last()) * 10 + (digits.last() as u32 - 48) as nat
    }
}

/// A text without the plus sign that may start it.
pub open spec fn unsigned_part(text: Seq<char>) -> Seq<char> {
    if text.len() > 0 && text[0] == '+' {
        text.drop_first()
    } else {
        text
    }
}

/// Whether a text is a number: decimal digits, at least one, after an optional plus sign.
pub open spec fn is_number(text: Seq<char>) -> bool {
    let digits = unsigned_part(text);
    digits.len() > 0 && forall|i: int| 0 <= i < digits.len() ==> is_digit(#[trigger] digits[i])
}

/// The number of pages that a text asks for: the number it spells out, from 1 to 100.
pub open spec fn page_count_of(text: Seq<char>) -> Option<usize> {
    if is_number(text) && 1 <= digits_value(unsigned_part(text)) <= 100 {
        Some(digits_value(unsigned_part(text)) as usize)
    } else {
        None
    }
}

impl<P> StrokeGesture<P> {
    /// The points drawn so far.
    pub closed spec fn points(&self) -> Seq<P> {
        self.points@
    }

    /// Whether a stroke is being drawn.
    pub closed spec fn drawing(&self) -> bool {
        self.drawing
    }

    /// No stroke is being drawn.
    pub fn new() -> (gesture: Self)
        ensures
            gesture.points() == Seq::<P>::empty(),
            !gesture.drawing(),
    {
        StrokeGesture { points: Vec::new(), drawing: false }
    }

    /// Whether a stroke is being drawn.
    pub fn is_drawing(&self) -> (drawing: bool)
        ensures
            drawing == self.drawing(),
    {
        self.drawing
    }

    /// The points drawn so far.
    pub fn current_points(&self) -> (points: &Vec<P>)
        ensures
            points@ == self.points(),
    {
        &self.points
    }

    /// The pointer went down: a stroke starts at `at`.
    pub fn drag_started(&mut self, at: P)
        ensures
            final(self).drawing(),
            final(self).points() == seq![at],
    {
        let mut points: Vec<P> = Vec::new();
        points.push(at);
        self.points = points;
        self.drawing = true;
    }

    /// The pointer moved while down: the stroke that is drawn, if any, runs on to `at`.
    pub fn dragged(&mut self, at: P)
        ensures
            final(self).drawing() == old(self).drawing(),
            final(self).points() == (if old(self).drawing() {
                old(self).points().push(at)
            } else {
                old(self).points()
            }),
    {
        if self.drawing {
            self.points.push(at);
        }
    }

    /// The pointer went up: the stroke is done. It is handed out if it has more than one
    /// point; a single point is no stroke.
    pub fn drag_stopped(&mut self) -> (stroke: Option<Vec<P>>)
        ensures
            !final(self).drawing(),
            final(self).points() == Seq::<P>::empty(),
            stroke is Some <==> old(self).drawing() && old(self).points().len() > 1,
            stroke is Some ==> stroke->0@ == old(self).points(),
    {
        let mut points: Vec<P> = Vec::new();
        std::mem::swap(&mut self.points, &mut points);
        let finished = self.drawing && points.len() > 1;
        self.drawing = false;
        if finished {
            Some(points)
        } else {
            None
        }
    }

    /// Gives up the stroke that is being drawn.
    pub fn cancel(&mut self)
        ensures
            !final(self).drawing(),
            final(self).points() == Seq::<P>::empty(),
    {
        self.points = Vec::new();
        self.drawing = false;
    }
}

impl<P: Copy> Selection<P> {
    /// Whether a selection frame is being drawn.
    pub closed spec fn selecting(&self) -> bool {
        self.selecting
    }

    /// Where the frame started, or where the pointer was when the drag last moved.
    pub closed spec fn start(&self) -> Option<P> {
        self.start
    }

    /// Where the frame ends.
    pub closed spec fn end(&self) -> Option<P> {
        self.end
    }

    /// The indices of the selected labels.
    pub closed spec fn selected(&self) -> Seq<usize> {
        self.selected@
    }

    /// Nothing is selected and no frame is drawn.
    pub fn new() -> (selection: Self)
        ensures
            !selection.selecting(),
            selection.start() is None,
            selection.end() is None,
            selection.selected() == Seq::<usize>::empty(),
    {
        Selection { selecting: false, start: None, end: None, selected: Vec::new() }
    }

    /// Whether a selection frame is being drawn.
    pub fn is_selecting(&self) -> (selecting: bool)
        ensures
            selecting == self.selecting(),
    {
        self.selecting
    }

    /// Where the frame started, or where the pointer was when the drag last moved.
    pub fn selection_start(&self) -> (start: Option<P>)
        ensures
            start == self.start(),
    {
        self.start
    }

    /// Where the frame ends.
    pub fn selection_end(&self) -> (end: Option<P>)
        ensures
            end == self.end(),
    {
        self.end
    }

    /// The indices of the selected labels.
    pub fn selected_elements(&self) -> (selected: &Vec<usize>)
        ensures
            selected@ == self.selected(),
    {
        &self.selected
    }

    /// The pointer went down at `at`, on the label `hit` if on any. On a selected label
    /// this starts moving the selection. Anywhere else it starts a new frame and drops
    /// what was selected.
    pub fn drag_started(&mut self, at: P, hit: Option<usize>)
        ensures
            final(self).start() == Some(at),
            hit is Some && old(self).selected().contains(hit->0) ==> (!final(self).selecting()
                && (final(self).end() == old(self).end())
                && (final(self).selected() == old(self).selected())),
            !(hit is Some && old(self).selected().contains(hit->0)) ==> (final(self).selecting()
                && (final(self).end() == Some(at))
                && (final(self).selected() == Seq::<usize>::empty())),
    {
        let on_selected = match hit {
            Some(index) => holds(&self.selected, index),
            None => false,
        };
        self.start = Some(at);
        if on_selected {
            self.selecting = false;
        } else {
            self.selecting = true;
            self.end = Some(at);
            self.selected = Vec::new();
        }
    }

    /// The pointer moved to `at` while down. A frame that is being drawn now ends there.
    /// Else, if labels are selected and the drag has a start, they are to be moved, and
    /// the next move counts from `at`.
    pub fn dragged(&mut self, at: P) -> (action: DragAction<P>)
        ensures
            final(self).selecting() == old(self).selecting(),
            final(self).selected() == old(self).selected(),
            old(self).selecting() ==> ((action == DragAction::<P>::UpdateSelection)
                && (final(self).start() == old(self).start())
                && (final(self).end() == Some(at))),
            !old(self).selecting() && old(self).selected().len() > 0 && old(self).start() is Some ==> (action == (DragAction::MoveSelected { from: old(self).start()->0 })
                && (final(self).start() == Some(at))
                && (final(self).end() == old(self).end())),
            !old(self).selecting() && !(old(self).selected().len() > 0 && old(self).start() is Some) ==> ((action == DragAction::<P>::Nothing)
                && (final(self).start() == old(self).start())
                && (final(self).end() == old(self).end())),
    {
        if self.selecting {
            self.end = Some(at);
            DragAction::UpdateSelection
        } else if self.selected.len() > 0 {
            match self.start {
                Some(from) => {
                    self.start = Some(at);
                    DragAction::MoveSelected { from }
                },
                None => DragAction::Nothing,
            }
        } else {
            DragAction::Nothing
        }
    }

    /// The pointer went up. Says whether a frame was being drawn: the labels under it
    /// are then to be selected one last time.
    pub fn drag_stopped(&mut self) -> (update: bool)
        ensures
            update == old(self).selecting(),
            !final(self).selecting(),
            final(self).start() == old(self).start(),
            final(self).end() == old(self).end(),
            final(self).selected() == old(self).selected(),
    {
        let update = self.selecting;
        self.selecting = false;
        update
    }

    /// The pointer clicked, on the label `hit` if on any. A click on no label drops what
    /// was selected.
    pub fn clicked(&mut self, hit: Option<usize>)
        ensures
            final(self).selecting() == old(self).selecting(),
            final(self).start() == old(self).start(),
            final(self).end() == old(self).end(),
            final(self).selected() == (if hit is None {
                Seq::<usize>::empty()
            } else {
                old(self).selected()
            }),
    {
        if hit.is_none() {
            self.selected = Vec::new();
        }
    }

    /// Selects the labels under the frame: those for which `hits` holds `true`, in their
    /// order. Without a frame nothing is selected.
    pub fn select_hits(&mut self, hits: &Vec<bool>)
        ensures
            final(self).selecting() == old(self).selecting(),
            final(self).start() == old(self).start(),
            final(self).end() == old(self).end(),
            final(self).selected() == (if old(self).start() is Some && old(self).end() is Some {
                marked(hits@)
            } else {
                Seq::<usize>::empty()
            }),
    {
        let mut selected: Vec<usize> = Vec::new();
        if self.start.is_some() && self.end.is_some() {
            let mut i: usize = 0;
            while i < hits.len()
                invariant
                    i <= hits@.len(),
                    selected@ == marked(hits@.take(i as int)),
                decreases hits@.len() - i,
            {
                proof {
                    assert(hits@.take(i + 1).drop_last() == hits@.take(i as int));
                }
                if hits[i] {
                    selected.push(i);
                }
                i = i + 1;
            }
            proof {
                assert(hits@.take(hits@.len() as int) == hits@);
            }
        }
        self.selected = selected;
    }

    /// Drops the selection and the frame.
    pub fn clear(&mut self)
        ensures
            !final(self).selecting(),
            final(self).start() is None,
            final(self).end() is None,
            final(self).selected() == Seq::<usize>::empty(),
    {
        self.selecting = false;
        self.start = None;
        self.end = None;
        self.selected = Vec::new();
    }
}

/// The text to copy for a selection: the texts of the selected labels, one after the
/// other, or nothing where no label is selected.
pub fn selection_text<G>(elements: &Vec<TextElement<G>>, selected: &Vec<usize>) -> (text: Option<String>)
    ensures
        text is None <==> selected@.len() == 0,
        text is Some ==> text->0@ == joined(elements@, selected@),
{
    if selected.len() == 0 {
        return None;
    }
    let mut combined = String::new();
    let mut j: usize = 0;
    while j < selected.len()
        invariant
            j <= selected@.len(),
            combined@ == joined(elements@, selected@.take(j as int)),
        decreases selected@.len() - j,
    {
        proof {
            assert(selected@.take(j + 1).drop_last() == selected@.take(j as int));
        }
        let index = selected[j];
        if index < elements.len() {
            if !combined.as_str().is_empty() {
                combined.push('\n');
            }
            combined.append(elements[index].text.as_str());
            proof {
                assert(Seq::<char>::empty() + elements@[index as int].text@ == elements@[index as int].text@);
            }
        }
        j = j + 1;
    }
    proof {
        assert(selected@.take(selected@.len() as int) == selected@);
    }
    Some(combined)
}

/// Reads the number of pages that a user asks for. The text must be a number from 1 to
/// 100, in decimal digits, with nothing around it but a plus sign in front.
pub fn requested_page_count(input: &str) -> (count: Option<usize>)
    ensures
        count == page_count_of(input@),
{
    let mut value: usize = 0;
    let mut at_start = true;
    let mut any_digit = false;
    let mut valid = true;
    let ghost mut first: int = 0;
    proof {
        assert(input@.subrange(0, 0) == Seq::<char>::empty());
    }
    for c in it: input.chars()
        invariant
            it.seq() == input@,
            at_start == (it.index() == 0),
            first == (if it.index() > 0 && input@[0] == '+' { 1int } else { 0int }),
            any_digit == (it.index() > first),
            valid ==> (forall|i: int| first <= i < it.index() ==> is_digit(#[trigger] input@[i])),
            valid && any_digit ==> value == (if digits_value(input@.subrange(first, it.index() as int)) > 100 {
                101
            } else {
                digits_value(input@.subrange(first, it.index() as int))
            }),
            !any_digit ==> value == 0,
            !valid ==> !is_number(input@),
            value <= 101,
    {
        let ghost i = it.index() as int;
        let v = c as u32;
        if at_start && c == '+' {
            proof {
                first = 1;
                assert(input@.subrange(1, 1) == Seq::<char>::empty());
            }
        } else if 48 <= v && v <= 57 {
            proof {
                let longer = input@.subrange(first, i + 1);
                assert(longer.drop_last() == input@.subrange(first, i));
                assert(longer.last() == c);
                assert(input@.subrange(first, first) == Seq::<char>::empty());
                assert(digits_value(longer) == digits_value(input@.subrange(first, i)) * 10 + (v - 48));
                if !any_digit {
                    assert(i == first);
                    assert(digits_value(input@.subrange(first, i)) == 0);
                }
            }
            let d = (v - 48) as usize;
            value = if value > 100 {
                101
            } else if value * 10 + d > 100 {
                101
            } else {
                value * 10 + d
            };
            any_digit = true;
        } else {
            proof {
                let body = unsigned_part(input@);
                assert(body[i - first] == input@[i]);
                assert(!is_digit(body[i - first]));
            }
            valid = false;
            any_digit = true;
        }
        at_start = false;
    }
    proof {
        let body = unsigned_part(input@);
        assert(body == input@.subrange(first, input@.len() as int));
        if valid && any_digit {
            assert forall|i: int| 0 <= i < body.len() implies is_digit(#[trigger] body[i]) by {
                assert(body[i] == input@[first + i]);
            }
        }
    }
    if valid && any_digit && 1 <= value && value <= 100 {
        Some(value)
    } else {
        None
    }
}

} // verus!
