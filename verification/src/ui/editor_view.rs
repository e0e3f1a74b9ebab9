//! How presses and drags in the editor select text.
use vstd::prelude::*;

verus! {

/// What a press selects.
#[derive(Clone, Copy, PartialEq, Eq, Debug, Structural)]
pub enum Selecting {
    /// Nothing: the caret is placed.
    Caret,
    Word,
    Line,
    Document,
}

/// The state of the pointer over the editor.
pub struct EditorView {
    /// Whether a selection is dragged.
    pub dragging: bool,
    /// Presses in a row: one places the caret, two select a word, three a line, four all.
    pub click_count: u32,
}

/// The number of presses in a row after one more.
pub open spec fn next_count(count: u32, consecutive: bool) -> u32 {
    if consecutive {
        (count % 4 + 1) as u32
    } else {
        1
    }
}

/// What the last of so many presses in a row selects.
pub open spec fn selects(count: u32) -> Selecting {
    if count < 2 {
        Selecting::Caret
    } else if count == 2 {
        Selecting::Word
    } else if count == 3 {
        Selecting::Line
    } else {
        Selecting::Document
    }
}

impl EditorView {
    /// No press yet.
    pub fn new() -> (r: EditorView)
        ensures
            !r.dragging,
            r.click_count == 0,
    {
        EditorView { dragging: false, click_count: 0 }
    }

    /// A press at a place to which the caret goes: what it selects. Only a single press can
    /// be dragged on.
    pub fn on_press(&mut self, consecutive: bool) -> (r: Selecting)
        ensures
            final(self).click_count == next_count(old(self).click_count, consecutive),
            r == selects(final(self).click_count),
            final(self).dragging == (r == Selecting::Caret),
    {
        self.click_count = if consecutive {
            self.click_count % 4 + 1
        } else {
            1
        };
        if self.click_count >= 2 {
            self.dragging = false;
            if self.click_count == 2 {
                Selecting::Word
            } else if self.click_count == 3 {
                Selecting::Line
            } else {
                Selecting::Document
            }
        } else {
            self.dragging = true;
            Selecting::Caret
        }
    }

    /// Whether a move of the pointer extends the selection.
    pub fn on_drag(&self) -> (r: bool)
        ensures
            r == self.dragging,
    {
        self.dragging
    }

    /// The pointer is let go.
    pub fn on_release(&mut self)
        ensures
            !final(self).dragging,
            final(self).click_count == old(self).click_count,
    {
        self.dragging = false;
    }

    /// The byte of the text at which the caret goes, for a place on a line: none where the
    /// text has no such line. `starts` holds the byte at which each line starts, and the
    /// length of each stands in `lengths`.
    pub fn caret_byte(starts: &Vec<usize>, lengths: &Vec<usize>, line: usize, index: usize) -> (r: Option<usize>)
        requires
            starts@.len() == lengths@.len(),
            forall|i: int|
                0 <= i < starts@.len() ==> #[trigger] starts@[i] + lengths@[i] <= usize::MAX,
        ensures
            match r {
                Some(b) => line < starts@.len() && b == starts@[line as int] + (if index
                    <= lengths@[line as int] {
                    index
                } else {
                    lengths@[line as int]
                }),
                None => line >= starts@.len(),
            },
    {
        if line >= starts.len() {
            return None;
        }
        let col: usize = if index <= lengths[line] {
            index
        } else {
            lengths[line]
        };
        Some(starts[line] + col)
    }
}

/// Presses in a row go through caret, word, line and document, and begin again.
pub proof fn law_presses_cycle(count: u32)
    requires
        1 <= count <= 4,
    ensures
        1 <= next_count(count, true) <= 4,
        next_count(next_count(next_count(next_count(count, true), true), true), true) == count,
        selects(next_count(4, true)) == Selecting::Caret,
{
}

/// One press places the caret, the second in a row selects a word, the third a line and the fourth
/// all; a press on its own starts anew.
pub proof fn law_presses_select_more_and_more(count: u32)
    requires
        1 <= count <= 4,
    ensures
        selects(1) == Selecting::Caret,
        selects(2) == Selecting::Word,
        selects(3) == Selecting::Line,
        selects(4) == Selecting::Document,
        count < 4 ==> next_count(count, true) == count + 1,
        next_count(4, true) == 1,
        next_count(count, false) == 1,
{
}

} // verus!
