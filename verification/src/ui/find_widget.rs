//! The find widget: which of its parts lies under a point.
use vstd::prelude::*;

verus! {

/// A part of the widget that can be pressed.
#[derive(Clone, Copy, PartialEq, Eq, Debug, Structural)]
pub enum FindBtn {
    /// Shows the row of the replacement, or hides it.
    Expand,
    Case,
    Word,
    Regex,
    Prev,
    Next,
    Close,
    Replace,
    ReplaceAll,
}

/// Something for each part of the widget: its place, or whether a point lies in it. The parts
/// of the replacement are missing while its row is hidden.
pub struct FindLayout<R> {
    pub panel: R,
    pub expand: R,
    pub find_input: R,
    /// The part of the input that holds text, beside the marks of the options.
    pub find_text: R,
    pub case: R,
    pub word: R,
    pub regex: R,
    pub count: R,
    pub prev: R,
    pub next: R,
    pub close: R,
    pub replace_input: Option<R>,
    pub replace_btn: Option<R>,
    pub replace_all: Option<R>,
}

/// The shape of the pointer.
#[derive(Clone, Copy, PartialEq, Eq, Debug, Structural)]
pub enum Cursor {
    Pointer,
    Text,
    Default,
}

/// What the layout holds for a button.
pub open spec fn at_button<R>(l: FindLayout<R>, b: FindBtn) -> Option<R> {
    match b {
        FindBtn::Expand => Some(l.expand),
        FindBtn::Case => Some(l.case),
        FindBtn::Word => Some(l.word),
        FindBtn::Regex => Some(l.regex),
        FindBtn::Prev => Some(l.prev),
        FindBtn::Next => Some(l.next),
        FindBtn::Close => Some(l.close),
        FindBtn::Replace => l.replace_btn,
        FindBtn::ReplaceAll => l.replace_all,
    }
}

/// The buttons in the order in which they are looked at.
pub open spec fn buttons() -> Seq<FindBtn> {
    seq![
        FindBtn::Expand,
        FindBtn::Case,
        FindBtn::Word,
        FindBtn::Regex,
        FindBtn::Prev,
        FindBtn::Next,
        FindBtn::Close,
        FindBtn::Replace,
        FindBtn::ReplaceAll,
    ]
}

/// The first button under the point, from the `k`-th on.
pub open spec fn first_under(l: FindLayout<bool>, k: int) -> Option<FindBtn>
    decreases buttons().len() - k,
{
    if k < 0 || k >= buttons().len() {
        None
    } else if at_button(l, buttons()[k]) == Some(true) {
        Some(buttons()[k])
    } else {
        first_under(l, k + 1)
    }
}

/// The widget.
pub struct FindWidget {
    /// The button under the pointer.
    pub hover: Option<FindBtn>,
}

impl FindWidget {
    /// What the layout holds for a button.
    pub fn btn_rect<R: Copy>(l: &FindLayout<R>, b: FindBtn) -> (r: Option<R>)
        ensures
            r == at_button(*l, b),
    {
        match b {
            FindBtn::Expand => Some(l.expand),
            FindBtn::Case => Some(l.case),
            FindBtn::Word => Some(l.word),
            FindBtn::Regex => Some(l.regex),
            FindBtn::Prev => Some(l.prev),
            FindBtn::Next => Some(l.next),
            FindBtn::Close => Some(l.close),
            FindBtn::Replace => l.replace_btn,
            FindBtn::ReplaceAll => l.replace_all,
        }
    }

    /// The button under a point, where the layout says of each part whether the point lies
    /// in it.
    pub fn button_at(l: &FindLayout<bool>) -> (r: Option<FindBtn>)
        ensures
            r == first_under(*l, 0),
    {
        let all: [FindBtn; 9] = [
            FindBtn::Expand,
            FindBtn::Case,
            FindBtn::Word,
            FindBtn::Regex,
            FindBtn::Prev,
            FindBtn::Next,
            FindBtn::Close,
            FindBtn::Replace,
            FindBtn::ReplaceAll,
        ];
        assert(all@ =~= buttons());
        let mut k: usize = 0;
        while k < 9
            invariant
                k <= 9,
                all@ == buttons(),
                buttons().len() == 9,
                first_under(*l, k as int) == first_under(*l, 0),
            decreases 9 - k,
        {
            let b = all[k];
            assert(b == buttons()[k as int]);
            if let Some(inside) = FindWidget::btn_rect(l, b) {
                if inside {
                    return Some(b);
                }
            }
            k = k + 1;
        }
        None
    }

    /// The shape of the pointer at a point; none where the point is not on the widget.
    pub fn cursor(l: &FindLayout<bool>) -> (r: Option<Cursor>)
        ensures
            r == (if first_under(*l, 0) is Some {
                Some(Cursor::Pointer)
            } else if l.find_text || l.replace_input == Some(true) {
                Some(Cursor::Text)
            } else if l.panel {
                Some(Cursor::Default)
            } else {
                None
            }),
    {
        if FindWidget::button_at(l).is_some() {
            return Some(Cursor::Pointer);
        }
        let in_replace = match l.replace_input {
            Some(b) => b,
            None => false,
        };
        if l.find_text || in_replace {
            return Some(Cursor::Text);
        }
        if l.panel {
            return Some(Cursor::Default);
        }
        None
    }
}

/// While the row of the replacement is hidden, none of its buttons is ever under the point.
pub proof fn law_hidden_row_has_no_buttons(l: FindLayout<bool>)
    requires
        l.replace_btn is None,
        l.replace_all is None,
    ensures
        first_under(l, 0) != Some(FindBtn::Replace),
        first_under(l, 0) != Some(FindBtn::ReplaceAll),
{
    reveal_with_fuel(first_under, 10);
}

proof fn lemma_under(l: FindLayout<bool>, k: int)
    requires
        0 <= k <= 9,
    ensures
        match first_under(l, k) {
            Some(b) => at_button(l, b) == Some(true),
            None => forall|j: int|
                k <= j < 9 ==> at_button(l, #[trigger] buttons()[j]) != Some(true),
        },
    decreases 9 - k,
{
    assert(buttons().len() == 9);
    if k < 9 && at_button(l, buttons()[k]) != Some(true) {
        lemma_under(l, k + 1);
    }
}

/// A button is found under the pointer exactly where its own place is.
pub proof fn law_buttons_are_found_at_their_places(l: FindLayout<bool>)
    ensures
        first_under(l, 0) == Some(FindBtn::Expand) ==> l.expand,
        first_under(l, 0) == Some(FindBtn::Case) ==> l.case,
        first_under(l, 0) == Some(FindBtn::Word) ==> l.word,
        first_under(l, 0) == Some(FindBtn::Regex) ==> l.regex,
        first_under(l, 0) == Some(FindBtn::Prev) ==> l.prev,
        first_under(l, 0) == Some(FindBtn::Next) ==> l.next,
        first_under(l, 0) == Some(FindBtn::Close) ==> l.close,
        first_under(l, 0) == Some(FindBtn::Replace) ==> l.replace_btn == Some(true),
        first_under(l, 0) == Some(FindBtn::ReplaceAll) ==> l.replace_all == Some(true),
        first_under(l, 0) is None <==> !l.expand && !l.case && !l.word && !l.regex && !l.prev && !l.next
            && !l.close && l.replace_btn != Some(true) && l.replace_all != Some(true),
{
    lemma_under(l, 0);
    if first_under(l, 0) is None {
        assert(at_button(l, buttons()[0]) != Some(true));
        assert(at_button(l, buttons()[1]) != Some(true));
        assert(at_button(l, buttons()[2]) != Some(true));
        assert(at_button(l, buttons()[3]) != Some(true));
        assert(at_button(l, buttons()[4]) != Some(true));
        assert(at_button(l, buttons()[5]) != Some(true));
        assert(at_button(l, buttons()[6]) != Some(true));
        assert(at_button(l, buttons()[7]) != Some(true));
        assert(at_button(l, buttons()[8]) != Some(true));
    }
}

} // verus!
