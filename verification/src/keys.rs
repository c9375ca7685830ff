//! Key presses and list cursors, as the terminal front end exchanges them with
//! the application state.
use vstd::prelude::*;

verus! {

/// A key of the keyboard.
#[derive(Debug, Clone, Copy, PartialEq, Eq, Structural)]
pub enum KeyCode {
    Backspace,
    Enter,
    Left,
    Right,
    Up,
    Down,
    Home,
    End,
    PageUp,
    PageDown,
    Tab,
    BackTab,
    Delete,
    Insert,
    /// A function key by its number.
    F(u8),
    /// A key that types a character.
    Char(char),
    Null,
    Esc,
    CapsLock,
    ScrollLock,
    NumLock,
    PrintScreen,
    Pause,
    Menu,
    KeypadBegin,
    /// A key for playing media.
    Media,
    /// A modifier key on its own.
    Modifier,
}

/// The scroll offset and the cursor of a list on the screen.
#[derive(Debug, Clone, Copy, PartialEq, Eq, Hash, Structural)]
pub struct ListState {
    pub offset: usize,
    pub selected: Option<usize>,
}

impl Default for ListState {
    fn default() -> (r: Self)
        ensures
            r == ListState::unselected(),
    {
        ListState { offset: 0, selected: None }
    }
}

impl ListState {
    /// A list at its top, without a cursor.
    pub open spec fn unselected() -> ListState {
        ListState { offset: 0, selected: None }
    }

    /// The list with its cursor at `index`; without a cursor it is at its top.
    pub open spec fn at(self, index: Option<usize>) -> ListState {
        ListState {
            offset: if index is None {
                0
            } else {
                self.offset
            },
            selected: index,
        }
    }

    /// The index of the cursor.
    pub fn selected(&self) -> (r: Option<usize>)
        ensures
            r == self.selected,
    {
        self.selected
    }

    /// Moves the cursor to `index`, or takes it away and scrolls to the top.
    pub fn select(&mut self, index: Option<usize>)
        ensures
            *final(self) == old(self).at(index),
    {
        self.selected = index;
        if index.is_none() {
            self.offset = 0;
        }
    }
}

/// A cursor goes where it is put and the list stays scrolled as it was; a list
/// without a cursor is at its top.
pub proof fn law_list_cursors(list: ListState, index: Option<usize>)
    ensures
        list.at(index).selected == index,
        index is Some ==> list.at(index).offset == list.offset,
        index is None ==> list.at(index).offset == 0,
        ListState::unselected().selected is None,
        ListState::unselected().offset == 0,
{
}

} // verus!
