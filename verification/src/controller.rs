//! Selection logic behind the file-browsing screen: a list of file names, a
//! highlighted index moved by buttons, and the one irreversible action —
//! booting the selected file. The rendering and the button debouncing live
//! outside; this module owns only the decisions.

use vstd::prelude::*;

verus! {

/// One debounced button press.
#[derive(Clone, Copy, Debug, PartialEq, Eq, Structural)]
pub enum ButtonEvent {
    Up,
    Down,
    Select,
    Refresh,
}

/// What the surrounding firmware must do after a button is handled.
#[derive(Clone, Copy, Debug, PartialEq, Eq, Structural)]
pub enum UiAction {
    /// Redraw the list; the selection moved or stayed.
    Redraw,
    /// Re-read the file list from storage and hand it back via
    /// `refresh_files`.
    Refresh,
    /// Start the update with the selected file. The device will not answer
    /// the UI again until the new image runs.
    BootSelected,
}

/// The cursor over the file list: how many entries there are and which one
/// is highlighted.
pub struct Controller {
    file_count: usize,
    selected_index: usize,
}

impl Controller {
    /// Number of entries in the file list.
    pub closed spec fn spec_file_count(&self) -> usize {
        self.file_count
    }

    /// The highlighted entry.
    pub closed spec fn spec_selected(&self) -> usize {
        self.selected_index
    }

    /// The selection always stays on the list (and parks at 0 while the
    /// list is empty).
    pub open spec fn wf(&self) -> bool {
        if self.spec_file_count() == 0 {
            self.spec_selected() == 0
        } else {
            self.spec_selected() < self.spec_file_count()
        }
    }

    /// A controller over an empty list.
    pub fn new() -> (c: Controller)
        ensures
            c.wf(),
            c.spec_file_count() == 0,
            c.spec_selected() == 0,
    {
        Controller { file_count: 0, selected_index: 0 }
    }

    /// A fresh file list arrived: the selection returns to the top.
    pub fn refresh_files(&mut self, file_count: usize)
        ensures
            final(self).wf(),
            final(self).spec_file_count() == file_count,
            final(self).spec_selected() == 0,
    {
        self.file_count = file_count;
        self.selected_index = 0;
    }

    /// Moves the selection one entry up, wrapping from the top to the
    /// bottom; an empty list is left alone.
    pub fn move_up(&mut self)
        requires
            old(self).wf(),
        ensures
            final(self).wf(),
            final(self).spec_file_count() == old(self).spec_file_count(),
            final(self).spec_selected() == if old(self).spec_file_count() == 0 {
                0int
            } else if old(self).spec_selected() > 0 {
                old(self).spec_selected() - 1
            } else {
                old(self).spec_file_count() - 1
            },
    {
        if self.file_count > 0 {
            if self.selected_index > 0 {
                self.selected_index = self.selected_index - 1;
            } else {
                self.selected_index = self.file_count - 1;
            }
        }
    }

    /// Moves the selection one entry down, wrapping from the bottom to the
    /// top; an empty list is left alone.
    pub fn move_down(&mut self)
        requires
            old(self).wf(),
        ensures
            final(self).wf(),
            final(self).spec_file_count() == old(self).spec_file_count(),
            final(self).spec_selected() == if old(self).spec_file_count() == 0 {
                0int
            } else if old(self).spec_selected() + 1 < old(self).spec_file_count() {
                old(self).spec_selected() + 1
            } else {
                0int
            },
    {
        if self.file_count > 0 {
            if self.selected_index + 1 < self.file_count {
                self.selected_index = self.selected_index + 1;
            } else {
                self.selected_index = 0;
            }
        }
    }

    /// Number of entries in the file list, as a runtime value.
    pub fn file_count(&self) -> (n: usize)
        ensures
            n == self.spec_file_count(),
    {
        self.file_count
    }

    /// The highlighted entry, as a runtime value.
    pub fn selected_index(&self) -> (i: usize)
        ensures
            i == self.spec_selected(),
    {
        self.selected_index
    }

    /// There is a selected file to boot.
    pub fn has_selection(&self) -> (b: bool)
        ensures
            b == (self.spec_file_count() > 0),
    {
        self.file_count > 0
    }

    /// Handles one button press: `Up` and `Down` move the selection,
    /// `Refresh` asks for a new list, and `Select` asks to boot the
    /// selected file — unless the list is empty, in which case there is
    /// nothing to boot and nothing to do.
    pub fn handle_button(&mut self, button: ButtonEvent) -> (action: UiAction)
        requires
            old(self).wf(),
        ensures
            final(self).wf(),
            final(self).spec_file_count() == old(self).spec_file_count(),
            match button {
                ButtonEvent::Up | ButtonEvent::Down => action == UiAction::Redraw,
                ButtonEvent::Refresh => action == UiAction::Refresh && *final(self) == *old(
                    self,
                ),
                ButtonEvent::Select => {
                    &&& *final(self) == *old(self)
                    &&& action == if old(self).spec_file_count() > 0 {
                        UiAction::BootSelected
                    } else {
                        UiAction::Redraw
                    }
                },
            },
            button == ButtonEvent::Up ==> final(self).spec_selected() == if old(
                self,
            ).spec_file_count() == 0 {
                0int
            } else if old(self).spec_selected() > 0 {
                old(self).spec_selected() - 1
            } else {
                old(self).spec_file_count() - 1
            },
            button == ButtonEvent::Down ==> final(self).spec_selected() == if old(
                self,
            ).spec_file_count() == 0 {
                0int
            } else if old(self).spec_selected() + 1 < old(self).spec_file_count() {
                old(self).spec_selected() + 1
            } else {
                0int
            },
    {
        match button {
            ButtonEvent::Up => {
                self.move_up();
                UiAction::Redraw
            },
            ButtonEvent::Down => {
                self.move_down();
                UiAction::Redraw
            },
            ButtonEvent::Refresh => UiAction::Refresh,
            ButtonEvent::Select => {
                if self.has_selection() {
                    UiAction::BootSelected
                } else {
                    UiAction::Redraw
                }
            },
        }
    }
}

} // verus!
