//! The decision half of the interactive loop: the editor state that every
//! keypress transforms, and the screen writer's repaint decision. Reading
//! keys and painting the terminal stay outside; they hand actions in and
//! carry the returned effects out.
pub mod visual_pack;

use vstd::prelude::*;

verus! {

/// A movement direction on the keyboard.
#[derive(Clone, Copy, Debug, PartialEq, Eq, Structural)]
pub enum Direction {
    Up,
    Down,
    Left,
    Right,
}

/// What one keypress asks for.
#[derive(Clone, Copy, Debug, PartialEq, Eq, Structural)]
pub enum UserAction {
    Quit,
    NewChar(char),
    DeleteChar,
    Move(Direction),
    NextResult,
    GotoResult,
    Idle,
}

/// What the surrounding loop must do after an action was applied. The
/// indices point into the current result list.
#[derive(Clone, Copy, Debug, PartialEq, Eq, Structural)]
pub enum UiEffect {
    Quit,
    Finish(usize),
    ChangeDirToParent(usize),
    ChangeDirTo(usize),
    Idle,
}

/// The text being typed, the cursor inside it, and which result is
/// highlighted (0 = none, k = the k-th result).
pub struct EditorState {
    pub input: Vec<char>,
    pub cursor: usize,
    pub selection: usize,
}

impl EditorState {
    /// The cursor never leaves the typed text.
    pub open spec fn wf(&self) -> bool {
        self.cursor <= self.input@.len()
    }

    pub fn new() -> (r: EditorState)
        ensures
            r.wf(),
            r.input@.len() == 0,
            r.cursor == 0,
            r.selection == 0,
    {
        EditorState { input: Vec::new(), cursor: 0, selection: 0 }
    }

    /// Applies one keypress. Characters edit the input at the cursor and
    /// drop the highlight; vertical moves shift the highlight; horizontal
    /// moves either move the cursor or, on a highlighted result, leave the
    /// effect of entering it (or its parent) to the caller; the cursor and
    /// the highlight are clamped to the text and the result count at the
    /// end.
    pub fn apply_action(&mut self, action: UserAction, result_count: usize) -> (eff: UiEffect)
        requires
            old(self).wf(),
            old(self).input@.len() < usize::MAX,
            old(self).selection < usize::MAX,
            action is GotoResult ==> result_count > 0 && old(self).selection <= result_count,
        ensures
            final(self).wf(),
            match action {
                UserAction::Quit => eff == UiEffect::Quit && *final(self) == *old(self),
                UserAction::NewChar(c) => {
                    &&& eff == UiEffect::Idle
                    &&& final(self).input@ == old(self).input@.insert(
                        old(self).cursor as int,
                        c,
                    )
                    &&& final(self).cursor == old(self).cursor + 1
                    &&& final(self).selection == 0
                },
                UserAction::DeleteChar => {
                    &&& eff == UiEffect::Idle
                    &&& final(self).selection == 0
                    &&& (old(self).cursor > 0 ==> final(self).input@ == old(self).input@.remove(
                        old(self).cursor - 1,
                    ) && final(self).cursor == old(self).cursor - 1)
                    &&& (old(self).cursor == 0 ==> final(self).input@ == old(self).input@
                        && final(self).cursor == 0)
                },
                UserAction::Move(d) => match d {
                    Direction::Up => {
                        &&& eff == UiEffect::Idle
                        &&& final(self).input@ == old(self).input@
                        &&& final(self).cursor == old(self).cursor
                        &&& final(self).selection == (if old(self).selection > 0 {
                            if old(self).selection - 1 <= result_count {
                                (old(self).selection - 1) as int
                            } else {
                                result_count as int
                            }
                        } else {
                            0
                        })
                    },
                    Direction::Down => {
                        &&& eff == UiEffect::Idle
                        &&& final(self).input@ == old(self).input@
                        &&& final(self).cursor == old(self).cursor
                        &&& final(self).selection == (if old(self).selection + 1 <= result_count {
                            old(self).selection + 1
                        } else {
                            result_count as int
                        })
                    },
                    Direction::Left => {
                        if old(self).selection > 0 {
                            &&& eff == UiEffect::ChangeDirToParent(
                                (old(self).selection - 1) as usize,
                            )
                            &&& final(self).input@.len() == 0
                            &&& final(self).cursor == 0
                            &&& final(self).selection == 0
                        } else {
                            &&& eff == UiEffect::Idle
                            &&& final(self).input@ == old(self).input@
                            &&& final(self).selection == 0
                            &&& final(self).cursor == (if old(self).cursor > 0 {
                                old(self).cursor - 1
                            } else {
                                0
                            })
                        }
                    },
                    Direction::Right => {
                        if old(self).selection > 0 {
                            &&& eff == UiEffect::ChangeDirTo((old(self).selection - 1) as usize)
                            &&& final(self).input@.len() == 0
                            &&& final(self).cursor == 0
                            &&& final(self).selection == 0
                        } else {
                            &&& eff == UiEffect::Idle
                            &&& final(self).input@ == old(self).input@
                            &&& final(self).selection == 0
                            &&& final(self).cursor == (if old(self).cursor + 1 <= old(
                                self,
                            ).input@.len() {
                                old(self).cursor + 1
                            } else {
                                old(self).input@.len() as int
                            })
                        }
                    },
                },
                UserAction::NextResult => {
                    &&& eff == UiEffect::Idle
                    &&& final(self).input@ == old(self).input@
                    &&& final(self).cursor == old(self).cursor
                    &&& final(self).selection == (if old(self).selection + 1 > result_count {
                        if 1 <= result_count {
                            1int
                        } else {
                            result_count as int
                        }
                    } else {
                        old(self).selection + 1
                    })
                },
                UserAction::GotoResult => {
                    &&& *final(self) == *old(self)
                    &&& eff == UiEffect::Finish(
                        (if old(self).selection == 0 {
                            0int
                        } else {
                            old(self).selection - 1
                        }) as usize,
                    )
                    &&& (eff matches UiEffect::Finish(i) ==> i < result_count)
                },
                UserAction::Idle => {
                    &&& eff == UiEffect::Idle
                    &&& final(self).input@ == old(self).input@
                    &&& final(self).cursor == old(self).cursor
                    &&& final(self).selection == (if old(self).selection <= result_count {
                        old(self).selection as int
                    } else {
                        result_count as int
                    })
                },
            },
    {
        match action {
            UserAction::Quit => {
                return UiEffect::Quit;
            },
            UserAction::GotoResult => {
                let chosen = if self.selection == 0 {
                    0
                } else {
                    self.selection - 1
                };
                return UiEffect::Finish(chosen);
            },
            UserAction::NewChar(c) => {
                self.input.insert(self.cursor, c);
                self.cursor = self.cursor + 1;
                self.selection = 0;
            },
            UserAction::DeleteChar => {
                if self.cursor > 0 {
                    self.input.remove(self.cursor - 1);
                    self.cursor = self.cursor - 1;
                }
                self.selection = 0;
            },
            UserAction::Move(d) => {
                match d {
                    Direction::Up => {
                        if self.selection > 0 {
                            self.selection = self.selection - 1;
                        }
                    },
                    Direction::Down => {
                        self.selection = self.selection + 1;
                    },
                    Direction::Left => {
                        if self.selection > 0 {
                            let chosen = self.selection - 1;
                            self.input = Vec::new();
                            self.cursor = 0;
                            self.selection = 0;
                            return UiEffect::ChangeDirToParent(chosen);
                        } else if self.cursor > 0 {
                            self.cursor = self.cursor - 1;
                        }
                        self.selection = 0;
                    },
                    Direction::Right => {
                        if self.selection > 0 {
                            let chosen = self.selection - 1;
                            self.input = Vec::new();
                            self.cursor = 0;
                            self.selection = 0;
                            return UiEffect::ChangeDirTo(chosen);
                        } else {
                            self.cursor = self.cursor + 1;
                            self.selection = 0;
                        }
                    },
                }
            },
            UserAction::NextResult => {
                self.selection = self.selection + 1;
                if self.selection > result_count {
                    self.selection = 1;
                }
            },
            UserAction::Idle => {},
        }
        if self.cursor > self.input.len() {
            self.cursor = self.input.len();
        }
        if self.selection > result_count {
            self.selection = result_count;
        }
        UiEffect::Idle
    }

    /// Which result path the input line should display, if any: the
    /// highlighted one; with no highlight the typed input itself shows.
    pub fn display_selection(&self) -> (r: Option<usize>)
        ensures
            self.selection == 0 ==> r is None,
            self.selection > 0 ==> r == Some((self.selection - 1) as usize),
    {
        if self.selection == 0 {
            None
        } else {
            Some(self.selection - 1)
        }
    }
}

/// What the caller must do to the terminal after an output was handed to
/// the writer.
#[derive(Clone, Copy, Debug, PartialEq, Eq, Structural)]
pub enum WriteStep {
    Repaint,
    MoveCursor,
    Keep,
}

/// Remembers the last painted output and cursor so an unchanged frame is
/// never repainted: a changed text asks for a repaint, a changed cursor
/// alone only for a cursor move.
pub struct Writer {
    pub last_output: String,
    pub cursor_col: u16,
    pub cursor_row: u16,
}

impl Writer {
    pub fn new() -> (r: Writer)
        ensures
            r.last_output@.len() == 0,
            r.cursor_col == 0,
            r.cursor_row == 0,
    {
        Writer { last_output: String::new(), cursor_col: 0, cursor_row: 0 }
    }

    /// Takes the next frame and decides how much of the terminal must be
    /// touched; the state then remembers the frame as painted.
    pub fn write(&mut self, s: &String, col: u16, row: u16) -> (r: WriteStep)
        ensures
            final(self).last_output@ == s@,
            final(self).cursor_col == col,
            final(self).cursor_row == row,
            r == (if s@ != old(self).last_output@ {
                WriteStep::Repaint
            } else if col != old(self).cursor_col || row != old(self).cursor_row {
                WriteStep::MoveCursor
            } else {
                WriteStep::Keep
            }),
    {
        let changed = !s.eq(&self.last_output);
        let moved = col != self.cursor_col || row != self.cursor_row;
        self.last_output = s.clone();
        self.cursor_col = col;
        self.cursor_row = row;
        if changed {
            WriteStep::Repaint
        } else if moved {
            WriteStep::MoveCursor
        } else {
            WriteStep::Keep
        }
    }
}

} // verus!
