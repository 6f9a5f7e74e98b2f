use vstd::prelude::*;

use crate::document::Document;

verus! {

/// A logical buffer position: `x` is a grapheme column, `y` a line index.
#[derive(Clone, Copy, Debug, PartialEq, Eq, Structural)]
pub struct Position {
    pub x: usize,
    pub y: usize,
}

impl Default for Position {
    /// The origin, line 0 and column 0.
    fn default() -> (p: Position)
        ensures
            p == (Position { x: 0, y: 0 }),
    {
        Position { x: 0, y: 0 }
    }
}

/// The direction of a text search.
#[derive(Clone, Copy, Debug, PartialEq, Eq, Structural)]
pub enum SearchDirection {
    Forward,
    Backward,
}

/// A cursor-motion key, as the input dispatcher reports it.
#[derive(Clone, Copy, Debug, PartialEq, Eq, Structural)]
pub enum Key {
    Up,
    Down,
    Left,
    Right,
    PageUp,
    PageDown,
    Home,
    End,
}

/// The editing core: the open document together with the logical cursor
/// position and the scroll offset of the viewport.
pub struct Editor {
    pub cursor_position: Position,
    pub offset: Position,
    pub document: Document,
}

/// Where one key moves the cursor from `(x, y)`, before clamping: the
/// arrows step by one (horizontally wrapping to the neighbouring
/// line), page keys jump by the viewport height `th`, Home and End
/// jump to the line's edges.  `y` may reach the virtual line just past
/// the document's end, never beyond.
pub open spec fn spec_step(doc: Document, key: Key, x: int, y: int, th: int) -> (int, int) {
    let height = doc@.len() as int;
    let width = doc.row_view(y).len() as int;
    match key {
        Key::Up => (
            x,
            if y > 0 {
                y - 1
            } else {
                0
            },
        ),
        Key::Down => (
            x,
            if y < height {
                y + 1
            } else {
                y
            },
        ),
        Key::Left => if x > 0 {
            (x - 1, y)
        } else if y > 0 {
            (doc.row_view(y - 1).len() as int, y - 1)
        } else {
            (0, 0)
        },
        Key::Right => if x < width {
            (x + 1, y)
        } else if y < height {
            (0, y + 1)
        } else {
            (x, y)
        },
        Key::PageUp => (
            x,
            if y > th {
                y - th
            } else {
                0
            },
        ),
        Key::PageDown => (
            x,
            if y + th < height {
                y + th
            } else {
                height
            },
        ),
        Key::Home => (0, y),
        Key::End => (width, y),
    }
}

/// The step of `spec_step` with its column clamped to the destination
/// line's length: a shorter line pulls the cursor left.
pub open spec fn spec_move(doc: Document, key: Key, x: int, y: int, th: int) -> (int, int) {
    let stepped = spec_step(doc, key, x, y, th);
    let w2 = doc.row_view(stepped.1).len() as int;
    (
        if stepped.0 <= w2 {
            stepped.0
        } else {
            w2
        },
        stepped.1,
    )
}

impl Editor {
    /// An editor over `document` with the cursor and the scroll offset
    /// at the origin.
    pub fn new(document: Document) -> (e: Editor)
        ensures
            e.document == document,
            e.cursor_position == (Position { x: 0, y: 0 }),
            e.offset == (Position { x: 0, y: 0 }),
    {
        Editor {
            cursor_position: Position { x: 0, y: 0 },
            offset: Position { x: 0, y: 0 },
            document,
        }
    }

    /// Applies one cursor-motion key, with the wrap and clamp rules of
    /// `spec_move`; the document and the scroll offset stay untouched.
    pub fn move_cursor(&mut self, key: Key, terminal_height: usize)
        ensures
            final(self).document == old(self).document,
            final(self).offset == old(self).offset,
            (final(self).cursor_position.x as int, final(self).cursor_position.y as int)
                == spec_move(
                old(self).document,
                key,
                old(self).cursor_position.x as int,
                old(self).cursor_position.y as int,
                terminal_height as int,
            ),
    {
        let mut x = self.cursor_position.x;
        let mut y = self.cursor_position.y;
        let height = self.document.len();
        let width = match self.document.row(y) {
            Some(row) => row.len(),
            None => 0,
        };
        match key {
            Key::Up => {
                if y > 0 {
                    y = y - 1;
                }
            },
            Key::Down => {
                if y < height {
                    y = y + 1;
                }
            },
            Key::Left => {
                if x > 0 {
                    x = x - 1;
                } else if y > 0 {
                    y = y - 1;
                    x = match self.document.row(y) {
                        Some(row) => row.len(),
                        None => 0,
                    };
                } else {
                    x = 0;
                }
            },
            Key::Right => {
                if x < width {
                    x = x + 1;
                } else if y < height {
                    y = y + 1;
                    x = 0;
                }
            },
            Key::PageUp => {
                y = if y > terminal_height {
                    y - terminal_height
                } else {
                    0
                };
            },
            Key::PageDown => {
                y = if terminal_height <= height && y < height - terminal_height {
                    y + terminal_height
                } else {
                    height
                };
            },
            Key::Home => {
                x = 0;
            },
            Key::End => {
                x = width;
            },
        }
        let new_width = match self.document.row(y) {
            Some(row) => row.len(),
            None => 0,
        };
        if x > new_width {
            x = new_width;
        }
        self.cursor_position = Position { x, y };
    }

    /// Moves the scroll offset by the least amount that brings the
    /// cursor inside the `width` by `height` viewport: up or left to
    /// the cursor, down or right so that the cursor sits on the last
    /// visible row or column.
    pub fn scroll(&mut self, width: usize, height: usize)
        requires
            width >= 1,
            height >= 1,
        ensures
            final(self).document == old(self).document,
            final(self).cursor_position == old(self).cursor_position,
            ({
                let cy = old(self).cursor_position.y as int;
                let oy = old(self).offset.y as int;
                &&& cy < oy ==> final(self).offset.y == cy
                &&& cy >= oy + height ==> final(self).offset.y == cy - height + 1
                &&& oy <= cy < oy + height ==> final(self).offset.y == oy
            }),
            ({
                let cx = old(self).cursor_position.x as int;
                let ox = old(self).offset.x as int;
                &&& cx < ox ==> final(self).offset.x == cx
                &&& cx >= ox + width ==> final(self).offset.x == cx - width + 1
                &&& ox <= cx < ox + width ==> final(self).offset.x == ox
            }),
    {
        let x = self.cursor_position.x;
        let y = self.cursor_position.y;
        if y < self.offset.y {
            self.offset.y = y;
        } else if y - self.offset.y >= height {
            self.offset.y = y - height + 1;
        }
        if x < self.offset.x {
            self.offset.x = x;
        } else if x - self.offset.x >= width {
            self.offset.x = x - width + 1;
        }
    }

    /// The cursor's position relative to the viewport's top-left
    /// corner, pinned to the origin when the offset lies past it.
    pub fn screen_cursor(&self) -> (p: Position)
        ensures
            p.x as int == if self.cursor_position.x >= self.offset.x {
                self.cursor_position.x - self.offset.x
            } else {
                0
            },
            p.y as int == if self.cursor_position.y >= self.offset.y {
                self.cursor_position.y - self.offset.y
            } else {
                0
            },
    {
        Position {
            x: if self.cursor_position.x >= self.offset.x {
                self.cursor_position.x - self.offset.x
            } else {
                0
            },
            y: if self.cursor_position.y >= self.offset.y {
                self.cursor_position.y - self.offset.y
            } else {
                0
            },
        }
    }
}

} // verus!
