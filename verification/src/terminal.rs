//! Geometry of the character grid and the input events that reach it.

use vstd::prelude::*;

pub mod canvas;

verus! {

/// A cell of the grid, counted from the top left corner.
#[derive(Clone, Copy, Debug, PartialEq, Eq, Hash, Structural)]
pub struct Position {
    pub x: usize,
    pub y: usize,
}

impl Position {
    #[inline]
    pub fn new(x: usize, y: usize) -> (position: Self)
        ensures
            position == (Position { x, y }),
    {
        Self { x, y }
    }
}

/// The extent of a region of the grid, in cells.
#[derive(Clone, Copy, Debug, PartialEq, Eq, Hash, Structural)]
pub struct Size {
    pub width: usize,
    pub height: usize,
}

impl Size {
    #[inline]
    pub fn new(width: usize, height: usize) -> (size: Self)
        ensures
            size == (Size { width, height }),
    {
        Self { width, height }
    }

    /// The number of cells of a region of this size.
    pub open spec fn area(self) -> nat {
        (self.width * self.height) as nat
    }

    /// Whether a grid of this size can be held in memory: its cells can be
    /// counted in a `usize`.
    pub open spec fn addressable(self) -> bool {
        self.area() <= usize::MAX
    }

    /// Tells whether the cells of a grid of this size can be counted in a
    /// `usize`.
    pub fn is_addressable(&self) -> (fits: bool)
        ensures
            fits == self.addressable(),
    {
        self.width.checked_mul(self.height).is_some()
    }
}

/// A rectangular region of the grid.
#[derive(Clone, Copy, Debug, PartialEq, Eq, Hash, Structural)]
pub struct Rect {
    pub origin: Position,
    pub size: Size,
}

impl Rect {
    #[inline]
    pub fn new(origin: Position, size: Size) -> (rect: Self)
        ensures
            rect == (Rect { origin, size }),
    {
        Self { origin, size }
    }

    /// The column just past the right edge.
    pub open spec fn right(self) -> int {
        self.origin.x + self.size.width
    }

    /// The row just past the bottom edge.
    pub open spec fn bottom(self) -> int {
        self.origin.y + self.size.height
    }

    /// Whether the far corner of the region can be addressed: neither edge
    /// lies beyond the largest coordinate.
    pub open spec fn representable(self) -> bool {
        self.right() <= usize::MAX && self.bottom() <= usize::MAX
    }

    /// Whether `inner` lies wholly inside this region.
    pub open spec fn encloses(self, inner: Rect) -> bool {
        &&& self.origin.x <= inner.origin.x
        &&& self.origin.y <= inner.origin.y
        &&& inner.right() <= self.right()
        &&& inner.bottom() <= self.bottom()
    }

    /// Tells whether the far corner of the region can be addressed.
    pub fn is_representable(&self) -> (fits: bool)
        ensures
            fits == self.representable(),
    {
        self.origin.x.checked_add(self.size.width).is_some() && self.origin.y.checked_add(
            self.size.height,
        ).is_some()
    }
}

/// One discrete key input: a character, a control combination or a named key.
#[derive(Clone, Copy, Debug, PartialEq, Eq, Hash, Structural)]
pub enum Key {
    Backspace,
    Left,
    Right,
    Up,
    Down,
    Home,
    End,
    PageUp,
    PageDown,
    BackTab,
    Delete,
    Insert,
    F(u8),
    Char(char),
    Alt(char),
    Ctrl(char),
    Null,
    Esc,
}

impl Key {
    /// Whether the key is a plain printable character.
    pub open spec fn is_character(self) -> bool {
        self is Char
    }

    /// The key that a character stands for when it is typed with the given
    /// modifiers held: control goes before alt.
    pub open spec fn with_modifiers(character: char, control: bool, alt: bool) -> Key {
        if control {
            Key::Ctrl(character)
        } else if alt {
            Key::Alt(character)
        } else {
            Key::Char(character)
        }
    }

    /// The key that a character stands for when it is typed with the given
    /// modifiers held.
    pub fn from_char(character: char, control: bool, alt: bool) -> (key: Key)
        ensures
            key == Key::with_modifiers(character, control, alt),
    {
        if control {
            Key::Ctrl(character)
        } else if alt {
            Key::Alt(character)
        } else {
            Key::Char(character)
        }
    }

    /// Tells whether the key is a plain printable character.
    pub fn is_char(&self) -> (yes: bool)
        ensures
            yes == self.is_character(),
    {
        match self {
            Key::Char(_) => true,
            _ => false,
        }
    }
}

/// What a backend reports to the runtime.
#[derive(Clone, Copy, Debug, PartialEq, Eq, Structural)]
pub enum Event {
    KeyPress(Key),
    Resize(Size),
}

} // verus!
