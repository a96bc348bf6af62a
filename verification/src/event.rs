//! Piece identities and the closed set of events that players exchange.

use vstd::prelude::*;

verus! {

/// Identity of one piece: its row and its column in the puzzle grid.
#[derive(Clone, Copy, Debug, PartialEq, Eq, Hash, Structural)]
pub struct PieceIndex(pub u32, pub u32);

impl PieceIndex {
    /// The row of the piece.
    pub fn row(&self) -> (r: u32)
        ensures
            r == self.0,
    {
        self.0
    }

    /// The column of the piece.
    pub fn col(&self) -> (c: u32)
        ensures
            c == self.1,
    {
        self.1
    }
}

/// Number of event categories.
pub const CATEGORY_COUNT: usize = 7;

/// The kind of an event. Each category has a queue of its own.
#[derive(Clone, Copy, Debug, PartialEq, Eq, Hash, Structural)]
pub enum EventCategory {
    PieceMoved,
    PiecePickedUp,
    PiecePutDown,
    PieceConnectionCheck,
    PieceConnection,
    PlayerCursorMoved,
    PlayerDisconnected,
}

impl EventCategory {
    /// Position of the category in the fixed order in which queues are served.
    pub open spec fn ordinal(self) -> int {
        match self {
            EventCategory::PieceMoved => 0,
            EventCategory::PiecePickedUp => 1,
            EventCategory::PiecePutDown => 2,
            EventCategory::PieceConnectionCheck => 3,
            EventCategory::PieceConnection => 4,
            EventCategory::PlayerCursorMoved => 5,
            EventCategory::PlayerDisconnected => 6,
        }
    }

    /// The category at a position of the fixed order.
    pub open spec fn at(i: int) -> EventCategory {
        if i == 0 {
            EventCategory::PieceMoved
        } else if i == 1 {
            EventCategory::PiecePickedUp
        } else if i == 2 {
            EventCategory::PiecePutDown
        } else if i == 3 {
            EventCategory::PieceConnectionCheck
        } else if i == 4 {
            EventCategory::PieceConnection
        } else if i == 5 {
            EventCategory::PlayerCursorMoved
        } else {
            EventCategory::PlayerDisconnected
        }
    }

    /// Position of the category in the fixed order in which queues are served.
    pub fn index(self) -> (i: usize)
        ensures
            i == self.ordinal(),
            i < CATEGORY_COUNT,
            EventCategory::at(i as int) == self,
    {
        match self {
            EventCategory::PieceMoved => 0,
            EventCategory::PiecePickedUp => 1,
            EventCategory::PiecePutDown => 2,
            EventCategory::PieceConnectionCheck => 3,
            EventCategory::PieceConnection => 4,
            EventCategory::PlayerCursorMoved => 5,
            EventCategory::PlayerDisconnected => 6,
        }
    }

    /// The category at position `i`, for `i` below the number of categories.
    pub fn from_index(i: usize) -> (c: Option<EventCategory>)
        ensures
            i < CATEGORY_COUNT ==> c == Some(EventCategory::at(i as int)),
            i >= CATEGORY_COUNT ==> c is None,
            c matches Some(k) ==> k.ordinal() == i,
    {
        if i == 0 {
            Some(EventCategory::PieceMoved)
        } else if i == 1 {
            Some(EventCategory::PiecePickedUp)
        } else if i == 2 {
            Some(EventCategory::PiecePutDown)
        } else if i == 3 {
            Some(EventCategory::PieceConnectionCheck)
        } else if i == 4 {
            Some(EventCategory::PieceConnection)
        } else if i == 5 {
            Some(EventCategory::PlayerCursorMoved)
        } else if i == 6 {
            Some(EventCategory::PlayerDisconnected)
        } else {
            None
        }
    }
}

/// One action of a player or of the puzzle, with what is needed to repeat it.
///
/// Positions are whole numbers of display units.
#[derive(Clone, Copy, Debug, PartialEq, Eq, Structural)]
pub enum Event {
    /// The piece `index` was placed at `(x, y)`; its group moved with it.
    PieceMoved { index: PieceIndex, x: i32, y: i32 },
    /// `player` took hold of the piece `index`.
    PiecePickedUp { player: u64, index: PieceIndex },
    /// `player` let go of the piece `index`.
    PiecePutDown { player: u64, index: PieceIndex },
    /// Asks whether the neighbouring pieces `first` and `second` lie close
    /// enough to be joined.
    PieceConnectionCheck { first: PieceIndex, second: PieceIndex },
    /// The groups of the neighbouring pieces `first` and `second` were joined.
    PieceConnection { first: PieceIndex, second: PieceIndex },
    /// The pointer of `player` is at `(x, y)`.
    PlayerCursorMoved { player: u64, x: i32, y: i32 },
    /// `player` left the session.
    PlayerDisconnected { player: u64 },
}

impl Event {
    /// The category of the event.
    pub open spec fn kind(self) -> EventCategory {
        match self {
            Event::PieceMoved { .. } => EventCategory::PieceMoved,
            Event::PiecePickedUp { .. } => EventCategory::PiecePickedUp,
            Event::PiecePutDown { .. } => EventCategory::PiecePutDown,
            Event::PieceConnectionCheck { .. } => EventCategory::PieceConnectionCheck,
            Event::PieceConnection { .. } => EventCategory::PieceConnection,
            Event::PlayerCursorMoved { .. } => EventCategory::PlayerCursorMoved,
            Event::PlayerDisconnected { .. } => EventCategory::PlayerDisconnected,
        }
    }

    /// The category of the event.
    pub fn category(&self) -> (c: EventCategory)
        ensures
            c == self.kind(),
    {
        match self {
            Event::PieceMoved { .. } => EventCategory::PieceMoved,
            Event::PiecePickedUp { .. } => EventCategory::PiecePickedUp,
            Event::PiecePutDown { .. } => EventCategory::PiecePutDown,
            Event::PieceConnectionCheck { .. } => EventCategory::PieceConnectionCheck,
            Event::PieceConnection { .. } => EventCategory::PieceConnection,
            Event::PlayerCursorMoved { .. } => EventCategory::PlayerCursorMoved,
            Event::PlayerDisconnected { .. } => EventCategory::PlayerDisconnected,
        }
    }
}

} // verus!
