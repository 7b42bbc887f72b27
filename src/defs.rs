use vstd::prelude::*;

verus! {

/// Direction of a move.
#[derive(PartialEq, Eq, Structural, Debug, Clone, Copy)]
pub enum Direction {
    /// Move left.
    Left,
    /// Move right.
    Right,
    /// Move up.
    Up,
    /// Move down.
    Down,
    /// Move and push left.
    PushLeft,
    /// Move and push right.
    PushRight,
    /// Move and push up.
    PushUp,
    /// Move and push down.
    PushDown,
    /// No direction.
    NoDirection,
}

/// Content of one cell of a level area.
#[derive(PartialEq, Eq, Structural, Debug, Clone, Copy)]
pub enum Field {
    /// Empty field.
    Empty,
    /// Wall.
    Wall,
    /// Box to move to a target.
    Pack,
    /// Player.
    Player,
    /// Empty target.
    Target,
    /// Box on a target.
    PackOnTarget,
    /// Player on a target.
    PlayerOnTarget,
}

/// A defect found by level validation.
#[derive(PartialEq, Eq, Structural, Debug, Clone, Copy)]
pub enum CheckError {
    /// No player.
    NoPlayer,
    /// Too many players.
    TooManyPlayers,
    /// No packs and targets.
    NoPacksAndTargets,
    /// The level is open (no closing walls).
    LevelOpen,
    /// Too few packs: the number of required packs.
    TooFewPacks(usize),
    /// Too few targets: the number of required targets.
    TooFewTargets(usize),
    /// A pack that the player cannot reach: its place.
    PackNotAvailable(usize, usize),
    /// A target that the player cannot reach: its place.
    TargetNotAvailable(usize, usize),
    /// A pack locked in a corner of walls: its place.
    LockedPackApartWalls(usize, usize),
    /// Walls and packs forming a 2x2 block: the place of the block.
    Locked2x2Block(usize, usize),
}

/// All defects found by one validation, in the order they were found.
#[derive(PartialEq, Eq, Debug)]
pub struct CheckErrors(pub Vec<CheckError>);

/// Error caused while parsing or creating a level.
#[derive(PartialEq, Eq, Structural, Debug, Clone, Copy)]
pub enum ParseError {
    /// Empty lines.
    EmptyLines,
    /// A character that is not a field, at the given column and row.
    WrongField(usize, usize),
    /// Area of the wrong size for the given width and height.
    WrongSize(usize, usize),
}

/// Error in the structure of an XML level set.
#[derive(PartialEq, Eq, Structural, Debug, Clone, Copy)]
pub enum XmlParseError {
    /// Bad structure of XML content.
    BadStructure,
}

/// Parse error of one level of a level set, with its number and name.
#[derive(PartialEq, Eq, Debug)]
pub struct LevelParseError {
    pub number: usize,
    pub name: String,
    pub error: ParseError,
}

impl CheckErrors {
    /// No errors yet.
    pub fn new() -> (r: CheckErrors)
        ensures
            r.0@ == Seq::<CheckError>::empty(),
    {
        CheckErrors(Vec::new())
    }

    /// Add an error at the end.
    pub fn push(&mut self, e: CheckError)
        ensures
            final(self).0@ == old(self).0@.push(e),
    {
        self.0.push(e)
    }

    /// Number of errors.
    pub fn len(&self) -> (r: usize)
        ensures
            r == self.0@.len(),
    {
        self.0.len()
    }
}

impl Field {
    pub open spec fn has_player(self) -> bool {
        self == Field::Player || self == Field::PlayerOnTarget
    }

    pub open spec fn has_pack(self) -> bool {
        self == Field::Pack || self == Field::PackOnTarget
    }

    pub open spec fn has_target(self) -> bool {
        self == Field::Target || self == Field::PackOnTarget || self == Field::PlayerOnTarget
    }

    /// The field with the player put on it, keeping its target.
    pub open spec fn with_player(self) -> Field {
        match self {
            Field::Target | Field::PackOnTarget | Field::PlayerOnTarget => Field::PlayerOnTarget,
            _ => Field::Player,
        }
    }

    /// The field with its player taken away.
    pub open spec fn without_player(self) -> Field {
        match self {
            Field::PlayerOnTarget => Field::Target,
            _ => Field::Empty,
        }
    }

    /// The field with a pack put on it, keeping its target.
    pub open spec fn with_pack(self) -> Field {
        match self {
            Field::Target | Field::PlayerOnTarget | Field::PackOnTarget => Field::PackOnTarget,
            _ => Field::Pack,
        }
    }

    /// The field with its pack taken away.
    pub open spec fn without_pack(self) -> Field {
        match self {
            Field::PackOnTarget => Field::Target,
            _ => Field::Empty,
        }
    }

    /// Return true if the player is in this field.
    pub fn is_player(self) -> (r: bool)
        ensures
            r == self.has_player(),
    {
        self == Field::Player || self == Field::PlayerOnTarget
    }

    /// Return true if a pack is in this field.
    pub fn is_pack(self) -> (r: bool)
        ensures
            r == self.has_pack(),
    {
        self == Field::Pack || self == Field::PackOnTarget
    }

    /// Return true if this field is a target.
    pub fn is_target(self) -> (r: bool)
        ensures
            r == self.has_target(),
    {
        self == Field::Target || self == Field::PackOnTarget || self == Field::PlayerOnTarget
    }

    /// Put the player in this field, even if it holds another object.
    pub fn set_player(&mut self)
        ensures
            *final(self) == old(self).with_player(),
            final(self).has_player() && final(self).has_target() == old(self).has_target(),
    {
        match *self {
            Field::Target | Field::PackOnTarget | Field::PlayerOnTarget => *self = Field::PlayerOnTarget,
            _ => *self = Field::Player,
        }
    }

    /// Take the player away from this field.
    pub fn unset_player(&mut self)
        requires
            old(self).has_player(),
        ensures
            *final(self) == old(self).without_player(),
            !final(self).has_player() && final(self).has_target() == old(self).has_target(),
    {
        match *self {
            Field::PlayerOnTarget => *self = Field::Target,
            _ => *self = Field::Empty,
        }
    }

    /// Put a pack in this field, even if it holds another object.
    pub fn set_pack(&mut self)
        ensures
            *final(self) == old(self).with_pack(),
            final(self).has_pack() && final(self).has_target() == old(self).has_target(),
    {
        match *self {
            Field::Target | Field::PlayerOnTarget | Field::PackOnTarget => *self = Field::PackOnTarget,
            _ => *self = Field::Pack,
        }
    }

    /// Take the pack away from this field.
    pub fn unset_pack(&mut self)
        requires
            old(self).has_pack(),
        ensures
            *final(self) == old(self).without_pack(),
            !final(self).has_pack() && final(self).has_target() == old(self).has_target(),
    {
        match *self {
            Field::PackOnTarget => *self = Field::Target,
            _ => *self = Field::Empty,
        }
    }
}

/// The field that a character of a level text stands for.
pub open spec fn field_of_char(c: char) -> Option<Field> {
    if c == ' ' {
        Some(Field::Empty)
    } else if c == '#' {
        Some(Field::Wall)
    } else if c == '@' {
        Some(Field::Player)
    } else if c == '+' {
        Some(Field::PlayerOnTarget)
    } else if c == '.' {
        Some(Field::Target)
    } else if c == '$' {
        Some(Field::Pack)
    } else if c == '*' {
        Some(Field::PackOnTarget)
    } else {
        None
    }
}

/// Decode one character of a level text.
pub fn char_to_field(c: char) -> (r: Option<Field>)
    ensures
        r == field_of_char(c),
{
    match c {
        ' ' => Some(Field::Empty),
        '#' => Some(Field::Wall),
        '@' => Some(Field::Player),
        '+' => Some(Field::PlayerOnTarget),
        '.' => Some(Field::Target),
        '$' => Some(Field::Pack),
        '*' => Some(Field::PackOnTarget),
        _ => None,
    }
}

} // verus!
