use vstd::prelude::*;

verus! {

/// Address of one tile anywhere on the board: row, column, slot in that cell's arena.
pub type Location = (i16, i16, usize);

/// What a snake segment is.
#[derive(Clone, Copy, Debug, PartialEq, Eq, Structural)]
pub enum NodeType {
    LaughHead,
    CryHead,
    Body,
}

/// One entry of a cell's stack.
#[derive(Clone, Copy, Debug)]
pub enum Tier {
    /// A snake segment; a body segment links to the segment one step closer to the head.
    Node { node_type: NodeType, prev: Option<Location> },
    Flower,
    Grass,
}

/// The coarse kind of a tile.
#[derive(Clone, Copy, Debug, PartialEq, Eq, Structural)]
pub enum TierType {
    Head,
    Body,
    Flower,
    Grass,
}

impl Tier {
    pub open spec fn is_head_spec(self) -> bool {
        match self {
            Tier::Node { node_type, prev } => prev is None && node_type != NodeType::Body,
            _ => false,
        }
    }

    pub open spec fn body_spec(next: Location) -> Tier {
        Tier::Node { node_type: NodeType::Body, prev: Some(next) }
    }

    pub fn laugh_head() -> (r: Self)
        ensures
            r == (Tier::Node { node_type: NodeType::LaughHead, prev: None }),
    {
        Tier::Node { node_type: NodeType::LaughHead, prev: None }
    }

    pub fn cry_head() -> (r: Self)
        ensures
            r == (Tier::Node { node_type: NodeType::CryHead, prev: None }),
    {
        Tier::Node { node_type: NodeType::CryHead, prev: None }
    }

    pub fn body(prev: Location) -> (r: Self)
        ensures
            r == Tier::body_spec(prev),
    {
        Tier::Node { node_type: NodeType::Body, prev: Some(prev) }
    }

    pub fn grass() -> (r: Self)
        ensures
            r == Tier::Grass,
    {
        Tier::Grass
    }

    pub fn flower() -> (r: Self)
        ensures
            r == Tier::Flower,
    {
        Tier::Flower
    }

    pub fn is_grass(&self) -> (r: bool)
        ensures
            r == (*self is Grass),
    {
        matches!(self, Tier::Grass)
    }

    pub fn is_body(&self) -> (r: bool)
        ensures
            r == (*self is Node && self->node_type == NodeType::Body),
    {
        match self {
            Tier::Node { node_type, .. } => matches!(node_type, NodeType::Body),
            _ => false,
        }
    }

    pub fn is_laugh_head(&self) -> (r: bool)
        ensures
            r == (*self is Node && self->node_type == NodeType::LaughHead),
    {
        match self {
            Tier::Node { node_type, .. } => matches!(node_type, NodeType::LaughHead),
            _ => false,
        }
    }

    pub open spec fn tier_type_spec(self) -> TierType {
        match self {
            Tier::Node { node_type, .. } => if node_type == NodeType::Body {
                TierType::Body
            } else {
                TierType::Head
            },
            Tier::Flower => TierType::Flower,
            Tier::Grass => TierType::Grass,
        }
    }

    pub fn tier_type(&self) -> (r: TierType)
        ensures
            r == self.tier_type_spec(),
    {
        match self {
            Tier::Node { node_type, .. } => match node_type {
                NodeType::Body => TierType::Body,
                _ => TierType::Head,
            },
            Tier::Flower => TierType::Flower,
            Tier::Grass => TierType::Grass,
        }
    }

    /// The character drawn for this tile when it is on top of its cell.
    pub open spec fn glyph_spec(self) -> char {
        match self {
            Tier::Node { node_type, .. } => match node_type {
                NodeType::LaughHead => '\u{1F601}',
                NodeType::CryHead => '\u{1F62D}',
                NodeType::Body => '\u{1F338}',
            },
            Tier::Flower => '\u{1F339}',
            Tier::Grass => '\u{1F340}',
        }
    }

    pub fn glyph(&self) -> (r: char)
        ensures
            r == self.glyph_spec(),
    {
        match self {
            Tier::Node { node_type, .. } => match node_type {
                NodeType::LaughHead => '\u{1F601}',
                NodeType::CryHead => '\u{1F62D}',
                NodeType::Body => '\u{1F338}',
            },
            Tier::Flower => '\u{1F339}',
            Tier::Grass => '\u{1F340}',
        }
    }
}

} // verus!
