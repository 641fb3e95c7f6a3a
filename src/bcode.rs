use vstd::prelude::*;

verus! {

/// Cause of an indirect branch, carried in two bits of an indirect-branch packet.
#[derive(Debug, Clone, Copy, PartialEq, Eq, Structural)]
pub enum Btype {
    /// indirect branch
    Bindirect,
    /// trap
    Btrap,
    /// exception
    Bexception,
    /// interrupt
    Binterrupt,
}

/// The branch type that a two-bit wire value names.
pub open spec fn btype_of(value: u8) -> Btype {
    if value == 0 {
        Btype::Bindirect
    } else if value == 1 {
        Btype::Btrap
    } else if value == 2 {
        Btype::Bexception
    } else {
        Btype::Binterrupt
    }
}

impl Btype {
    /// Maps a two-bit wire value to its branch type.
    pub fn from(value: u8) -> (r: Btype)
        requires
            value < 4,
        ensures
            r == btype_of(value),
    {
        match value {
            0 => Btype::Bindirect,
            1 => Btype::Btrap,
            2 => Btype::Bexception,
            _ => Btype::Binterrupt,
        }
    }
}

} // verus!
