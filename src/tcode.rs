use vstd::prelude::*;

verus! {

/// Kind of a trace packet, carried in the top six bits of its first byte.
#[derive(Debug, Clone, Copy, PartialEq, Eq, Structural)]
pub enum Tcode {
    TcodeNull,
    TcodeOwn,
    TcodeDbr,
    TcodeIbr,
    TcodeErr,
    TcodeProgTraceSync,
    TcodeDbrSync,
    TcodeIbrSync,
    TcodeFull,
    TcodeIbrHist,
    TcodeIbrHistSync,
    TcodeRbr,
    TcodeProgTraceCorr,
}

/// The packet kind that a wire value names, if it names one.
pub open spec fn tcode_of(value: u8) -> Option<Tcode> {
    if value == 2 {
        Some(Tcode::TcodeOwn)
    } else if value == 3 {
        Some(Tcode::TcodeDbr)
    } else if value == 4 {
        Some(Tcode::TcodeIbr)
    } else if value == 8 {
        Some(Tcode::TcodeErr)
    } else if value == 9 {
        Some(Tcode::TcodeProgTraceSync)
    } else if value == 10 {
        Some(Tcode::TcodeDbrSync)
    } else if value == 11 {
        Some(Tcode::TcodeIbrSync)
    } else if value == 27 {
        Some(Tcode::TcodeFull)
    } else if value == 28 {
        Some(Tcode::TcodeIbrHist)
    } else if value == 29 {
        Some(Tcode::TcodeIbrHistSync)
    } else if value == 30 {
        Some(Tcode::TcodeRbr)
    } else if value == 33 {
        Some(Tcode::TcodeProgTraceCorr)
    } else {
        None
    }
}

impl Tcode {
    /// Maps a wire value to its packet kind; `None` for a value that names no kind.
    pub fn from(value: u8) -> (r: Option<Tcode>)
        ensures
            r == tcode_of(value),
    {
        match value {
            2 => Some(Tcode::TcodeOwn),
            3 => Some(Tcode::TcodeDbr),
            4 => Some(Tcode::TcodeIbr),
            8 => Some(Tcode::TcodeErr),
            9 => Some(Tcode::TcodeProgTraceSync),
            10 => Some(Tcode::TcodeDbrSync),
            11 => Some(Tcode::TcodeIbrSync),
            27 => Some(Tcode::TcodeFull),
            28 => Some(Tcode::TcodeIbrHist),
            29 => Some(Tcode::TcodeIbrHistSync),
            30 => Some(Tcode::TcodeRbr),
            33 => Some(Tcode::TcodeProgTraceCorr),
            _ => None,
        }
    }
}

} // verus!
