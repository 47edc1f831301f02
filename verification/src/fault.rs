//! What can be wrong with a netlist or a simulation.
use vstd::prelude::*;

verus! {

/// Why a netlist was not accepted.
pub enum ParseError {
    /// A device or analysis line ends too early.
    MissingToken,
    /// A token that had to be a number is none.
    BadNumber(String),
    /// A piecewise linear source without a time/value pair.
    NoCorners,
    /// A continuation line before any other line.
    NothingToContinue,
    /// A small signal sweep that is neither `dec` nor `lin`.
    SweepKind,
    /// A line whose first letter names no device.
    UnknownDevice(String),
    /// A source line without both of its terminals.
    BareSource,
    /// More unknowns than can be numbered.
    TooLarge,
}

pub enum ParseFault {
    MissingToken,
    BadNumber(Seq<char>),
    NoCorners,
    NothingToContinue,
    SweepKind,
    UnknownDevice(Seq<char>),
    BareSource,
    TooLarge,
}

impl View for ParseError {
    type V = ParseFault;

    open spec fn view(&self) -> ParseFault {
        match self {
            ParseError::MissingToken => ParseFault::MissingToken,
            ParseError::BadNumber(t) => ParseFault::BadNumber(t@),
            ParseError::NoCorners => ParseFault::NoCorners,
            ParseError::NothingToContinue => ParseFault::NothingToContinue,
            ParseError::SweepKind => ParseFault::SweepKind,
            ParseError::UnknownDevice(t) => ParseFault::UnknownDevice(t@),
            ParseError::BareSource => ParseFault::BareSource,
            ParseError::TooLarge => ParseFault::TooLarge,
        }
    }
}

impl ParseFault {
    pub open spec fn message(self) -> Seq<char> {
        match self {
            ParseFault::MissingToken => "missing token on device or analysis line"@,
            ParseFault::BadNumber(t) => "bad number '"@ + t + "'"@,
            ParseFault::NoCorners => "pwl needs time/value pairs"@,
            ParseFault::NothingToContinue => "continuation line without a preceding line"@,
            ParseFault::SweepKind => "only .ac dec and .ac lin are supported"@,
            ParseFault::UnknownDevice(t) => "unknown device '"@ + t + "'"@,
            ParseFault::BareSource => "source without terminals"@,
            ParseFault::TooLarge => "too many unknowns"@,
        }
    }
}

impl ParseError {
    pub fn message(&self) -> (r: String)
        ensures
            r@ == self@.message(),
    {
        match self {
            ParseError::MissingToken => "missing token on device or analysis line".to_owned(),
            ParseError::BadNumber(t) => {
                let mut s = "bad number '".to_owned();
                s.append(t.as_str());
                s.append("'");
                s
            },
            ParseError::NoCorners => "pwl needs time/value pairs".to_owned(),
            ParseError::NothingToContinue => {
                "continuation line without a preceding line".to_owned()
            },
            ParseError::SweepKind => "only .ac dec and .ac lin are supported".to_owned(),
            ParseError::UnknownDevice(t) => {
                let mut s = "unknown device '".to_owned();
                s.append(t.as_str());
                s.append("'");
                s
            },
            ParseError::BareSource => "source without terminals".to_owned(),
            ParseError::TooLarge => "too many unknowns".to_owned(),
        }
    }
}

/// Why a simulation stopped.
pub enum SimError {
    /// No equation is left to find the named unknown of an operating point or
    /// a time step with.
    Singular(String),
    /// The same in a small signal analysis.
    SingularAc(String),
    NoOperatingPoint,
    UnknownSweep(String),
    ZeroSweepStep,
    SweepOfNoSource,
    BadTran,
    /// The time step fell below the smallest one at the time shown.
    StepTooSmall(String),
    BadAc,
}

pub enum SimFault {
    Singular(Seq<char>),
    SingularAc(Seq<char>),
    NoOperatingPoint,
    UnknownSweep(Seq<char>),
    ZeroSweepStep,
    SweepOfNoSource,
    BadTran,
    StepTooSmall(Seq<char>),
    BadAc,
}

impl View for SimError {
    type V = SimFault;

    open spec fn view(&self) -> SimFault {
        match self {
            SimError::Singular(t) => SimFault::Singular(t@),
            SimError::SingularAc(t) => SimFault::SingularAc(t@),
            SimError::NoOperatingPoint => SimFault::NoOperatingPoint,
            SimError::UnknownSweep(t) => SimFault::UnknownSweep(t@),
            SimError::ZeroSweepStep => SimFault::ZeroSweepStep,
            SimError::SweepOfNoSource => SimFault::SweepOfNoSource,
            SimError::BadTran => SimFault::BadTran,
            SimError::StepTooSmall(t) => SimFault::StepTooSmall(t@),
            SimError::BadAc => SimFault::BadAc,
        }
    }
}

impl SimFault {
    pub open spec fn message(self) -> Seq<char> {
        match self {
            SimFault::Singular(t) => "singular matrix at "@ + t + ", no conduction path?"@,
            SimFault::SingularAc(t) => "singular matrix in .ac at "@ + t,
            SimFault::NoOperatingPoint => {
                "operating point did not converge (gmin and source stepping failed)"@
            },
            SimFault::UnknownSweep(t) => "unknown sweep source '"@ + t + "'"@,
            SimFault::ZeroSweepStep => ".dc step must be nonzero"@,
            SimFault::SweepOfNoSource => ".dc sweep source must be a v or i source"@,
            SimFault::BadTran => "bad .tran parameters"@,
            SimFault::StepTooSmall(t) => "timestep too small at t = "@ + t,
            SimFault::BadAc => "bad .ac parameters"@,
        }
    }
}

impl SimError {
    pub fn message(&self) -> (r: String)
        ensures
            r@ == self@.message(),
    {
        match self {
            SimError::Singular(t) => {
                let mut s = "singular matrix at ".to_owned();
                s.append(t.as_str());
                s.append(", no conduction path?");
                s
            },
            SimError::SingularAc(t) => {
                let mut s = "singular matrix in .ac at ".to_owned();
                s.append(t.as_str());
                s
            },
            SimError::NoOperatingPoint => {
                "operating point did not converge (gmin and source stepping failed)".to_owned()
            },
            SimError::UnknownSweep(t) => {
                let mut s = "unknown sweep source '".to_owned();
                s.append(t.as_str());
                s.append("'");
                s
            },
            SimError::ZeroSweepStep => ".dc step must be nonzero".to_owned(),
            SimError::SweepOfNoSource => ".dc sweep source must be a v or i source".to_owned(),
            SimError::BadTran => "bad .tran parameters".to_owned(),
            SimError::StepTooSmall(t) => {
                let mut s = "timestep too small at t = ".to_owned();
                s.append(t.as_str());
                s
            },
            SimError::BadAc => "bad .ac parameters".to_owned(),
        }
    }
}

} // verus!
