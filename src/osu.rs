//! Hit objects of osu! beatmaps and the errors of reading them.

use vstd::prelude::*;

verus! {

/// A hit object: a circle, a slider or a spinner, each with its start time and how
/// long it lasts, in milliseconds.
#[derive(Debug, Clone, Copy, PartialEq, Eq, Structural)]
pub enum HitObject {
    HitCircle { time: u32 },
    Slider { time: u32, duration_time: u32, slides: u8 },
    Spinner { time: u32, duration_time: u32 },
}

impl HitObject {
    pub fn time(&self) -> (r: u32)
        ensures
            r == match *self {
                HitObject::HitCircle { time } => time,
                HitObject::Slider { time, .. } => time,
                HitObject::Spinner { time, .. } => time,
            },
    {
        match *self {
            HitObject::HitCircle { time } => time,
            HitObject::Slider { time, .. } => time,
            HitObject::Spinner { time, .. } => time,
        }
    }

    /// How long the object lasts; a circle lasts no time.
    pub fn duration_time(&self) -> (r: u32)
        ensures
            r == match *self {
                HitObject::HitCircle { .. } => 0,
                HitObject::Slider { duration_time, .. } => duration_time,
                HitObject::Spinner { duration_time, .. } => duration_time,
            },
    {
        match *self {
            HitObject::HitCircle { .. } => 0,
            HitObject::Slider { duration_time, .. } => duration_time,
            HitObject::Spinner { duration_time, .. } => duration_time,
        }
    }

    /// The strength of the object: 0 for a circle, the slide count of a slider (as a
    /// signed byte), -1 for a spinner.
    pub fn strong_point(&self) -> (r: i8)
        ensures
            r as int == match *self {
                HitObject::HitCircle { .. } => 0,
                HitObject::Slider { slides, .. } => (slides as i8) as int,
                HitObject::Spinner { .. } => -1,
            },
    {
        match *self {
            HitObject::HitCircle { .. } => 0,
            HitObject::Slider { slides, .. } => slides as i8,
            HitObject::Spinner { .. } => -1,
        }
    }
}

/// Why a beatmap could not be read.
#[derive(Debug, Clone)]
pub struct OsuParseError {
    pub detail: String,
}

impl OsuParseError {
    pub fn new(detail: &str) -> (r: OsuParseError)
        ensures
            r.detail@ == detail@,
    {
        OsuParseError { detail: detail.to_owned() }
    }

    /// The file is not in the beatmap format.
    pub fn err_ff() -> (r: OsuParseError)
        ensures
            r.detail@ == "Wrong file format"@,
    {
        OsuParseError::new("Wrong file format")
    }

    /// A timing point line is malformed.
    pub fn err_tp() -> (r: OsuParseError)
        ensures
            r.detail@ == "Wrong timing point format"@,
    {
        OsuParseError::new("Wrong timing point format")
    }

    /// A hit object line is malformed.
    pub fn err_ho() -> (r: OsuParseError)
        ensures
            r.detail@ == "Wrong hit object format"@,
    {
        OsuParseError::new("Wrong hit object format")
    }

    /// A hit object comes before every timing point.
    pub fn err_nt_fh() -> (r: OsuParseError)
        ensures
            r.detail@ == "No corresponding timing point for hit object"@,
    {
        OsuParseError::new("No corresponding timing point for hit object")
    }

    /// The message, in place of a `Display` impl.
    pub fn to_string(&self) -> (r: String)
        ensures
            r@ == self.detail@,
    {
        self.detail.clone()
    }
}

} // verus!
