use vstd::prelude::*;

verus! {

/// The message carried by every failure.
#[derive(Clone, Debug)]
pub struct ErrorBody {
    pub error_message: String,
}

/// Why an itinerary could not be resolved.
#[derive(Clone, Debug)]
pub enum ApiError {
    EmptyFlightPaths(ErrorBody),
    InvalidFlightPath(ErrorBody),
    NoStartingAirportDiscovered(ErrorBody),
    NoEndingAirportDiscovered(ErrorBody),
}

/// The category of an `ApiError`, without its message.
#[derive(Clone, Copy, Debug, PartialEq, Eq, Structural)]
pub enum ErrorKind {
    EmptyFlightPaths,
    InvalidFlightPath,
    NoStartingAirportDiscovered,
    NoEndingAirportDiscovered,
}

impl ApiError {
    pub open spec fn kind(&self) -> ErrorKind {
        match self {
            ApiError::EmptyFlightPaths(_) => ErrorKind::EmptyFlightPaths,
            ApiError::InvalidFlightPath(_) => ErrorKind::InvalidFlightPath,
            ApiError::NoStartingAirportDiscovered(_) => ErrorKind::NoStartingAirportDiscovered,
            ApiError::NoEndingAirportDiscovered(_) => ErrorKind::NoEndingAirportDiscovered,
        }
    }

    /// The message that the error carries.
    pub fn message(&self) -> (r: &String)
        ensures
            r == match self {
                ApiError::EmptyFlightPaths(b) => &b.error_message,
                ApiError::InvalidFlightPath(b) => &b.error_message,
                ApiError::NoStartingAirportDiscovered(b) => &b.error_message,
                ApiError::NoEndingAirportDiscovered(b) => &b.error_message,
            },
    {
        match self {
            ApiError::EmptyFlightPaths(b) => &b.error_message,
            ApiError::InvalidFlightPath(b) => &b.error_message,
            ApiError::NoStartingAirportDiscovered(b) => &b.error_message,
            ApiError::NoEndingAirportDiscovered(b) => &b.error_message,
        }
    }
}

} // verus!
