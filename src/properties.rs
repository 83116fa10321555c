use vstd::prelude::*;

verus! {

/// The settings of the service process.
#[derive(Clone, Debug)]
pub struct FlightItineraryServiceProperties {
    pub server: ServerProperties,
    pub logging: LoggingProperties,
}

/// Where the service listens.
#[derive(Clone, Debug)]
pub struct ServerProperties {
    pub name: String,
    pub host: String,
    pub port: u16,
}

/// How much the service logs.
#[derive(Clone, Debug)]
pub struct LoggingProperties {
    pub default_level: String,
}

} // verus!
