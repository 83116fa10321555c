use vstd::prelude::*;

verus! {

/// The resolved itinerary: its starting airport, then its ending airport.
#[derive(Clone, Debug)]
pub struct FlightItineraryResponse {
    pub itinerary: Vec<String>,
}

/// The flight paths of one request, each an `[origin, destination]` pair.
#[derive(Clone, Debug)]
pub struct FlightItineraryRequest {
    pub flight_paths: Vec<[String; 2]>,
}

impl View for FlightItineraryRequest {
    type V = Seq<(Seq<char>, Seq<char>)>;

    open spec fn view(&self) -> Seq<(Seq<char>, Seq<char>)> {
        self.flight_paths@.map_values(|p: [String; 2]| (p@[0]@, p@[1]@))
    }
}

} // verus!
