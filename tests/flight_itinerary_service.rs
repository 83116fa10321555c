use flight_itinerary::error::ApiError;
use flight_itinerary::http::FlightItineraryRequest;
use flight_itinerary::service::FlightItineraryService;
use flight_itinerary::text::same_code;

fn request(paths: &[[&str; 2]]) -> FlightItineraryRequest {
    FlightItineraryRequest {
        flight_paths: paths
            .iter()
            .map(|[o, d]| [o.to_string(), d.to_string()])
            .collect(),
    }
}

#[test]
fn test_check_payload_with_valid_input() {
    let service = FlightItineraryService::new();
    let payload = FlightItineraryRequest {
        flight_paths: vec![
            ["A".to_string(), "B".to_string()],
            ["B".to_string(), "C".to_string()],
        ],
    };
    assert!(
        service.check_payload(&payload).is_ok(),
        "Failed to check valid payload"
    );
}

#[test]
fn test_check_payload_with_empty_input() {
    let service = FlightItineraryService::new();
    let payload = FlightItineraryRequest {
        flight_paths: vec![],
    };
    let result = service.check_payload(&payload);
    assert!(result.is_err(), "Failed to catch empty input.");
}

#[test]
fn test_check_payload_with_duplicate_origin_and_desti() {
    let service = FlightItineraryService::new();
    let payload = FlightItineraryRequest {
        flight_paths: vec![
            ["A".to_string(), "A".to_string()],
            ["B".to_string(), "C".to_string()],
        ],
    };
    let result = service.check_payload(&payload);
    assert!(result.is_err(), "Failed to catch duplicated input.");
}

#[test]
fn test_calculate_with_simple_payload() -> Result<(), ApiError> {
    let service = FlightItineraryService::new();
    let payload = FlightItineraryRequest {
        flight_paths: vec![["GBB".to_string(), "SGP".to_string()]],
    };
    let result = service.calculate(payload)?;
    assert_eq!(result.itinerary, vec!["GBB".to_string(), "SGP".to_string()]);
    Ok(())
}

#[test]
fn test_calculate_with_payload() -> Result<(), ApiError> {
    let service = FlightItineraryService::new();
    let payload = FlightItineraryRequest {
        flight_paths: vec![
            ["MYS".to_string(), "SGP".to_string()],
            ["GBB".to_string(), "BKK".to_string()],
            ["GSO".to_string(), "MYS".to_string()],
            ["BKK".to_string(), "GSO".to_string()],
        ],
    };
    let result = service.calculate(payload)?;
    assert_eq!(result.itinerary, vec!["GBB".to_string(), "SGP".to_string()]);
    Ok(())
}

#[test]
fn test_calculate_with_payload_with_cycle() -> Result<(), ApiError> {
    let service = FlightItineraryService::new();
    let payload = FlightItineraryRequest {
        flight_paths: vec![
            ["MYS".to_string(), "SGP".to_string()],
            ["MYS".to_string(), "BKK".to_string()],
            ["SGP".to_string(), "BKK".to_string()],
            ["BKK".to_string(), "MYS".to_string()],
        ],
    };
    let result = service.calculate(payload)?;
    assert_eq!(result.itinerary, vec!["MYS".to_string(), "BKK".to_string()]);
    Ok(())
}

#[test]
fn test_calculate_with_more_than_one_origin() -> Result<(), ApiError> {
    let service = FlightItineraryService::new();
    let payload = FlightItineraryRequest {
        flight_paths: vec![
            ["MYS".to_string(), "SGP".to_string()],
            ["MYS".to_string(), "BKK".to_string()],
            ["SGP".to_string(), "BKK".to_string()],
            ["BKK".to_string(), "MYS".to_string()],
            ["SGP".to_string(), "MYS".to_string()],
            ["REN".to_string(), "BKK".to_string()],
        ],
    };
    let result = service.calculate(payload);
    println!("{:?}", result);
    assert!(
        result.is_err(),
        "Failed to catch invalid input with more than one origin."
    );
    Ok(())
}

#[test]
fn test_calculate_with_more_than_one_desti() -> Result<(), ApiError> {
    let service = FlightItineraryService::new();
    let payload = FlightItineraryRequest {
        flight_paths: vec![
            ["MYS".to_string(), "SGP".to_string()],
            ["MYS".to_string(), "BKK".to_string()],
            ["SGP".to_string(), "BKK".to_string()],
            ["BKK".to_string(), "MYS".to_string()],
            ["SGP".to_string(), "MYS".to_string()],
            ["REN".to_string(), "BEN".to_string()],
        ],
    };
    let result = service.calculate(payload);
    println!("{:?}", result);
    assert!(
        result.is_err(),
        "Failed to catch invalid input with more than one desti."
    );
    Ok(())
}

#[test]
fn test_calculate_with_eulerian_cycle() -> Result<(), ApiError> {
    let service = FlightItineraryService::new();
    let payload = FlightItineraryRequest {
        flight_paths: vec![
            ["MYS".to_string(), "SGP".to_string()],
            ["SGP".to_string(), "BKK".to_string()],
            ["BKK".to_string(), "MYS".to_string()],
        ],
    };
    let result = service.calculate(payload);
    println!("{:?}", result);
    assert!(
        result.is_err(),
        "Failed to catch invalid input with Eulerian cycle."
    );
    Ok(())
}

#[test]
fn empty_request_is_rejected_as_empty() {
    let service = FlightItineraryService::new();
    let result = service.calculate(request(&[]));
    assert!(matches!(result, Err(ApiError::EmptyFlightPaths(_))));
    let checked = service.check_payload(&request(&[]));
    assert!(matches!(checked, Err(ApiError::EmptyFlightPaths(_))));
}

#[test]
fn self_loop_in_any_case_is_invalid() {
    let service = FlightItineraryService::new();
    for pair in [["A", "A"], ["A", "a"], ["sgp", "SGP"], ["MyS", "mYs"]] {
        let result = service.calculate(request(&[["GBB", "BKK"], pair]));
        assert!(matches!(result, Err(ApiError::InvalidFlightPath(_))));
    }
}

#[test]
fn self_loop_check_comes_after_emptiness_and_in_order() {
    let service = FlightItineraryService::new();
    let result = service.check_payload(&request(&[["A", "B"], ["c", "C"], ["D", "D"]]));
    assert!(matches!(result, Err(ApiError::InvalidFlightPath(_))));
    assert!(service.check_payload(&request(&[["A", "B"], ["B", "b2"]])).is_ok());
}

#[test]
fn single_edge_resolves_to_its_ends() {
    let service = FlightItineraryService::new();
    let result = service.calculate(request(&[["GBB", "SGP"]])).unwrap();
    assert_eq!(result.itinerary, vec!["GBB".to_string(), "SGP".to_string()]);
}

#[test]
fn shuffled_chain_resolves_to_its_ends() {
    let service = FlightItineraryService::new();
    let result = service
        .calculate(request(&[["MYS", "SGP"], ["GBB", "BKK"], ["GSO", "MYS"], ["BKK", "GSO"]]))
        .unwrap();
    assert_eq!(result.itinerary, vec!["GBB".to_string(), "SGP".to_string()]);
}

#[test]
fn pure_cycle_has_no_start() {
    let service = FlightItineraryService::new();
    let result = service.calculate(request(&[["MYS", "SGP"], ["SGP", "BKK"], ["BKK", "MYS"]]));
    assert!(matches!(result, Err(ApiError::NoStartingAirportDiscovered(_))));
}

#[test]
fn loop_with_chord_fails() {
    // SGP is the first node with a surplus departure; BKK, met next, has two
    // more arrivals than departures, which no single trail allows.
    let service = FlightItineraryService::new();
    let result = service.calculate(request(&[
        ["MYS", "SGP"],
        ["MYS", "BKK"],
        ["SGP", "BKK"],
        ["BKK", "MYS"],
        ["SGP", "MYS"],
        ["REN", "BKK"],
    ]));
    assert!(matches!(result, Err(ApiError::InvalidFlightPath(_))));
}

#[test]
fn second_starting_candidate_is_reported() {
    let service = FlightItineraryService::new();
    let result = service.calculate(request(&[["A", "B"], ["C", "D"]]));
    assert!(matches!(result, Err(ApiError::NoStartingAirportDiscovered(_))));
}

#[test]
fn second_ending_candidate_is_reported() {
    let service = FlightItineraryService::new();
    let result = service.calculate(request(&[["A", "B"], ["A", "C"], ["D", "A"]]));
    assert!(matches!(result, Err(ApiError::NoEndingAirportDiscovered(_))));
}

#[test]
fn unbalanced_node_is_invalid() {
    let service = FlightItineraryService::new();
    let result = service.calculate(request(&[["A", "B"], ["A", "D"], ["C", "D"]]));
    assert!(matches!(result, Err(ApiError::InvalidFlightPath(_))));
}

#[test]
fn repeated_edges_each_count() {
    let service = FlightItineraryService::new();
    let result = service.calculate(request(&[["A", "B"], ["A", "B"], ["B", "C"]]));
    assert!(matches!(result, Err(ApiError::InvalidFlightPath(_))));
    let result = service
        .calculate(request(&[["A", "B"], ["B", "A"], ["A", "B"]]))
        .unwrap();
    assert_eq!(result.itinerary, vec!["A".to_string(), "B".to_string()]);
}

#[test]
fn codes_are_case_sensitive_as_nodes() {
    let service = FlightItineraryService::new();
    let result = service.calculate(request(&[["sgp", "BKK"], ["BKK", "SGP"]])).unwrap();
    assert_eq!(result.itinerary, vec!["sgp".to_string(), "SGP".to_string()]);
}

#[test]
fn resolving_twice_gives_the_same_result() {
    let service = FlightItineraryService::new();
    let paths = [["MYS", "SGP"], ["GBB", "BKK"], ["GSO", "MYS"], ["BKK", "GSO"]];
    let first = service.calculate(request(&paths)).unwrap();
    let second = service.calculate(request(&paths)).unwrap();
    assert_eq!(first.itinerary, second.itinerary);
    let first = service.calculate(request(&[["A", "B"], ["C", "D"]])).unwrap_err();
    let second = service.calculate(request(&[["A", "B"], ["C", "D"]])).unwrap_err();
    assert_eq!(first.message(), second.message());
}

#[test]
fn errors_carry_their_message() {
    let service = FlightItineraryService::new();
    let err = service.calculate(request(&[])).unwrap_err();
    assert_eq!(
        err.message(),
        "Flight paths given is empty, please provide one with valid values."
    );
}

#[test]
fn same_code_compares_characters() {
    assert!(same_code("SGP", "SGP"));
    assert!(!same_code("SGP", "sgp"));
    assert!(!same_code("SG", "SGP"));
    assert!(same_code("", ""));
}
