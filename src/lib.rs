pub mod error;
pub mod graph;
pub mod http;
pub mod itinerary;
pub mod properties;
pub mod text;
pub mod service;
