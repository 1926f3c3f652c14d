//! Names: messages, records, rules, and what is kept of answers.
pub mod answer;
pub mod cache;
pub mod message;
pub mod planning;
pub mod read_back;
pub mod record;
pub mod resolver;
pub mod rules;
pub mod transport;
