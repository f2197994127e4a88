//! Local-search engine for truck delivery schedules: the interval algebra that
//! expresses time feasibility, the schedule state, the four mutation operators
//! that produce neighbouring schedules, and the integer parts of the score.
pub mod common_types;
pub mod counter_mapper;
pub mod driving_times_cache;
pub mod intervals;
pub mod random;
pub mod schedule;
