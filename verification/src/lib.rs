//! Capacitated many-to-one matching by deferred acceptance.
//!
//! A catalog fixes a set of slots (courses), each with a capacity.  Every
//! applicant (student) brings a ranked list of `(course, priority)` pairs,
//! kept ascending by priority.  The engine in [`engine`] runs the proposal
//! loop: each pending student proposes to their highest-priority untried course;
//! a full course keeps its strongest entrants and displaces the weakest one
//! when a strictly stronger offer arrives.  The random workload generator in
//! [`generator`] builds test populations over the fixed catalog of
//! [`catalog::courses`].

pub mod catalog;
pub mod engine;
pub mod generator;
pub mod model;
pub mod prefsort;
pub mod sorting;
