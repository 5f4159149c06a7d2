//! Globally adaptive quadrature: plain adaptive bisection, bisection with
//! extrapolation by the epsilon algorithm, and the same started from known
//! break points.
//!
//! Real numbers are carried as IEEE 754 binary64 bit patterns ([`double::Double`]).
//! The crate orders and compares them exactly, but performs no floating-point
//! arithmetic of its own: it asks the caller for every sum, difference, product
//! and quotient, and for the estimates of the quadrature rule ([`arithmetic`]).
//! The routines `qag`, `qags` and `qagp` of the workspace run a whole
//! integration; the steps that they take are public, for callers that run the
//! loop themselves.
//!
//! - [`workspace`] holds the subintervals and the priority list over them;
//!   [`ordering`], [`largest`] and [`partition`] state and prove what the list
//!   and the subintervals satisfy.
//! - [`table`] is the extrapolation table of the epsilon algorithm.
//! - [`parameters`] checks the parameters of a run and its first estimate.
//! - [`qag`] decides the steps of plain adaptive bisection, [`qags`] those of
//!   bisection with extrapolation, and [`qagp`] seeds a run with the ranges
//!   between known break points.
//! - [`status`] names the ways in which a run can end.
//! - [`determinism`] proves that each routine is a function of its arguments,
//!   of the workspace it is entered with and of what the rule and the
//!   arithmetic return.

pub mod arithmetic;
pub mod determinism;
pub mod double;
pub mod largest;
pub mod ordering;
pub mod parameters;
pub mod partition;
pub mod qag;
pub mod qagp;
pub mod qags;
pub mod status;
pub mod table;
pub mod workspace;
