//! Multi-term course scheduling.
//!
//! Given a catalog of courses, each with a credit weight, the terms in which
//! it is offered, elective-group tags and a requirement on other courses,
//! the library generates every sequence of semesters that respects the
//! per-semester credit bounds, the term offerings and the requisites.
//!
//! The library has two halves:
//!
//! - the requisite language: [`requirements::parse`] turns a requirement text
//!   such as `(MTH 234 or MTH 254H) and (ECE 201 or concurrently)` into an
//!   expression tree, and `eval` tests the tree against what a schedule
//!   knows;
//! - the search: a [`schedule::Schedule`] generates candidate semesters for
//!   its next term, and [`schedule::Schedule::child`] attaches one;
//!   [`search::search`] drives the two for a number of terms.
//!
//! # What is proved
//!
//! Every function is verified with Verus against a contract over a
//! mathematical model of its data: texts are sequences of characters, an
//! expression is a sequence of sequences of [`requirements::Formula`], a
//! schedule is a [`schedule::Plan`]. No verified function panics or
//! overflows. Beyond the contracts, these laws are proved:
//!
//! - parsing undoes rendering
//!   ([`requirements::roundtrip::lemma_parse_inverts_render`]), and a blank
//!   text is the requirement that always holds
//!   ([`requirements::parser::lemma_blank_is_vacuous`]);
//! - an accepted semester has its credits within the bounds, a rejected one
//!   has them outside as the reason says
//!   ([`semester::lemma_verdict_bounds`],
//!   [`schedule::lemma_generated_within_bounds`]);
//! - no course is both remaining and committed
//!   ([`schedule::lemma_remaining_apart_from_committed`]), and attaching
//!   remaining courses neither adds nor loses a course
//!   ([`schedule::lemma_child_conserves_courses`]);
//! - a course can be attached exactly if what it wants was taken, is
//!   committed earlier, or, for a corequisite, comes in the same semester
//!   ([`schedule::lemma_requisite_when_attached`]).
//!
//! # What is assumed
//!
//! One call leaves the verified code: the selections of `k` out of `n`
//! courses come from the `combinations` crate. The private wrapper
//! `candidates::combinations` states what is assumed of it.

pub mod candidates;
pub mod class;
pub mod config;
pub mod error;
pub mod requirements;
pub mod schedule;
pub mod search;
pub mod semester;
pub mod term;
pub mod text;
