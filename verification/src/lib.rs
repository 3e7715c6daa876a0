//! A small student-attendance registry.
//!
//! Two keyed stores make up the state: a [`store::StudentStore`] mapping a
//! numeric student id to a [`types::Student`] record, and a
//! [`store::AttendanceStore`] mapping the same id space to a sequence of
//! [`types::AttendanceRecord`] entries. Every operation is a single atomic
//! read or read-modify-write; each fallible operation reports exactly one of
//! the two error kinds in [`types::Error`].

pub mod keyed;
pub mod laws;
pub mod store;
pub mod types;
