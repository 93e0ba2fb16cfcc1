//! A tick-driven timer wheel with verified scheduling and advance, plus the
//! small collaborators around it: a two-way message channel, a console log
//! filter, owning-pointer shorthands and a few value helpers.

mod chan;
mod ext;
pub mod firing;
mod logger;
mod point;
mod timer;

pub use chan::{channel, Chan};
pub use ext::{bzero, digits_value, duration_nanos, pick, remove_if, select, to_dur, try_to_dur, void};
pub use logger::{Color, Level, Logger};
pub use point::{IntoArc, IntoBox, IntoMrc, IntoRc, IntoUrc, Mrc, Urc};
pub use timer::{advance_slot, at_least_one, TaskCallback, TaskState, Timer, TimerHandle, WheelState, WHEEL_SIZE};
