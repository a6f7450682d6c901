//! Ribbon event store: the format of an append-only log of agent events, and queries over it.
//!
//! The log holds one event per line. [`log`] frames events as lines and finds the lines in the
//! bytes of a log. [`filter`] selects events, [`status`] tells the current state of every agent,
//! and [`previous`] finds the event that a task description refers to.
//!
//! Each function states in its contract what it returns, over the models that stand beside it; the
//! `law_` functions state what holds of several functions together.
//! [`laws`] states what holds of the results over the arguments alone.
pub mod error;
pub mod event;
pub mod filter;
pub mod laws;
pub mod log;
pub mod names;
pub mod previous;
pub mod status;
pub mod text;

pub use error::StoreError;
pub use event::{
    state_machine, ClockReading, EventType, RibbonEvent, StateMachine, Timestamp, Transition,
};
pub use filter::EventFilter;
pub use log::{frame_line, LineStep, LogReader, Taken};
pub use previous::{find_previous_state, match_task, PreviousStateResult, TaskMatch};
pub use status::{agent_statuses, agent_statuses_under, AgentStatus};
pub use text::normalize_task;
