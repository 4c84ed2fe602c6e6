//! The tools the agent can call, and what they decide.
pub mod fs;
pub mod shell;
pub mod spawn_agent;
pub mod squash;
pub mod todo;
