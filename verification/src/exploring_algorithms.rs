//! Exploration of a maze by the agent, before it is solved.

pub mod explore_handler;
pub mod wall_following;
