//! A sign-in desk for a team's members: who may sign in, their sessions
//! from sign-in to sign-out, the queue of completed sessions and new users
//! waiting to go to the team's server, and the password that unlocks the
//! desk. The cache directory the desk keeps is modelled as its files (a map
//! from canonical names to bytes) and its directories, and every operation
//! is stated over them.
pub mod actions;
pub mod cache;
pub mod text;
pub mod util;
