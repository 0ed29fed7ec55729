//! Scoped, reversible changes to environment variables.
//!
//! A [`TempEnvVar`] handle records the value a variable had when the handle was acquired,
//! clears it, lets the caller override it, and finally writes the recorded value back.
//! The handle does not touch any environment itself: every step hands back an
//! [`EnvAction`] that the caller performs, on the process environment or on an
//! [`EnvTable`].

pub mod env;
pub mod temp_env_var;

pub use env::{EnvAction, EnvChange, EnvTable};
pub use temp_env_var::TempEnvVar;
