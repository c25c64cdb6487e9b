//! Jittered-cron core: a verified lexer and parser for the configuration
//! language, a verified distribution builder that turns a parsed entry into a
//! validated sampler description, and the small pure decisions of the
//! scheduling loop.  Random sampling itself, process execution and logging
//! live outside this crate.
pub mod decimal;
pub mod lexer;
pub mod parser;
pub mod dist;
pub mod tab;
