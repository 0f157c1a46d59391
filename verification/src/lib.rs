//! The rules of a small continuous-integration runner: what a pipeline file
//! means, which job runs when, and how runs are recorded and reported.

pub mod clock;
pub mod commands;
pub mod file;
pub mod grammar;
pub mod journal;
pub mod layout;
pub mod number;
pub mod paths;
pub mod pipeline;
pub mod report;
pub mod run;
pub mod runner;
pub mod text;
pub mod webhook;
pub mod yaml;
