//! Telemetry logic of the Insights desktop monitor: adaptive sampling state,
//! parsing of `ioreg` statistics and Ollama server logs, the decisions of the
//! sampling loops, the inspection of proxied inference responses and the
//! ranking of processes.

pub mod clock;
pub mod ioreg;
pub mod ollama;
pub mod pattern;
pub mod processes;
pub mod proxy;
pub mod state;
pub mod text;
