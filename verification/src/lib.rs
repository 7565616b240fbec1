//! Analysis engine for AL (Business Central) projects: text-level source
//! queries, dependency graphs, call graphs and debug-session bookkeeping.

pub mod text;
pub mod calendar;
pub mod numfmt;
pub mod native_debug;
pub mod profiling;
pub mod project;
pub mod publish;
pub mod insight;
pub mod language;
pub mod launch;
pub mod queries;
