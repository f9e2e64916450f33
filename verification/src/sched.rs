pub use crate::process::schedule;
