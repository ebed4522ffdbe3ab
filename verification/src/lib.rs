pub mod cli;
pub mod discovery;
pub mod gc;
pub mod human;
pub mod report;
pub mod resolve;
pub mod text;
pub mod toml_doc;
pub mod units;
