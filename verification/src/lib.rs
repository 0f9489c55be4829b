//! Local-first LAN/WAN/TOTAL bandwidth metering.
pub mod calendar;
pub mod capture;
pub mod config;
pub mod daemon;
pub mod db;
pub mod double;
pub mod fmtx;
pub mod import;
pub mod live;
pub mod proc_cap;
pub mod report;
pub mod service;
pub mod show;
pub mod sort;
pub mod text;
pub mod top_proc;
pub mod tree;
pub mod user_agent;
