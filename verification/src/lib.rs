//! CPU placement, refresh-rate and rule-file logic of the AppOpt daemon.

pub mod binder;
pub mod cache;
pub mod cli;
pub mod config;
pub mod cpu_affinity;
pub mod cpuset;
pub mod display;
pub mod event_probe;
pub mod forms;
pub mod grammar;
pub mod http;
pub mod inotify;
pub mod json;
pub mod kpm;
pub mod layout;
pub mod log_line;
pub mod names;
pub mod number;
pub mod order;
pub mod parcel;
pub mod placement;
pub mod plain_rules;
pub mod proc_mode;
pub mod proc_text;
pub mod rates;
pub mod refresh;
pub mod refresh_edit;
pub mod refresh_lines;
pub mod requests;
pub mod rule_match;
pub mod session;
pub mod settings;
pub mod status;
pub mod suggest;
pub mod text;
pub mod thread_move;
pub mod tidying;
pub mod touch_probe;
pub mod tracepoint;
pub mod uid_scan;
pub mod uid_table;
pub mod values;
pub mod waylay;
pub mod web_api;
