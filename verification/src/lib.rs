//! Verified core of the git-ai attribution tooling: line ranges, commit
//! statistics, bash-tool change detection, hook-installation bookkeeping and
//! the small decision procedures of the command-line front ends.
pub mod line_range;
pub mod authorship_log;
pub mod text;
pub mod tool_counts;
pub mod attestation;
pub mod stats;
pub mod commit_stats;
pub mod path_order;
pub mod bash_tool;
pub mod git_status;
pub mod string_map;
pub mod install_hooks;
pub mod rebase_mapping;
pub mod nul_fields;
pub mod snapshot;
pub mod hunk_stats;
pub mod daemon_cli;
pub mod sweep;
pub mod bash_sessions;
pub mod contributors;
