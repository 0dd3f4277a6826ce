pub mod args;
pub mod args_laws;
pub mod collect;
pub mod collect_laws;
pub mod config;
pub mod config_laws;
pub mod coverage;
pub mod coverage_laws;
pub mod db;
pub mod db_laws;
pub mod diff;
pub mod diff_laws;
pub mod fingerprint;
pub mod fingerprint_laws;
pub mod function_map;
pub mod git;
pub mod git_laws;
pub mod json;
pub mod listing;
pub mod listing_laws;
pub mod llvm;
pub mod llvm_laws;
pub mod narration;
pub mod narration_laws;
pub mod nextest;
pub mod nextest_laws;
pub mod ordered;
pub mod path_laws;
pub mod paths;
pub mod plan;
pub mod plan_laws;
pub mod process;
pub mod project;
pub mod project_laws;
pub mod reasons;
pub mod report;
pub mod report_laws;
pub mod schema;
pub mod schema_laws;
pub mod selection;
pub mod selection_laws;
pub mod shim;
pub mod shim_laws;
pub mod sorting;
pub mod text;
pub mod text_laws;
pub mod time;
pub mod time_laws;
