//! A package-manager front end.
pub mod apt;
pub mod clean;
pub mod cli;
pub mod cmd;
pub mod config;
pub mod debfile;
pub mod downloader;
pub mod dpkg;
pub mod error;
pub mod fetch;
pub mod glob;
pub mod history;
pub mod install;
pub mod libnala;
pub mod mirror;
pub mod newdownload;
pub mod pattern;
pub mod report;
pub mod seqs;
pub mod show;
pub mod sort;
pub mod summary;
pub mod tagfile;
pub mod text;
pub mod tui;
pub mod update;
pub mod upgrade;
pub mod util;
