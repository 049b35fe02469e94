//! Decisions of a daemon that binds the threads of Android apps to CPUs.
//!
//! A configuration and a cache of rules say which threads belong on which CPUs ([`config`],
//! [`cache`], [`rules`]). Processes are found in what the kernel shows of them ([`scan`]), the
//! threads of those that have rules are bound ([`bind`]), and apps without rules get some by the
//! load that their threads are expected to make ([`packages`], [`assign`]) on the clusters of
//! the machine ([`clusters`]). [`readback`] and [`placement`] prove that what is cached is what
//! is loaded, and where the threads of such apps go; [`laws`] states what the operations are for.
//! [`run`] holds the options and the pace of the daemon, and [`ebpf`] the program that watches for
//! new processes.
#![allow(unused_imports)]

pub mod assign;
pub mod bind;
pub mod cache;
pub mod clusters;
pub mod config;
pub mod cpus;
pub mod decimal;
pub mod document;
pub mod ebpf;
pub mod laws;
pub mod notation;
pub mod packages;
pub mod placement;
pub mod readback;
pub mod rules;
pub mod run;
pub mod scan;
pub mod text;
