pub mod text;
pub mod clock;
pub mod glob;
pub mod strmap;
pub mod object;
pub mod repo;
pub mod pol;
pub mod ignore;
pub mod index;
pub mod status;
pub mod config;
pub mod global_config;
pub mod registry;
pub mod refs;
pub mod commit;
pub mod history;
pub mod workflow;
pub mod fields;
pub mod number;
pub mod access;
pub mod diff;
pub mod gc;
pub mod readme;
pub mod avatar;
pub mod remote;
