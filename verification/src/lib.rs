//! The logic of the `ion_win` shell: parsing, expansion, planning and state
//! machines, each with a verified contract.

pub mod arith;
pub mod builtin_names;
pub mod builtins;
pub mod clipboard;
pub mod colorout;
pub mod command_resolver;
pub mod compress;
pub mod copy;
pub mod delete;
pub mod dialog;
pub mod editor;
pub mod elevate;
pub mod execution;
pub mod fileset;
pub mod flags;
pub mod fs_builtins;
pub mod fs_ops;
pub mod functions;
pub mod history;
pub mod interp;
pub mod job_object;
pub mod jobctl;
pub mod jobs;
pub mod journal;
pub mod json;
pub mod keyboard_input;
pub mod methods;
pub mod names;
pub mod operation;
pub mod paths;
pub mod pieces;
pub mod pipeline;
pub mod pipeline_exec;
pub mod postgres;
pub mod procexpand;
pub mod ranges;
pub mod schedule;
pub mod startup;
pub mod table;
pub mod text;
pub mod token;
pub mod traces;
pub mod types;
