//! The protocol between a kernel and the modules it runs as separate processes.
#![allow(unused_imports)]

pub mod drain;
pub mod endpoint;
pub mod failure;
pub mod frame;
pub mod initialize;
pub mod json;
pub mod kernel_call;
pub mod launch;
pub mod manifest;
pub mod module;
pub mod proxy;
pub mod repeats;
pub mod rpc;
pub mod supervise;
pub mod tenths;
pub mod text;
pub mod version;
