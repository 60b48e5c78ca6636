//! The logic of relay, a small tool that shares a directory and measures
//! bandwidth over the local network: request paths, page rendering, the choice of
//! the addresses worth announcing, and the command line.
pub mod text;
pub mod html;
pub mod template;
pub mod parts;
pub mod path;
pub mod lists;
pub mod order;
pub mod listing;
pub mod number;
pub mod address;
pub mod urls;
pub mod inet6;
pub mod interfaces;
pub mod speedtest;
pub mod request;
pub mod cli;
