pub mod text;
pub mod color;
pub mod filter;
pub mod tree;
pub mod hierarchy;
pub mod paths;
pub mod bytes;
pub mod frame;
pub mod web;
pub mod platform;
pub mod report;
pub mod queue;
pub mod wire;
pub mod control;
pub mod linux;
pub mod macos;
pub mod layout;
pub mod windows;
pub mod propagation;
pub mod volumes;
pub mod view;
