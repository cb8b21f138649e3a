pub mod app_server;
pub mod ble;
pub mod config;
pub mod hooks;
pub mod icon;
pub mod model;
pub mod named;
pub mod protocol;
pub mod text;
