//! The control API that dashboards speak to.

pub mod calendar;
pub mod configs;
pub mod delay;
pub mod history;
pub mod http;
pub mod json;
pub mod logs;
pub mod memory;
pub mod path;
pub mod proxies;
pub mod requests;
pub mod routing;
pub mod rules;
pub mod server;
pub mod tracker;
pub mod ui;
pub mod websocket;
