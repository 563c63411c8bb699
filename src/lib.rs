//! A timeline reconciliation engine for a chat room, with the widget message
//! envelope types used to talk to embedded widgets.

pub mod item;
pub mod normalizer;
pub mod openid;
pub mod store;
pub mod relations;
pub mod timeline;
pub mod virtual_items;
pub mod widget;
