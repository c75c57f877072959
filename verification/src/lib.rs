use vstd::prelude::*;

pub mod visibility;
pub mod state;
pub mod ids;
pub mod sort_key;
pub mod children;
pub mod id_map;
pub mod values;
pub mod objects;
pub mod walk;
pub mod order;
pub mod hierarchy;
pub mod peers;
pub mod drag_over;
pub mod log;
pub mod error;
pub mod link;
pub mod rooms;
pub mod scene;
pub mod settings;
pub mod object_list;

verus! {
}
