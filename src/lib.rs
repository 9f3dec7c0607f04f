//! The hierarchy of a scene graph: which node hangs under which, the orders in
//! which a subtree is walked, and which world transforms an update pass must
//! recompute, parents first.

pub mod euler_order;
pub mod objects;
pub mod scene;
