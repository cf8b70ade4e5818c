pub mod feature;
pub mod room;
pub mod event_tree;
pub mod feature_tree;
pub mod floor;
pub mod build_plan;
pub mod tunics;
pub mod random;
pub mod outline;
pub mod floor2;
pub mod pipeline;
pub mod bits;
