pub mod arena_tree;
pub mod coverage;
pub mod max_tree;
pub mod path_tree;
pub mod planning;
pub mod rain_water;
pub mod sliding_window;
