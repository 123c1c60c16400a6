pub mod display;
pub mod ini;
pub mod installer;
pub mod sortable;
