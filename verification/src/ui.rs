pub mod form;
pub mod menu;
pub mod popup;
pub mod stateful_list;
pub mod utils;
