pub mod bot;
pub mod chars;
pub mod files;
pub mod html;
pub mod laws;
pub mod paging;
pub mod text;
pub mod tracker;
