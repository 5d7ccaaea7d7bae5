pub mod encoding;
pub mod text;
pub mod width;
pub mod term;
pub mod sys;
pub mod forth;
pub mod editor;
pub mod session;
pub mod ui;
