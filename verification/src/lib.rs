pub mod text;
pub mod percent;
pub mod form;
pub mod segment;
pub mod synology_chat;
pub mod channel;
