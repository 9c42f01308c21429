pub mod packet;
pub mod handler;
pub mod util;
pub mod dictionary;
