pub mod canvas;
pub mod codec;
pub mod console;
pub mod engine;
pub mod login;
pub mod messages;
pub mod quad;
pub mod session;
