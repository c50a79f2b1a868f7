pub mod handlers;
