pub mod bot;
