//! A per-user reply store driven by chat commands, with the rules that pick
//! the bot's reply and reaction for an incoming message.

pub mod text;
pub mod store;
pub mod command;
pub mod select;
pub mod config;
pub mod yaml;
