//! Rift Rumble: random League of Legends loadouts handed out to the
//! participants of a Discord game night.
//!
//! `entities` holds the static game data (champions, items, runes and
//! summoner spells), the rules that draw a random loadout from it, and the
//! rules that read the data out of parsed Data Dragon JSON documents.
//! `discord` holds the decisions the bot takes on each chat command.
pub mod discord;
pub mod entities;
mod random;
