//! The rules of a desktop companion for EverQuest logs: which characters are
//! known and where their pages live, how a trigger is built from a pasted log
//! line, how an alert is worded for a speech engine, and which programs are
//! asked to play or say it.
//!
//! Nothing in here touches the disk, the audio server or the trigger engine.
//! Whoever does hands the outcome in as a plain value.
pub mod alerts;
pub mod audio;
pub mod builder;
pub mod character;
pub mod order;
pub mod paths;
pub mod pronounce;
pub mod queue;
pub mod registry;
pub mod respell;
pub mod text;
pub mod triggers;
pub mod voice;
