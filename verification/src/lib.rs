//! Backend of a desktop application launcher: discovery of applications from
//! desktop descriptors, fuzzy search ranked by learned preference, batched icon
//! resolution and the preference store behind it.

pub mod application;
pub mod config;
pub mod input;
pub mod instance;
pub mod manager;
pub mod preferences;
pub mod ranking;
pub mod scanner;
pub mod selection;
pub mod stable;
pub mod text;
