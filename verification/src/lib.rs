//! Slate's calendar logic: the parts of a calendar application that decide
//! things, each stated with a contract and proved.

pub mod calendar;
pub mod collection;
pub mod color;
pub mod config;
pub mod date;
pub mod editor;
pub mod event;
pub mod expand;
pub mod form;
pub mod ics;
pub mod index;
pub mod launch;
pub mod launcher;
pub mod meeting;
pub mod panel;
pub mod quickadd;
pub mod recurrence;
pub mod reminders;
pub mod settings;
pub mod store;
pub mod text;
pub mod timegrid;
pub mod undo;
pub mod watch;
