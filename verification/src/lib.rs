//! A calendar bot's rules: reading iCalendar text, deciding which events fall on which day,
//! writing the summaries and planning when they are posted.

pub mod agenda;
pub mod agenda_laws;
pub mod caldav;
pub mod caldav_laws;
pub mod config;
pub mod config_laws;
pub mod dates;
pub mod ics;
pub mod ics_laws;
pub mod message;
pub mod message_laws;
pub mod recurrence;
pub mod recurrence_laws;
pub mod scheduler;
pub mod scheduler_laws;
pub mod text;
