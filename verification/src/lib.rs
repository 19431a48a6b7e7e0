//! Usage statistics for a personal Cursor account: parsing of the dashboard's
//! values, grouping of usage events into chat sessions, cost-chart bucketing,
//! session-cookie normalisation, the overlay's settings and its tray menu.
pub mod text;
pub mod chats;
pub mod reorder;
pub mod time;
pub mod series;
pub mod fetch;
pub mod auth;
pub mod settings;
pub mod tray;
