//! Inventory of nearby Wi-Fi access points and the cursor that browses it.
//!
//! Raw scan lines are normalized into [`network::Network`] records, merged
//! into a ranked inventory without duplicate names, and browsed through a
//! selection that always stays inside the list and inside the visible window.

pub mod app;
pub mod columns;
pub mod inventory;
pub mod keys;
pub mod laws;
pub mod network;
pub mod selection;
