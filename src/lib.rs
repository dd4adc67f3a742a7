/// Text helpers with exact contracts: decimal numbers, trimming, splitting.
pub mod strings;
/// The records kept in the store: profiles, tasks, ledgers.
pub mod records;
/// Reply texts built from data.
pub mod text;
/// Answer matching, exactly-once crediting, standings.
pub mod coordination;
/// Quota and per-destination pacing of outbound notifications.
pub mod delivery;
/// Task texts, storage keys, session and contact buffers, task ids.
pub mod catalog;
/// Open-task listing and the scoreboard.
pub mod ranking;
/// Who may do what, and when.
pub mod access;
/// Commands, session decisions and reply packing.
pub mod conversation;
