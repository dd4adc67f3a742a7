use vstd::prelude::*;
use crate::ranking::in_group;

verus! {

/// The bot's settings: tokens, the participant groups with special rights,
/// and the event window in seconds since the Unix epoch.
pub struct Config {
    pub telegram_token: String,
    pub vas3k_token: String,
    pub test_group: Vec<i64>,
    pub admin_group: Vec<i64>,
    pub notify_group: Vec<i64>,
    pub event_start: u64,
    pub event_end: u64,
}

impl Config {
    /// Whether the participant is in the test group.
    pub fn is_test_user(&self, user_id: u64) -> (r: bool)
        ensures
            r == self.test_group@.contains(user_id as i64),
    {
        in_group(&self.test_group, user_id as i64)
    }

    /// Whether the participant is an administrator.
    pub fn is_admin(&self, user_id: u64) -> (r: bool)
        ensures
            r == self.admin_group@.contains(user_id as i64),
    {
        in_group(&self.admin_group, user_id as i64)
    }

    /// Whether the participant's commands are served at time `now` (seconds
    /// since the epoch): anyone's strictly inside the event window, the test
    /// group's and administrators' at any time.
    pub fn can_process_command(&self, user_id: u64, now: u64) -> (r: bool)
        ensures
            r == ((self.event_start < now && now < self.event_end) || self.test_group@.contains(
                user_id as i64,
            ) || self.admin_group@.contains(user_id as i64)),
    {
        if now > self.event_start && now < self.event_end {
            true
        } else {
            self.is_test_user(user_id) || self.is_admin(user_id)
        }
    }

    /// Whether the participant's rank is withheld: the test group and
    /// administrators are not ranked.
    pub fn is_unranked(&self, user_id: u64) -> (r: bool)
        ensures
            r == (self.test_group@.contains(user_id as i64) || self.admin_group@.contains(
                user_id as i64,
            )),
    {
        self.is_test_user(user_id) || self.is_admin(user_id)
    }
}

} // verus!
