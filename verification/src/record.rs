use vstd::prelude::*;

use crate::timefmt::{clamp_timestamp, now_secs, ts_valid};

verus! {

/// One stored shell alias: the name being defined, the command it stands
/// for, a free-text description, and two timestamps in whole seconds
/// relative to the Unix epoch.
pub struct Alias {
    pub alias: String,
    pub command: String,
    pub description: String,
    pub date_created: i64,
    pub date_updated: i64,
}

/// The fields of a record that listings and export show: everything but
/// the creation timestamp.
pub struct AliasDisplay {
    pub alias: String,
    pub command: String,
    pub description: String,
    pub date_updated: i64,
}

impl Alias {
    /// Both timestamps lie in the representable range, and the record was
    /// not updated before it was created.
    pub open spec fn wf(&self) -> bool {
        &&& ts_valid(self.date_created)
        &&& ts_valid(self.date_updated)
        &&& self.date_created <= self.date_updated
    }

    /// Builds a record whose two timestamps are both the given second.
    pub fn with_time(alias: String, command: String, description: String, now: i64) -> (r: Alias)
        requires
            ts_valid(now),
        ensures
            r.alias == alias,
            r.command == command,
            r.description == description,
            r.date_created == now,
            r.date_updated == now,
            r.wf(),
    {
        Alias { alias, command, description, date_created: now, date_updated: now }
    }

    /// Builds a record stamped with the machine clock: both timestamps
    /// are the same second, whatever the clock reported.
    pub fn new(alias: String, command: String, description: String) -> (r: Alias)
        ensures
            r.alias == alias,
            r.command == command,
            r.description == description,
            r.date_created == r.date_updated,
            r.wf(),
    {
        let now = clamp_timestamp(now_secs());
        Alias::with_time(alias, command, description, now)
    }

    /// Replaces the command and stamps the change with the given second.
    /// The name, the description and the creation timestamp stay as they
    /// were.
    pub fn update_at(&mut self, command: String, now: i64)
        requires
            old(self).wf(),
            ts_valid(now),
            now >= old(self).date_created,
        ensures
            final(self).alias == old(self).alias,
            final(self).description == old(self).description,
            final(self).date_created == old(self).date_created,
            final(self).command == command,
            final(self).date_updated == now,
            final(self).wf(),
    {
        self.command = command;
        self.date_updated = now;
    }

    /// Replaces the command and stamps the change with the machine clock.
    /// A clock reading earlier than the creation timestamp is raised to
    /// it, so that a record is never updated before it was created.
    pub fn update(&mut self, command: String)
        requires
            old(self).wf(),
        ensures
            final(self).alias == old(self).alias,
            final(self).description == old(self).description,
            final(self).date_created == old(self).date_created,
            final(self).command == command,
            final(self).date_updated >= old(self).date_created,
            final(self).wf(),
    {
        let mut now = clamp_timestamp(now_secs());
        if now < self.date_created {
            now = self.date_created;
        }
        self.update_at(command, now);
    }
}

} // verus!
