//! The events that the parser emits.

use crate::model::EventModel;
use crate::text::compact_chars;
use compact_str::CompactString;
use vstd::prelude::*;

verus! {

/// A dispatched event: its type (`"message"` unless an `event` field named
/// another), its data (the `data` values joined by `\n`) and the last event
/// id that was set when it was dispatched.
#[derive(Debug, Clone, PartialEq, Eq)]
pub struct Event {
    pub event: CompactString,
    pub data: String,
    pub id: Option<CompactString>,
}

impl View for Event {
    type V = EventModel;

    open spec fn view(&self) -> EventModel {
        EventModel {
            event: compact_chars(self.event),
            data: self.data@,
            id: match self.id {
                Some(s) => Some(compact_chars(s)),
                None => None,
            },
        }
    }
}

/// The models of a sequence of events.
pub open spec fn events_view(events: Seq<Event>) -> Seq<EventModel> {
    events.map_values(|e: Event| e@)
}

} // verus!
