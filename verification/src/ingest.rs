//! The reader of the binary log: it pairs each table map with the row
//! event that follows it, numbers the pairs, and notes the rotation of the
//! log.

use vstd::prelude::*;
use crate::binlog::{
    EventRaw, QueryEvent, RotateEvent, DELETE_ROWS_EVENT, QUERY_EVENT, ROTATE_EVENT,
    TABLE_MAP_EVENT, UPDATE_ROWS_EVENT, WRITE_ROWS_EVENT,
};
use crate::executor::RowEvents;
use crate::mysql::{le_at, le_value, Decoder};
use crate::worker::is_row_event;

verus! {

/// The state of the reader: the table map that waits for its row event,
/// and the sequence index given last.
pub struct Ingest {
    pub pending: Option<RowEvents>,
    pub seq_idx: u64,
}

/// What the reader does with an event.
pub enum IngestAction {
    /// Nothing: the event was a table map, or of a kind that is passed
    /// over.
    Nothing,
    /// A table map and its row event go to a worker.
    Dispatch(RowEvents),
    /// The log goes on in another file.
    Rotate(RotateEvent),
    /// A statement was logged.
    Query(QueryEvent),
    /// A row event is dropped: no table map of its table came before it,
    /// or the sequence indices are used up.
    Dropped,
}

/// The table id that opens the payload of a table map or of a row event,
/// where the payload has the six bytes of it.
pub open spec fn table_id_of(payload: Seq<u8>) -> Option<u64> {
    if payload.len() >= 6 {
        Some(le_value(payload.subrange(0, 6)) as u64)
    } else {
        None
    }
}

/// The table id that opens a payload: see [`table_id_of`].
pub fn payload_table(payload: &[u8]) -> (id: Option<u64>)
    ensures
        id == table_id_of(payload@),
{
    if payload.len() >= 6 {
        Some(le_at(payload, 0, 6))
    } else {
        None
    }
}

/// Whether a row event belongs to the table map that waits: both name a
/// table, and the same one.
pub open spec fn belongs(pending: Option<Option<u64>>, id: Option<u64>) -> bool {
    id is Some && pending == Some(id)
}

/// The sequence index after an event, the table of the table map that
/// waits after it, and the index that the event was dispatched with, if it
/// was. A table map waits for a row event. A row event of the table of the
/// table map that waits takes the next index and leaves with it; any other
/// row event is dropped, and so is one that finds the indices used up.
/// After a row event no table map waits. A rotation lets the table map
/// that waited go. Any other event changes nothing.
pub open spec fn ingest_step(
    seq: u64,
    pending: Option<Option<u64>>,
    event_type: u8,
    id: Option<u64>,
) -> (u64, Option<Option<u64>>, Option<u64>) {
    if event_type == TABLE_MAP_EVENT {
        (seq, Some(id), None)
    } else if is_row_event(event_type) {
        if belongs(pending, id) && seq < u64::MAX {
            ((seq + 1) as u64, None, Some((seq + 1) as u64))
        } else {
            (seq, None, None)
        }
    } else if event_type == ROTATE_EVENT {
        (seq, None, None)
    } else {
        (seq, pending, None)
    }
}

/// The sequence indices that a run of events is dispatched with, in
/// order, by the types and the tables of the events.
pub open spec fn dispatched(seq: u64, pending: Option<Option<u64>>, events: Seq<(u8, Option<u64>)>)
    -> Seq<u64>
    decreases events.len(),
{
    if events.len() == 0 {
        Seq::<u64>::empty()
    } else {
        let (next_seq, next_pending, index) = ingest_step(
            seq,
            pending,
            events[0].0,
            events[0].1,
        );
        let rest = dispatched(next_seq, next_pending, events.skip(1));
        match index {
            Some(i) => seq![i] + rest,
            None => rest,
        }
    }
}

/// The sequence indices of a run of events rise strictly, and all lie
/// above the index given last before the run.
pub proof fn lemma_indices_rise(
    seq: u64,
    pending: Option<Option<u64>>,
    events: Seq<(u8, Option<u64>)>,
)
    ensures
        forall|i: int|
            0 <= i < dispatched(seq, pending, events).len() ==> seq < #[trigger] dispatched(
                seq,
                pending,
                events,
            )[i],
        forall|i: int, j: int|
            0 <= i < j < dispatched(seq, pending, events).len() ==> dispatched(
                seq,
                pending,
                events,
            )[i] < dispatched(seq, pending, events)[j],
    decreases events.len(),
{
    if events.len() > 0 {
        let (next_seq, next_pending, index) = ingest_step(
            seq,
            pending,
            events[0].0,
            events[0].1,
        );
        lemma_indices_rise(next_seq, next_pending, events.skip(1));
        let rest = dispatched(next_seq, next_pending, events.skip(1));
        let all = dispatched(seq, pending, events);
        match index {
            Some(first) => {
                assert forall|i: int| 0 <= i < all.len() implies seq < #[trigger] all[i] by {
                    if i > 0 {
                        assert(all[i] == rest[i - 1]);
                    }
                }
                assert forall|i: int, j: int| 0 <= i < j < all.len() implies all[i] < all[j] by {
                    assert(all[j] == rest[j - 1]);
                    if i > 0 {
                        assert(all[i] == rest[i - 1]);
                    }
                }
            },
            None => {},
        }
    }
}

impl Ingest {
    /// The table of the table map that waits, where one waits.
    pub open spec fn pending_table(&self) -> Option<Option<u64>> {
        match self.pending {
            Some(pair) => Some(table_id_of(pair.table_map.payload@)),
            None => None,
        }
    }

    /// A reader at the start: no table map waits, no index was given.
    pub fn new() -> (r: Ingest)
        ensures
            r.pending is None,
            r.seq_idx == 0,
    {
        Ingest { pending: None, seq_idx: 0 }
    }

    /// Takes the next event of the log: see [`ingest_step`]. A table map
    /// is kept until its row event comes; the two are then dispatched
    /// together under the next sequence index. A rotation and a statement
    /// are handed on where their payload can be decoded.
    pub fn on_event(&mut self, ev: EventRaw) -> (action: IngestAction)
        ensures
            (final(self).seq_idx, final(self).pending_table(), match action {
                IngestAction::Dispatch(pair) => Some(pair.seq_idx),
                _ => None,
            }) == ingest_step(
                old(self).seq_idx,
                old(self).pending_table(),
                ev.header.event_type,
                table_id_of(ev.payload@),
            ),
            ev.header.event_type == TABLE_MAP_EVENT ==> action is Nothing && final(self).pending
                == Some(RowEvents { table_map: ev, row_event: None, seq_idx: 0 }),
            is_row_event(ev.header.event_type) ==> match action {
                IngestAction::Dispatch(pair) => old(self).pending is Some && pair.table_map
                    == old(self).pending.unwrap().table_map && pair.row_event == Some(ev),
                IngestAction::Dropped => !belongs(
                    old(self).pending_table(),
                    table_id_of(ev.payload@),
                ) || old(self).seq_idx == u64::MAX,
                _ => false,
            },
            ev.header.event_type == ROTATE_EVENT ==> match action {
                IngestAction::Rotate(rotate) => RotateEvent::frame(ev.payload@) is Ok
                    && rotate.holds(ev.payload@),
                IngestAction::Nothing => RotateEvent::frame(ev.payload@) is Err,
                _ => false,
            },
            ev.header.event_type == QUERY_EVENT ==> final(self).pending == old(self).pending
                && match action {
                IngestAction::Query(query) => QueryEvent::frame(ev.payload@) is Ok && query.holds(
                    ev.payload@,
                ),
                IngestAction::Nothing => QueryEvent::frame(ev.payload@) is Err,
                _ => false,
            },
            !(ev.header.event_type == TABLE_MAP_EVENT || is_row_event(ev.header.event_type)
                || ev.header.event_type == ROTATE_EVENT || ev.header.event_type == QUERY_EVENT)
                ==> action is Nothing && final(self).pending == old(self).pending,
    {
        let kind = ev.header.event_type;
        if kind == TABLE_MAP_EVENT {
            self.pending = Some(RowEvents::new(ev));
            IngestAction::Nothing
        } else if kind == WRITE_ROWS_EVENT || kind == UPDATE_ROWS_EVENT || kind
            == DELETE_ROWS_EVENT {
            let id = payload_table(ev.payload.as_slice());
            match self.pending.take() {
                Some(pair) => {
                    let waiting = payload_table(pair.table_map.payload.as_slice());
                    let same = match (waiting, id) {
                        (Some(a), Some(b)) => a == b,
                        _ => false,
                    };
                    if !same || self.seq_idx == u64::MAX {
                        IngestAction::Dropped
                    } else {
                        let mut pair = pair;
                        self.seq_idx = self.seq_idx + 1;
                        pair.append(ev, self.seq_idx);
                        IngestAction::Dispatch(pair)
                    }
                },
                None => IngestAction::Dropped,
            }
        } else if kind == ROTATE_EVENT {
            self.pending = None;
            match RotateEvent::decode(ev.payload.as_slice()) {
                Ok((_, rotate)) => IngestAction::Rotate(rotate),
                Err(_) => IngestAction::Nothing,
            }
        } else if kind == QUERY_EVENT {
            match QueryEvent::decode(ev.payload.as_slice()) {
                Ok((_, query)) => IngestAction::Query(query),
                Err(_) => IngestAction::Nothing,
            }
        } else {
            IngestAction::Nothing
        }
    }
}

} // verus!
