//! What a worker decides for a table map and its row event: whether there
//! is a record to publish, what it holds, and the messages that carry it to
//! the queues.

use vstd::prelude::*;
use vstd::slice::*;
use vstd::string::*;
use vstd::utf8::*;
use crate::binlog::{
    bitmap_len, column_metas, column_types, columns_part, metas_part, pairs_expected,
    row_event_columns, row_event_frame, rows_expected, rows_fill, rows_of_width, schema_end,
    table_end, DeleteRowEvent, EventRaw, TableMap, TableMapEvent, UpdateRowEvent, WriteRowEvent,
    DELETE_ROWS_EVENT, UPDATE_ROWS_EVENT, WRITE_ROWS_EVENT,
};
use crate::config::Instance;
use crate::executor::{
    check_rows_fit, is_message_of, rows_fit, DmlData, DmlMessage, FieldMeta, RowEvents,
};
use crate::message_queue::QueueMessage;
use crate::mysql::{
    le_value, lemma_le_value_bound, lemma_pow256_values, var_bytes_body, DecodeError, Decoder,
};
use crate::text::text_of;
use crate::value::{rows_view, Value, ValueView};

verus! {

/// What a worker found for a pair of events.
pub enum Prepare {
    /// A change to publish, and for each queue that takes it the name of
    /// the queue and the topic.
    Ready(DmlData, Vec<(String, String)>),
    /// Nothing to publish: no instance takes the table, or the pair holds
    /// no row event.
    Skip,
    /// The events could not be decoded.
    Failed(DecodeError),
}

/// The names of queue and topic as mathematical values.
pub open spec fn ports_view(ports: Seq<(String, String)>) -> Seq<(Seq<char>, Seq<char>)> {
    Seq::new(ports.len(), |k: int| (ports[k].0@, ports[k].1@))
}

/// The queues that take a table, of the first `upto` instances: for each
/// instance that publishes the table, in their order, the name of its
/// queue and its topic.
pub open spec fn ports_of(instances: Seq<Instance>, db: Seq<char>, table: Seq<char>, upto: int)
    -> Seq<(Seq<char>, Seq<char>)>
    decreases upto,
{
    if upto <= 0 {
        Seq::<(Seq<char>, Seq<char>)>::empty()
    } else {
        let before = ports_of(instances, db, table, upto - 1);
        let inst = instances[upto - 1];
        if inst.wants(encode_utf8(db), encode_utf8(table)) {
            before.push((inst.mq@, inst.topic@))
        } else {
            before
        }
    }
}

/// The name of the schema in the payload of a table map.
pub open spec fn map_schema(payload: Seq<u8>) -> Seq<char> {
    text_of(payload.subrange(9, schema_end(payload)))
}

/// The name of the table in the payload of a table map.
pub open spec fn map_table(payload: Seq<u8>) -> Seq<char> {
    text_of(payload.subrange(schema_end(payload) + 2, table_end(payload)))
}

/// The table id in the payload of a table map or of a row event.
pub open spec fn payload_table_id(payload: Seq<u8>) -> u64 {
    le_value(payload.subrange(0, 6)) as u64
}

/// The kind of change that a row event of the given type makes.
pub open spec fn change_kind(event_type: u8) -> Seq<char> {
    if event_type == WRITE_ROWS_EVENT {
        "INSERT"@
    } else if event_type == UPDATE_ROWS_EVENT {
        "UPDATE"@
    } else {
        "DELETE"@
    }
}

/// Whether an event type is that of a row event.
pub open spec fn is_row_event(event_type: u8) -> bool {
    event_type == WRITE_ROWS_EVENT || event_type == UPDATE_ROWS_EVENT || event_type
        == DELETE_ROWS_EVENT
}

/// The rows of a row event, after the change and before it, or why they
/// cannot be decoded: an event that writes has rows after only, one that
/// deletes rows before only, and one that updates has both.
pub open spec fn event_rows(table_map: &TableMap, event_type: u8, payload: Seq<u8>) -> Result<
    (Seq<Seq<ValueView>>, Seq<Seq<ValueView>>),
    DecodeError,
> {
    let bitmaps: nat = if event_type == UPDATE_ROWS_EVENT {
        2
    } else {
        1
    };
    match row_event_frame(payload, bitmaps) {
        Err(e) => Err(e),
        Ok(head) => {
            let width = bitmap_len(row_event_columns(payload));
            let body = payload.skip(head as int);
            let id = payload_table_id(payload);
            if event_type == UPDATE_ROWS_EVENT {
                match pairs_expected(table_map, id, width, body) {
                    Err(e) => Err(e),
                    Ok((old_rows, new_rows, _)) => Ok((new_rows, old_rows)),
                }
            } else {
                match rows_expected(table_map, id, width, body) {
                    Err(e) => Err(e),
                    Ok((rows, _)) => if event_type == WRITE_ROWS_EVENT {
                        Ok((rows, Seq::<Seq<ValueView>>::empty()))
                    } else {
                        Ok((Seq::<Seq<ValueView>>::empty(), rows))
                    },
                }
            }
        },
    }
}

/// The time of an event in milliseconds.
pub open spec fn event_millis(timestamp: u32) -> u64 {
    (timestamp * 1000) as u64
}

/// Whether the rows of a change are those of a row event of the given
/// type to the table `table_id`: each row has one value for each column of
/// the table; an event that writes gives one row at least after the change
/// and none before it, one that deletes the other way round, and one that
/// updates as many rows before as after, one pair at least.
pub open spec fn rows_of_event(
    table_map: &TableMap,
    table_id: u64,
    event_type: u8,
    data: Seq<Vec<Value>>,
    old_data: Seq<Vec<Value>>,
) -> bool {
    &&& table_map.types_of(table_id) is Some
    &&& rows_of_width(data, table_map.types_of(table_id).unwrap().len())
    &&& rows_of_width(old_data, table_map.types_of(table_id).unwrap().len())
    &&& if event_type == WRITE_ROWS_EVENT {
        data.len() >= 1 && old_data.len() == 0
    } else if event_type == UPDATE_ROWS_EVENT {
        data.len() >= 1 && old_data.len() == data.len()
    } else {
        data.len() == 0 && old_data.len() >= 1
    }
}

/// Whether `dml` is the change that the row event `ev` makes to the table
/// that the payload `map` of a table map names, as event number `seq_idx`.
pub open spec fn is_change_of(
    dml: DmlData,
    table_map: &TableMap,
    map: Seq<u8>,
    ev: EventRaw,
    seq_idx: u64,
) -> bool {
    let rows = event_rows(table_map, ev.header.event_type, ev.payload@);
    &&& rows is Ok
    &&& dml.id == seq_idx
    &&& dml.table_id == payload_table_id(map) % 0x1_0000_0000
    &&& dml.database@ == map_schema(map)
    &&& dml.table@ == map_table(map)
    &&& dml.dml_type@ == change_kind(ev.header.event_type)
    &&& dml.es == event_millis(ev.header.timestamp)
    &&& dml.pos == ev.header.log_pos
    &&& rows_view(dml.data@) == rows.unwrap().0
    &&& rows_view(dml.old_data@) == rows.unwrap().1
    &&& rows_of_event(
        table_map,
        payload_table_id(ev.payload@),
        ev.header.event_type,
        dml.data@,
        dml.old_data@,
    )
}

fn collect_ports(instances: &Vec<Instance>, db: &String, table: &String) -> (ports: Vec<
    (String, String),
>)
    ensures
        ports_view(ports@) == ports_of(instances@, db@, table@, instances@.len() as int),
{
    let mut ports: Vec<(String, String)> = Vec::new();
    let mut k: usize = 0;
    assert(ports_view(ports@) =~= ports_of(instances@, db@, table@, 0));
    while k < instances.len()
        invariant
            k <= instances@.len(),
            ports_view(ports@) == ports_of(instances@, db@, table@, k as int),
        decreases instances@.len() - k,
    {
        let ghost before = ports_view(ports@);
        match instances[k].check_if_need_a_mq(db.clone(), table.clone()) {
            Some((mq, topic)) => {
                ports.push((mq, topic));
                assert(ports_view(ports@) =~= before.push(
                    (instances@[k as int].mq@, instances@[k as int].topic@),
                ));
            },
            None => {},
        }
        k = k + 1;
    }
    ports
}

/// Decodes the rows of a row event: see [`event_rows`].
fn decode_event_rows(table_map: &TableMap, ev: &EventRaw) -> (r: Result<
    (Vec<Vec<Value>>, Vec<Vec<Value>>),
    DecodeError,
>)
    requires
        is_row_event(ev.header.event_type),
    ensures
        match r {
            Ok((data, old_data)) => event_rows(table_map, ev.header.event_type, ev.payload@)
                == Ok::<(Seq<Seq<ValueView>>, Seq<Seq<ValueView>>), DecodeError>(
                (rows_view(data@), rows_view(old_data@)),
            ),
            Err(e) => event_rows(table_map, ev.header.event_type, ev.payload@) == Err::<
                (Seq<Seq<ValueView>>, Seq<Seq<ValueView>>),
                DecodeError,
            >(e),
        },
        r is Ok ==> rows_of_event(
            table_map,
            payload_table_id(ev.payload@),
            ev.header.event_type,
            r.unwrap().0@,
            r.unwrap().1@,
        ),
{
    let payload = ev.payload.as_slice();
    proof {
        lemma_le_value_bound(payload@.subrange(0, 6));
        lemma_pow256_values();
    }
    if ev.header.event_type == WRITE_ROWS_EVENT {
        let (body, head) = match WriteRowEvent::decode(payload) {
            Ok(p) => p,
            Err(e) => { return Err(e); },
        };
        match WriteRowEvent::decode_column_multirow_vals(
            table_map,
            body,
            head.header.table_id,
            head.col_map_len,
        ) {
            Ok((_, rows)) => {
                let none: Vec<Vec<Value>> = Vec::new();
                assert(rows_view(none@) =~= Seq::<Seq<ValueView>>::empty());
                Ok((rows, none))
            },
            Err(e) => Err(e),
        }
    } else if ev.header.event_type == UPDATE_ROWS_EVENT {
        let (body, head) = match UpdateRowEvent::decode(payload) {
            Ok(p) => p,
            Err(e) => { return Err(e); },
        };
        match UpdateRowEvent::fetch_rows(body, table_map, head.header.table_id, head.col_map_len) {
            Ok((_, (old_rows, new_rows))) => Ok((new_rows, old_rows)),
            Err(e) => Err(e),
        }
    } else {
        let (body, head) = match DeleteRowEvent::decode(payload) {
            Ok(p) => p,
            Err(e) => { return Err(e); },
        };
        match DeleteRowEvent::fetch_rows(body, table_map, head.header.table_id, head.col_map_len) {
            Ok((_, rows)) => {
                let none: Vec<Vec<Value>> = Vec::new();
                assert(rows_view(none@) =~= Seq::<Seq<ValueView>>::empty());
                Ok((none, rows))
            },
            Err(e) => Err(e),
        }
    }
}

/// Looks at a table map and its row event. The table map is decoded and
/// its columns are recorded in `table_map`; where no instance takes the
/// table, or the pair holds no row event, there is nothing to publish;
/// else the rows of the event are decoded into a change.
pub fn prepare(data: &RowEvents, table_map: &mut TableMap, instances: &Vec<Instance>) -> (r:
    Prepare)
    ensures
        TableMapEvent::frame(data.table_map.payload@) is Err ==> r == Prepare::Failed(
            TableMapEvent::frame(data.table_map.payload@)->Err_0,
        ) && *final(table_map) == *old(table_map),
        TableMapEvent::frame(data.table_map.payload@) is Ok ==> {
            let map = data.table_map.payload@;
            let tb = payload_table_id(map);
            let wanted = ports_of(instances@, map_schema(map), map_table(map), instances@.len() as int);
            &&& final(table_map).types_of(tb) == Some(
                column_types(var_bytes_body(columns_part(map))),
            )
            &&& final(table_map).metas_of(tb) == Some(
                column_metas(
                    var_bytes_body(columns_part(map)),
                    var_bytes_body(metas_part(map)),
                ),
            )
            &&& forall|other: u64|
                other != tb ==> final(table_map).types_of(other) == old(table_map).types_of(other)
                    && final(table_map).metas_of(other) == old(table_map).metas_of(other)
            &&& match r {
                Prepare::Ready(dml, ports) => wanted.len() > 0 && data.row_event is Some
                    && is_row_event(data.row_event.unwrap().header.event_type) && ports_view(
                    ports@,
                ) == wanted && is_change_of(
                    dml,
                    final(table_map),
                    map,
                    data.row_event.unwrap(),
                    data.seq_idx,
                ),
                Prepare::Skip => wanted.len() == 0 || data.row_event is None || !is_row_event(
                    data.row_event.unwrap().header.event_type,
                ),
                Prepare::Failed(e) => wanted.len() > 0 && data.row_event is Some && is_row_event(
                    data.row_event.unwrap().header.event_type,
                ) && event_rows(
                    final(table_map),
                    data.row_event.unwrap().header.event_type,
                    data.row_event.unwrap().payload@,
                ) == Err::<(Seq<Seq<ValueView>>, Seq<Seq<ValueView>>), DecodeError>(e),
            }
        },
{
    let (_, tablemap) = match TableMapEvent::decode(data.table_map.payload.as_slice()) {
        Ok(p) => p,
        Err(e) => { return Prepare::Failed(e); },
    };
    let table_id = tablemap.header.table_id;
    let TableMapEvent { header, schema_name, table_name, column_count, column_types, column_metas } =
        tablemap;
    table_map.decode_columns(table_id, column_types, column_metas.as_slice());
    let ports = collect_ports(instances, &schema_name, &table_name);
    if ports.len() < 1 {
        return Prepare::Skip;
    }
    let ev = match &data.row_event {
        Some(ev) => ev,
        None => { return Prepare::Skip; },
    };
    let kind = ev.header.event_type;
    if !(kind == WRITE_ROWS_EVENT || kind == UPDATE_ROWS_EVENT || kind == DELETE_ROWS_EVENT) {
        return Prepare::Skip;
    }
    let (rows, old_rows) = match decode_event_rows(table_map, ev) {
        Ok(p) => p,
        Err(e) => { return Prepare::Failed(e); },
    };
    let dml_type = if kind == WRITE_ROWS_EVENT {
        String::from_str("INSERT")
    } else if kind == UPDATE_ROWS_EVENT {
        String::from_str("UPDATE")
    } else {
        String::from_str("DELETE")
    };
    let mut dml = DmlData::new_data((table_id % 0x1_0000_0000) as u32, schema_name, table_name);
    let es = (ev.header.timestamp as u64) * 1000;
    dml.append_data(data.seq_idx, dml_type, es, rows, old_rows, ev.header.log_pos);
    proof {
        assert(dml.data@ =~= rows@);
        assert(dml.old_data@ =~= old_rows@);
    }
    Prepare::Ready(dml, ports)
}

/// Whether `messages` carry the text `json` to the queues: one message
/// for each queue, under the name of the queue, with its topic, the text
/// and the position.
pub open spec fn carries(
    messages: Seq<(String, QueueMessage)>,
    ports: Seq<(String, String)>,
    json: Seq<char>,
    pos: u32,
) -> bool {
    &&& messages.len() == ports.len()
    &&& forall|k: int|
        0 <= k < ports.len() ==> (#[trigger] messages[k]).0@ == ports[k].0@ && messages[k].1.topic@
            == ports[k].1@ && messages[k].1.payload@ == json && messages[k].1.pos == pos
}

/// Makes the messages that publish a change to a table with the given
/// fields, at time `ts`. Where the table has no field, or a row has not
/// one value for each field, nothing is published.
pub fn publish(dml: DmlData, ports: &Vec<(String, String)>, fields: &Vec<FieldMeta>, ts: u128) -> (r:
    Option<Vec<(String, QueueMessage)>>)
    ensures
        match r {
            Some(messages) => fields@.len() > 0 && rows_fit(&dml, fields@) && exists|m: DmlMessage|
                #[trigger] is_message_of(m, dml, fields@, ts) && carries(
                    messages@,
                    ports@,
                    m.json_text(),
                    dml.pos,
                ),
            None => fields@.len() == 0 || !rows_fit(&dml, fields@),
        },
{
    if fields.len() == 0 || !check_rows_fit(&dml, fields) {
        return None;
    }
    let pos = dml.pos;
    let ghost given = dml;
    let message = DmlMessage::from_dml(dml, fields, ts);
    let json = message.format_json();
    let mut messages: Vec<(String, QueueMessage)> = Vec::new();
    let mut k: usize = 0;
    while k < ports.len()
        invariant
            k <= ports@.len(),
            messages@.len() == k,
            forall|j: int|
                0 <= j < k ==> (#[trigger] messages@[j]).0@ == ports@[j].0@
                    && messages@[j].1.topic@ == ports@[j].1@ && messages@[j].1.payload@ == json@
                    && messages@[j].1.pos == pos,
        decreases ports@.len() - k,
    {
        messages.push(
            (
                ports[k].0.clone(),
                QueueMessage { topic: ports[k].1.clone(), payload: json.clone(), pos },
            ),
        );
        k = k + 1;
    }
    assert(is_message_of(message, given, fields@, ts) && carries(
        messages@,
        ports@,
        message.json_text(),
        given.pos,
    ));
    Some(messages)
}

} // verus!
