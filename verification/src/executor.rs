//! From row events to records: the description of a table's fields, the
//! record of a change, its JSON text, and the choice of the worker that
//! handles an event.

use vstd::prelude::*;
use vstd::slice::*;
use vstd::string::*;
use vstd::utf8::*;
use std::collections::HashMap;
use std::time::Duration;
use std::time::SystemTime;
use std::time::UNIX_EPOCH;
use rand::Rng;
use crate::binlog::EventRaw;
use crate::text::{
    bytes_end_with, bytes_start_with, decimal_text, ends_with, int_text, lossy_text, push_char,
    push_decimal, push_decimal_wide, push_int, starts_with, string_from_utf8_lossy,
};
use crate::value::{row_view, Value, ValueView};

verus! {

broadcast use vstd::std_specs::hash::group_hash_axioms;

/// `std::time::SystemTime`, taken as a value whose inside is not looked
/// at.
#[verifier::external_type_specification]
#[verifier::external_body]
pub struct ExSystemTime(SystemTime);

/// `SystemTime::now`: the time of the system clock.
#[verifier::external_body]
fn system_now() -> SystemTime {
    SystemTime::now()
}

/// `SystemTime::duration_since` the start of 1970: `None` where the clock
/// stands before it.
#[verifier::external_body]
fn since_epoch(now: &SystemTime) -> Option<Duration> {
    now.duration_since(UNIX_EPOCH).ok()
}

/// `Duration::as_secs`: the whole seconds of a duration.
#[verifier::external_body]
fn whole_seconds(d: &Duration) -> u64 {
    d.as_secs()
}

/// `Duration::as_millis`: the whole milliseconds of a duration.
#[verifier::external_body]
fn whole_millis(d: &Duration) -> u128 {
    d.as_millis()
}

/// Seconds as milliseconds, held at the largest number where they do not
/// fit.
pub open spec fn millis_of(secs: u64) -> u64 {
    if secs * 1000 <= u64::MAX {
        (secs * 1000) as u64
    } else {
        u64::MAX
    }
}

/// Seconds as milliseconds: see [`millis_of`].
pub fn seconds_to_millis(secs: u64) -> (ms: u64)
    ensures
        ms == millis_of(secs),
{
    if secs <= u64::MAX / 1000 {
        secs * 1000
    } else {
        u64::MAX
    }
}

/// The time of the system clock in milliseconds since the start of 1970,
/// or 0 where the clock stands before it.
pub fn current_ms_ts() -> u128 {
    let now = system_now();
    match since_epoch(&now) {
        Some(d) => whole_millis(&d),
        None => 0,
    }
}

/// The time of the system clock in whole seconds since the start of 1970,
/// written in milliseconds: a multiple of 1000, unless the clock is beyond
/// what fits.
pub fn current_ts() -> (ts: u64)
    ensures
        ts % 1000 == 0 || ts == u64::MAX,
{
    let now = system_now();
    match since_epoch(&now) {
        Some(d) => seconds_to_millis(whole_seconds(&d)),
        None => 0,
    }
}

/// `Rng::gen_range` on the generator of the thread, for the numbers from 1
/// to 7: one of them, by chance.
#[verifier::external_body]
pub fn generate_random_number() -> (n: u32)
    ensures
        1 <= n <= 7,
{
    rand::thread_rng().gen_range(1..=7)
}

/// The time to wait before a lock that was held is tried again, in
/// microseconds: from 1 to 7, by chance.
pub fn backoff_micros() -> (us: u64)
    ensures
        1 <= us <= 7,
{
    generate_random_number() as u64
}

/// A table map and the row event that followed it, numbered in the order
/// in which the pairs were read.
#[derive(Debug, Clone)]
pub struct RowEvents {
    pub table_map: EventRaw,
    pub row_event: Option<EventRaw>,
    pub seq_idx: u64,
}

impl RowEvents {
    /// A pair that waits for its row event.
    pub fn new(table_map: EventRaw) -> (r: RowEvents)
        ensures
            r.table_map == table_map,
            r.row_event is None,
            r.seq_idx == 0,
    {
        RowEvents { table_map, row_event: None, seq_idx: 0 }
    }

    /// Completes the pair with its row event and its number.
    pub fn append(&mut self, ev: EventRaw, idx: u64)
        ensures
            final(self).table_map == old(self).table_map,
            final(self).row_event == Some(ev),
            final(self).seq_idx == idx,
    {
        self.row_event = Some(ev);
        self.seq_idx = idx;
    }
}

/// One field of a table, as `DESC` describes it.
#[derive(Debug, Clone)]
pub struct FieldMeta {
    pub name: String,
    pub field_type: String,
    pub is_pk: bool,
}

/// The code of a BLOB column.
pub const SQL_BLOB: i16 = 2004;

/// The code of a TEXT column.
pub const SQL_TEXT: i16 = 2005;

/// The code of a declared type that is not known.
pub const SQL_UNKNOWN: i16 = -999;

/// The JDBC-style code of a declared type, by the bytes of its text. The
/// type is known by how it begins, BLOB and TEXT types by how they end; the
/// first of these that fits decides: `tinyint` -6, `smallint` 5,
/// `mediumint` and `int` 4, `bigint` -5, `float` 7, `double` 8, `decimal`
/// 3, `datetime` and `timestamp` 93, `date` 91, `time` 92, `year` 12,
/// `char` 1, `varchar` 12, ending in `blob` 2004, ending in `text` 2005,
/// any other -999.
pub open spec fn sql_type_of(t: Seq<u8>) -> i16 {
    if starts_with(t, encode_utf8("tinyint"@)) {
        -6i16
    } else if starts_with(t, encode_utf8("smallint"@)) {
        5
    } else if starts_with(t, encode_utf8("mediumint"@)) || starts_with(t, encode_utf8("int"@)) {
        4
    } else if starts_with(t, encode_utf8("bigint"@)) {
        -5i16
    } else if starts_with(t, encode_utf8("float"@)) {
        7
    } else if starts_with(t, encode_utf8("double"@)) {
        8
    } else if starts_with(t, encode_utf8("decimal"@)) {
        3
    } else if starts_with(t, encode_utf8("datetime"@)) || starts_with(
        t,
        encode_utf8("timestamp"@),
    ) {
        93
    } else if starts_with(t, encode_utf8("date"@)) {
        91
    } else if starts_with(t, encode_utf8("time"@)) {
        92
    } else if starts_with(t, encode_utf8("year"@)) {
        12
    } else if starts_with(t, encode_utf8("char"@)) {
        1
    } else if starts_with(t, encode_utf8("varchar"@)) {
        12
    } else if ends_with(t, encode_utf8("blob"@)) {
        SQL_BLOB
    } else if ends_with(t, encode_utf8("text"@)) {
        SQL_TEXT
    } else {
        SQL_UNKNOWN
    }
}

impl FieldMeta {
    /// The JDBC-style code of the field's declared type.
    pub open spec fn sql_type(&self) -> i16 {
        sql_type_of(encode_utf8(self.field_type@))
    }

    /// The JDBC-style code of the field's declared type: see
    /// [`sql_type_of`].
    pub fn get_sql_type(&self) -> (code: i16)
        ensures
            code == self.sql_type(),
    {
        let t = self.field_type.as_str().as_bytes();
        if bytes_start_with(t, "tinyint".as_bytes()) {
            -6
        } else if bytes_start_with(t, "smallint".as_bytes()) {
            5
        } else if bytes_start_with(t, "mediumint".as_bytes()) || bytes_start_with(
            t,
            "int".as_bytes(),
        ) {
            4
        } else if bytes_start_with(t, "bigint".as_bytes()) {
            -5
        } else if bytes_start_with(t, "float".as_bytes()) {
            7
        } else if bytes_start_with(t, "double".as_bytes()) {
            8
        } else if bytes_start_with(t, "decimal".as_bytes()) {
            3
        } else if bytes_start_with(t, "datetime".as_bytes()) || bytes_start_with(
            t,
            "timestamp".as_bytes(),
        ) {
            93
        } else if bytes_start_with(t, "date".as_bytes()) {
            91
        } else if bytes_start_with(t, "time".as_bytes()) {
            92
        } else if bytes_start_with(t, "year".as_bytes()) {
            12
        } else if bytes_start_with(t, "char".as_bytes()) {
            1
        } else if bytes_start_with(t, "varchar".as_bytes()) {
            12
        } else if bytes_end_with(t, "blob".as_bytes()) {
            SQL_BLOB
        } else if bytes_end_with(t, "text".as_bytes()) {
            SQL_TEXT
        } else {
            SQL_UNKNOWN
        }
    }

    /// A copy of the field.
    pub fn duplicate(&self) -> (copy: FieldMeta)
        ensures
            copy.name@ == self.name@,
            copy.field_type@ == self.field_type@,
            copy.is_pk == self.is_pk,
    {
        FieldMeta {
            name: self.name.clone(),
            field_type: self.field_type.clone(),
            is_pk: self.is_pk,
        }
    }
}

/// The change that one row event makes, as decoded.
#[derive(Debug, Clone)]
pub struct DmlData {
    pub id: u64,
    pub table_id: u32,
    pub database: String,
    pub table: String,
    pub dml_type: String,
    /// The time of the event, in milliseconds.
    pub es: u64,
    /// The rows as they are after the change.
    pub data: Vec<Vec<Value>>,
    /// The rows as they were before the change.
    pub old_data: Vec<Vec<Value>>,
    pub pos: u32,
}

impl DmlData {
    /// A record for a table, still without rows.
    pub fn new_data(table_id: u32, database: String, table: String) -> (d: DmlData)
        ensures
            d.id == 0,
            d.table_id == table_id,
            d.database == database,
            d.table == table,
            d.dml_type@.len() == 0,
            d.es == 0,
            d.data@.len() == 0,
            d.old_data@.len() == 0,
            d.pos == 0,
    {
        DmlData {
            id: 0,
            table_id,
            database,
            table,
            dml_type: String::new(),
            es: 0,
            data: Vec::new(),
            old_data: Vec::new(),
            pos: 0,
        }
    }

    /// Adds the rows of an event: its number, its kind, its time and its
    /// position are set, and its rows are added after those already held.
    pub fn append_data(
        &mut self,
        idx: u64,
        dml_type: String,
        es: u64,
        data: Vec<Vec<Value>>,
        old_data: Vec<Vec<Value>>,
        pos: u32,
    )
        ensures
            final(self).id == idx,
            final(self).dml_type == dml_type,
            final(self).es == es,
            final(self).pos == pos,
            final(self).table_id == old(self).table_id,
            final(self).database == old(self).database,
            final(self).table == old(self).table,
            final(self).data@ == old(self).data@ + data@,
            final(self).old_data@ == old(self).old_data@ + old_data@,
    {
        let mut data = data;
        let mut old_data = old_data;
        self.id = idx;
        self.dml_type = dml_type;
        self.es = es;
        self.data.append(&mut data);
        self.old_data.append(&mut old_data);
        self.pos = pos;
    }
}

/// The text of bytes taken as code units one by one: each byte is the
/// character of the same number.
pub open spec fn latin_text(bytes: Seq<u8>) -> Seq<char> {
    Seq::new(bytes.len(), |k: int| bytes[k] as char)
}

/// A value as a record shows it: the bytes of a TEXT column become the
/// text that they write in UTF-8, ill-formed bytes replaced; the bytes of
/// a BLOB column become a text of one character for each byte; any other
/// value stays as it is.
pub open spec fn coerced(sql_type: i16, v: ValueView) -> ValueView {
    match v {
        ValueView::Bytes(b) => if sql_type == SQL_TEXT {
            ValueView::Text(lossy_text(b))
        } else if sql_type == SQL_BLOB {
            ValueView::Text(latin_text(b))
        } else {
            v
        },
        _ => v,
    }
}

/// A named value of a record, as mathematical values.
pub open spec fn record_view(rec: Seq<(String, Value)>) -> Seq<(Seq<char>, ValueView)> {
    Seq::new(rec.len(), |k: int| (rec[k].0@, rec[k].1@))
}

/// Records as mathematical values.
pub open spec fn records_view(recs: Seq<Vec<(String, Value)>>) -> Seq<Seq<(Seq<char>, ValueView)>> {
    Seq::new(recs.len(), |k: int| record_view(recs[k]@))
}

/// Names as mathematical values.
pub open spec fn names_view(names: Seq<String>) -> Seq<Seq<char>> {
    Seq::new(names.len(), |k: int| names[k]@)
}

/// The record of a row after the change: every field by its name, with
/// its value.
pub open spec fn new_record(fields: Seq<FieldMeta>, row: Seq<ValueView>) -> Seq<
    (Seq<char>, ValueView),
> {
    Seq::new(fields.len(), |k: int| (fields[k].name@, coerced(fields[k].sql_type(), row[k])))
}

/// Of the first `upto` fields, those whose value before the change
/// differs from the value after it, by name, with the value before.
pub open spec fn changed(
    fields: Seq<FieldMeta>,
    new_row: Seq<ValueView>,
    old_row: Seq<ValueView>,
    upto: int,
) -> Seq<(Seq<char>, ValueView)>
    decreases upto,
{
    if upto <= 0 {
        Seq::<(Seq<char>, ValueView)>::empty()
    } else {
        let before = changed(fields, new_row, old_row, upto - 1);
        let k = upto - 1;
        if old_row[k] != new_row[k] {
            before.push((fields[k].name@, coerced(fields[k].sql_type(), old_row[k])))
        } else {
            before
        }
    }
}

/// The record of a row before the change: the fields that the change
/// touched; empty where the row has no image from before.
pub open spec fn old_record(
    fields: Seq<FieldMeta>,
    new_row: Seq<ValueView>,
    old_row: Option<Seq<ValueView>>,
) -> Seq<(Seq<char>, ValueView)> {
    match old_row {
        Some(old) => changed(fields, new_row, old, fields.len() as int),
        None => Seq::<(Seq<char>, ValueView)>::empty(),
    }
}

/// The names of the primary-key fields among the first `upto`: each once,
/// the later ones first.
pub open spec fn pk_names(fields: Seq<FieldMeta>, upto: int) -> Seq<Seq<char>>
    decreases upto,
{
    if upto <= 0 {
        Seq::<Seq<char>>::empty()
    } else {
        let before = pk_names(fields, upto - 1);
        let f = fields[upto - 1];
        if f.is_pk && !before.contains(f.name@) {
            seq![f.name@] + before
        } else {
            before
        }
    }
}

/// The names of the primary-key fields are exactly the names in
/// `pk_names`, and none stands there twice.
pub proof fn lemma_pk_names(fields: Seq<FieldMeta>, upto: int)
    requires
        0 <= upto <= fields.len(),
    ensures
        forall|name: Seq<char>| #[trigger]
            pk_names(fields, upto).contains(name) <==> exists|k: int|
                0 <= k < upto && fields[k].is_pk && #[trigger] fields[k].name@ == name,
        pk_names(fields, upto).no_duplicates(),
    decreases upto,
{
    if upto > 0 {
        lemma_pk_names(fields, upto - 1);
        let before = pk_names(fields, upto - 1);
        let now = pk_names(fields, upto);
        let f = fields[upto - 1];
        assert forall|name: Seq<char>| #[trigger]
            now.contains(name) <==> exists|k: int|
                0 <= k < upto && fields[k].is_pk && #[trigger] fields[k].name@ == name by {
            if now.contains(name) {
                let j = choose|j: int| 0 <= j < now.len() && now[j] == name;
                if f.is_pk && !before.contains(f.name@) {
                    if j == 0 {
                        assert(fields[upto - 1].name@ == name);
                    } else {
                        assert(before[j - 1] == name);
                        assert(before.contains(name));
                        let k = choose|k: int|
                            0 <= k < upto - 1 && fields[k].is_pk && #[trigger] fields[k].name@
                                == name;
                        assert(fields[k].name@ == name);
                    }
                } else {
                    let k = choose|k: int|
                        0 <= k < upto - 1 && fields[k].is_pk && #[trigger] fields[k].name@ == name;
                    assert(fields[k].name@ == name);
                }
            }
            if exists|k: int| 0 <= k < upto && fields[k].is_pk && #[trigger] fields[k].name@ == name {
                let k = choose|k: int|
                    0 <= k < upto && fields[k].is_pk && #[trigger] fields[k].name@ == name;
                if k < upto - 1 {
                    assert(before.contains(name));
                    let j = choose|j: int| 0 <= j < before.len() && before[j] == name;
                    if f.is_pk && !before.contains(f.name@) {
                        assert(now[j + 1] == name);
                    }
                } else {
                    if before.contains(f.name@) {
                    } else {
                        assert(now[0] == name);
                    }
                }
            }
        }
        if f.is_pk && !before.contains(f.name@) {
            assert forall|i: int, j: int| 0 <= i < now.len() && 0 <= j < now.len() && i != j implies now[i]
                != now[j] by {
                if i == 0 {
                    assert(before[j - 1] == now[j]);
                } else if j == 0 {
                    assert(before[i - 1] == now[i]);
                } else {
                    assert(before[i - 1] == now[i]);
                    assert(before[j - 1] == now[j]);
                }
            }
        }
    }
}

/// The text that `serde_json` writes for a string: the string in double
/// quotes, with the characters escaped that JSON does not take as they
/// are.
pub uninterp spec fn json_string_text(s: Seq<char>) -> Seq<char>;

/// `to_string` on a `serde_json::Value` that holds a string: the JSON text
/// of the string.
#[verifier::external_body]
fn json_quote(s: &str) -> (r: String)
    ensures
        r@ == json_string_text(s@),
{
    serde_json::Value::String(s.to_owned()).to_string()
}

/// The texts put one after the other, with a comma between each two.
pub open spec fn joined(items: Seq<Seq<char>>) -> Seq<char>
    decreases items.len(),
{
    if items.len() == 0 {
        Seq::<char>::empty()
    } else if items.len() == 1 {
        items[0]
    } else {
        joined(items.drop_last()) + seq![','] + items.last()
    }
}

/// The JSON text of bytes: an array of their numbers.
pub open spec fn bytes_text(bytes: Seq<u8>) -> Seq<char> {
    seq!['['] + joined(Seq::new(bytes.len(), |k: int| decimal_text(bytes[k] as nat))) + seq![']']
}

/// The JSON text of a value: `null` for the null value, an integer in
/// decimal digits, a text as a JSON string, bytes as an array of numbers,
/// and a number written out as it stands. A number that is held by its
/// bits has no text of its own and is written `null`.
pub open spec fn value_text(v: ValueView) -> Seq<char> {
    match v {
        ValueView::Null => seq!['n', 'u', 'l', 'l'],
        ValueView::Int(i) => int_text(i),
        ValueView::Float(_) => seq!['n', 'u', 'l', 'l'],
        ValueView::Double(_) => seq!['n', 'u', 'l', 'l'],
        ValueView::Text(s) => json_string_text(s),
        ValueView::Bytes(b) => bytes_text(b),
        ValueView::Number(s) => s,
    }
}

/// The JSON text of a named value: the name as a JSON string, a colon,
/// the value.
pub open spec fn pair_text(p: (Seq<char>, ValueView)) -> Seq<char> {
    json_string_text(p.0) + seq![':'] + value_text(p.1)
}

/// The JSON text of a record: an object of its named values.
pub open spec fn record_text(rec: Seq<(Seq<char>, ValueView)>) -> Seq<char> {
    seq!['{'] + joined(Seq::new(rec.len(), |k: int| pair_text(rec[k]))) + seq!['}']
}

/// The JSON text of records: an array of objects.
pub open spec fn records_text(recs: Seq<Seq<(Seq<char>, ValueView)>>) -> Seq<char> {
    seq!['['] + joined(Seq::new(recs.len(), |k: int| record_text(recs[k]))) + seq![']']
}

/// Adding one more text to joined texts.
proof fn lemma_joined_step(items: Seq<Seq<char>>, k: int)
    requires
        0 <= k < items.len(),
    ensures
        joined(items.take(k + 1)) == if k == 0 {
            items[0]
        } else {
            joined(items.take(k)) + seq![','] + items[k]
        },
{
    let next = items.take(k + 1);
    assert(next.last() == items[k]);
    assert(next.drop_last() =~= items.take(k));
    if k == 0 {
        assert(next[0] == items[0]);
    }
}

/// Appends the texts, with a comma between each two.
pub fn push_joined(out: &mut String, items: &Vec<String>)
    ensures
        final(out)@ == old(out)@ + joined(names_view(items@)),
{
    proof {
        reveal_strlit(",");
    }
    let ghost texts = names_view(items@);
    let mut k: usize = 0;
    assert(texts.take(0) =~= Seq::<Seq<char>>::empty());
    assert(out@ =~= old(out)@ + joined(texts.take(0)));
    while k < items.len()
        invariant
            k <= items@.len(),
            texts == names_view(items@),
            out@ == old(out)@ + joined(texts.take(k as int)),
            ","@ == seq![','],
        decreases items@.len() - k,
    {
        if k > 0 {
            out.append(",");
        }
        out.append(items[k].as_str());
        proof {
            lemma_joined_step(texts, k as int);
            assert(out@ =~= old(out)@ + joined(texts.take(k + 1)));
        }
        k = k + 1;
    }
    assert(texts.take(k as int) =~= texts);
}

/// The texts joined by commas between an opening and a closing character.
pub open spec fn enclosed(open: char, items: Seq<Seq<char>>, close: char) -> Seq<char> {
    seq![open] + joined(items) + seq![close]
}

/// The texts as a JSON array.
pub fn array_text(items: &Vec<String>) -> (s: String)
    ensures
        s@ == enclosed('[', names_view(items@), ']'),
{
    proof {
        reveal_strlit("[");
        reveal_strlit("]");
    }
    let mut out = String::from_str("[");
    push_joined(&mut out, items);
    out.append("]");
    assert(out@ =~= enclosed('[', names_view(items@), ']'));
    out
}

/// The texts as the members of a JSON object.
pub fn object_text(items: &Vec<String>) -> (s: String)
    ensures
        s@ == enclosed('{', names_view(items@), '}'),
{
    proof {
        reveal_strlit("{");
        reveal_strlit("}");
    }
    let mut out = String::from_str("{");
    push_joined(&mut out, items);
    out.append("}");
    assert(out@ =~= enclosed('{', names_view(items@), '}'));
    out
}

/// A member of a JSON object: the key as it is written, a colon, the
/// value as it is written.
pub fn member_text(key: &str, value: &str) -> (s: String)
    ensures
        s@ == key@ + seq![':'] + value@,
{
    proof {
        reveal_strlit(":");
    }
    let mut out = String::from_str(key);
    out.append(":");
    out.append(value);
    out
}

fn bytes_string(bytes: &Vec<u8>) -> (s: String)
    ensures
        s@ == bytes_text(bytes@),
{
    let mut items: Vec<String> = Vec::new();
    let mut k: usize = 0;
    while k < bytes.len()
        invariant
            k <= bytes@.len(),
            items@.len() == k,
            forall|j: int| 0 <= j < k ==> (#[trigger] items@[j])@ == decimal_text(bytes@[j] as nat),
        decreases bytes@.len() - k,
    {
        let mut item = String::new();
        push_decimal(&mut item, bytes[k] as u64);
        assert(item@ =~= decimal_text(bytes@[k as int] as nat));
        items.push(item);
        k = k + 1;
    }
    assert(names_view(items@) =~= Seq::new(
        bytes@.len(),
        |k: int| decimal_text(bytes@[k] as nat),
    ));
    array_text(&items)
}

fn value_string(v: &Value) -> (s: String)
    ensures
        s@ == value_text(v@),
{
    proof {
        reveal_strlit("null");
    }
    match v {
        Value::Null => {
            let s = String::from_str("null");
            assert(s@ =~= seq!['n', 'u', 'l', 'l']);
            s
        },
        Value::Int(i) => {
            let mut s = String::new();
            push_int(&mut s, *i);
            assert(s@ =~= int_text(*i as int));
            s
        },
        Value::Float(_) => {
            let s = String::from_str("null");
            assert(s@ =~= seq!['n', 'u', 'l', 'l']);
            s
        },
        Value::Double(_) => {
            let s = String::from_str("null");
            assert(s@ =~= seq!['n', 'u', 'l', 'l']);
            s
        },
        Value::Text(s) => json_quote(s.as_str()),
        Value::Bytes(b) => bytes_string(b),
        Value::Number(s) => s.clone(),
    }
}

fn record_string(rec: &Vec<(String, Value)>) -> (s: String)
    ensures
        s@ == record_text(record_view(rec@)),
{
    let ghost view = record_view(rec@);
    let mut items: Vec<String> = Vec::new();
    let mut k: usize = 0;
    while k < rec.len()
        invariant
            k <= rec@.len(),
            view == record_view(rec@),
            items@.len() == k,
            forall|j: int| 0 <= j < k ==> (#[trigger] items@[j])@ == pair_text(view[j]),
        decreases rec@.len() - k,
    {
        let key = json_quote(rec[k].0.as_str());
        let value = value_string(&rec[k].1);
        items.push(member_text(key.as_str(), value.as_str()));
        k = k + 1;
    }
    assert(names_view(items@) =~= Seq::new(view.len(), |k: int| pair_text(view[k])));
    object_text(&items)
}

fn records_string(recs: &Vec<Vec<(String, Value)>>) -> (s: String)
    ensures
        s@ == records_text(records_view(recs@)),
{
    let ghost view = records_view(recs@);
    let mut items: Vec<String> = Vec::new();
    let mut k: usize = 0;
    while k < recs.len()
        invariant
            k <= recs@.len(),
            view == records_view(recs@),
            items@.len() == k,
            forall|j: int| 0 <= j < k ==> (#[trigger] items@[j])@ == record_text(view[j]),
        decreases recs@.len() - k,
    {
        items.push(record_string(&recs[k]));
        k = k + 1;
    }
    assert(names_view(items@) =~= Seq::new(view.len(), |k: int| record_text(view[k])));
    array_text(&items)
}

/// The declared types of fields as mathematical values.
pub open spec fn mysql_types_view(v: Seq<(String, String)>) -> Seq<(Seq<char>, Seq<char>)> {
    Seq::new(v.len(), |k: int| (v[k].0@, v[k].1@))
}

/// The type codes of fields as mathematical values.
pub open spec fn sql_types_view(v: Seq<(String, i16)>) -> Seq<(Seq<char>, i16)> {
    Seq::new(v.len(), |k: int| (v[k].0@, v[k].1))
}

/// The declared type of each field, by name.
pub open spec fn mysql_types_of(fields: Seq<FieldMeta>) -> Seq<(Seq<char>, Seq<char>)> {
    Seq::new(fields.len(), |k: int| (fields[k].name@, fields[k].field_type@))
}

/// The type code of each field, by name.
pub open spec fn sql_types_of(fields: Seq<FieldMeta>) -> Seq<(Seq<char>, i16)> {
    Seq::new(fields.len(), |k: int| (fields[k].name@, fields[k].sql_type()))
}

/// The JSON text of the declared types: an object of strings.
pub open spec fn mysql_types_text(types: Seq<(Seq<char>, Seq<char>)>) -> Seq<char> {
    seq!['{'] + joined(
        Seq::new(
            types.len(),
            |k: int| json_string_text(types[k].0) + seq![':'] + json_string_text(types[k].1),
        ),
    ) + seq!['}']
}

/// The JSON text of the type codes: an object of numbers.
pub open spec fn sql_types_text(types: Seq<(Seq<char>, i16)>) -> Seq<char> {
    seq!['{'] + joined(
        Seq::new(
            types.len(),
            |k: int| json_string_text(types[k].0) + seq![':'] + int_text(types[k].1 as int),
        ),
    ) + seq!['}']
}

/// The JSON text of names: an array of strings.
pub open spec fn names_text(names: Seq<Seq<char>>) -> Seq<char> {
    seq!['['] + joined(Seq::new(names.len(), |k: int| json_string_text(names[k]))) + seq![']']
}

/// The record of one change, as it is published.
#[allow(non_snake_case)]
#[derive(Debug, Clone)]
pub struct DmlMessage {
    pub id: u64,
    pub database: String,
    pub table: String,
    /// The names of the primary-key fields, or `None` where there is none.
    pub pkNames: Option<Vec<String>>,
    pub isDdl: bool,
    /// `INSERT`, `UPDATE` or `DELETE`.
    pub dml_type: String,
    /// The time of the event, in milliseconds.
    pub es: u64,
    /// The time at which the record was made, in milliseconds.
    pub ts: u128,
    pub sql: Option<String>,
    /// The type code of each field, in the order of the fields.
    pub sqlType: Vec<(String, i16)>,
    /// The declared type of each field, in the order of the fields.
    pub mysqlType: Vec<(String, String)>,
    /// For each row, every field with its value after the change.
    pub data: Vec<Vec<(String, Value)>>,
    /// For each row, the fields that the change touched, with their values
    /// before it; `None` where the event carries no rows from before.
    pub old: Option<Vec<Vec<(String, Value)>>>,
}

impl DmlMessage {
    /// The part of the JSON text that holds the rows from before: nothing
    /// where there are none. A row in which the change touched no field is
    /// written as an empty object.
    pub open spec fn old_text(&self) -> Seq<char> {
        match self.old {
            Some(recs) => if recs@.len() > 0 {
                "\"old\":"@ + records_text(records_view(recs@)) + ","@
            } else {
                Seq::<char>::empty()
            },
            None => Seq::<char>::empty(),
        }
    }

    /// The part of the JSON text that holds the names of the primary-key
    /// fields: `null` where there is none.
    pub open spec fn pk_text(&self) -> Seq<char> {
        match self.pkNames {
            Some(names) => "\"pkNames\":"@ + names_text(names_view(names@)) + ","@,
            None => "\"pkNames\":null,"@,
        }
    }

    /// The statement of the record: empty where none is set.
    pub open spec fn sql_text(&self) -> Seq<char> {
        match self.sql {
            Some(sql) => json_string_text(sql@),
            None => json_string_text(Seq::<char>::empty()),
        }
    }

    /// The first keys of the JSON text: `data`, `database`, `es`, `id`,
    /// `isDdl` and `mysqlType`.
    pub open spec fn head_text(&self) -> Seq<char> {
        "{\"data\":"@ + records_text(records_view(self.data@)) + ",\"database\":"@
            + json_string_text(self.database@) + ",\"es\":"@ + decimal_text(self.es as nat)
            + ",\"id\":"@ + decimal_text(self.id as nat) + (if self.isDdl {
            ",\"isDdl\": true,"@
        } else {
            ",\"isDdl\": false,"@
        }) + "\"mysqlType\":"@ + mysql_types_text(mysql_types_view(self.mysqlType@)) + ","@
    }

    /// The last keys of the JSON text: `sql`, `sqlType`, `table`, `ts` and
    /// `type`.
    pub open spec fn tail_text(&self) -> Seq<char> {
        "\"sql\":"@ + self.sql_text() + ",\"sqlType\":"@ + sql_types_text(
            sql_types_view(self.sqlType@),
        ) + ",\"table\":"@ + json_string_text(self.table@) + ",\"ts\":"@ + decimal_text(
            self.ts as nat,
        ) + ",\"type\":"@ + json_string_text(self.dml_type@) + "}"@
    }

    /// The JSON text of the record: one object with the keys `data`,
    /// `database`, `es`, `id`, `isDdl`, `mysqlType`, `old` (where there are
    /// rows from before), `pkNames`, `sql`, `sqlType`, `table`, `ts` and
    /// `type`, in this order.
    pub open spec fn json_text(&self) -> Seq<char> {
        self.head_text() + self.old_text() + self.pk_text() + self.tail_text()
    }

    /// The JSON text of a value: see [`value_text`].
    pub fn format_val(val: &Value) -> (s: String)
        ensures
            s@ == value_text(val@),
    {
        value_string(val)
    }

    /// The text that the bytes of a TEXT column write; empty for a value
    /// that holds no bytes.
    pub fn text_field_data(val: &Value) -> (s: String)
        ensures
            s@ == match val@ {
                ValueView::Bytes(b) => lossy_text(b),
                _ => Seq::<char>::empty(),
            },
    {
        match val {
            Value::Bytes(b) => string_from_utf8_lossy(b.as_slice()),
            _ => String::new(),
        }
    }

    /// The text of the bytes of a BLOB column, one character for each
    /// byte; empty for a value that holds no bytes.
    pub fn blob_field_data(val: &Value) -> (s: String)
        ensures
            s@ == match val@ {
                ValueView::Bytes(b) => latin_text(b),
                _ => Seq::<char>::empty(),
            },
    {
        match val {
            Value::Bytes(b) => {
                let mut out = String::new();
                let mut k: usize = 0;
                while k < b.len()
                    invariant
                        k <= b@.len(),
                        out@ == latin_text(b@.take(k as int)),
                    decreases b@.len() - k,
                {
                    push_char(&mut out, b[k] as char);
                    k = k + 1;
                    assert(out@ =~= latin_text(b@.take(k as int)));
                }
                assert(b@.take(k as int) =~= b@);
                out
            },
            _ => String::new(),
        }
    }

    /// A record without fields and rows.
    pub fn new(mid: u64, database: String, table: String, dml_type: String, es: u64, ts: u128)
        -> (m: DmlMessage)
        ensures
            m.id == mid,
            m.database == database,
            m.table == table,
            m.dml_type == dml_type,
            m.es == es,
            m.ts == ts,
            m.pkNames is None,
            !m.isDdl,
            m.sql is None,
            m.sqlType@.len() == 0,
            m.mysqlType@.len() == 0,
            m.data@.len() == 0,
            m.old is None,
    {
        DmlMessage {
            id: mid,
            database,
            table,
            pkNames: None,
            isDdl: false,
            dml_type,
            es,
            ts,
            sql: None,
            sqlType: Vec::new(),
            mysqlType: Vec::new(),
            data: Vec::new(),
            old: None,
        }
    }
}

/// A value as a record shows it: see [`coerced`].
pub fn coerce(sql_type: i16, v: &Value) -> (r: Value)
    ensures
        r@ == coerced(sql_type, v@),
{
    match v {
        Value::Bytes(_) => {
            if sql_type == SQL_TEXT {
                Value::Text(DmlMessage::text_field_data(v))
            } else if sql_type == SQL_BLOB {
                Value::Text(DmlMessage::blob_field_data(v))
            } else {
                v.duplicate()
            }
        },
        _ => v.duplicate(),
    }
}

fn build_new(fields: &Vec<FieldMeta>, row: &Vec<Value>) -> (rec: Vec<(String, Value)>)
    requires
        row@.len() >= fields@.len(),
    ensures
        record_view(rec@) == new_record(fields@, row_view(row@)),
{
    let mut rec: Vec<(String, Value)> = Vec::new();
    let mut k: usize = 0;
    while k < fields.len()
        invariant
            k <= fields@.len(),
            row@.len() >= fields@.len(),
            rec@.len() == k,
            forall|j: int|
                0 <= j < k ==> rec@[j].0@ == fields@[j].name@ && rec@[j].1@ == coerced(
                    fields@[j].sql_type(),
                    row@[j]@,
                ),
        decreases fields@.len() - k,
    {
        let code = fields[k].get_sql_type();
        rec.push((fields[k].name.clone(), coerce(code, &row[k])));
        k = k + 1;
    }
    assert(record_view(rec@) =~= new_record(fields@, row_view(row@)));
    rec
}

fn build_old(fields: &Vec<FieldMeta>, new_row: &Vec<Value>, old_row: &Vec<Value>) -> (rec: Vec<
    (String, Value),
>)
    requires
        new_row@.len() >= fields@.len(),
        old_row@.len() >= fields@.len(),
    ensures
        record_view(rec@) == changed(
            fields@,
            row_view(new_row@),
            row_view(old_row@),
            fields@.len() as int,
        ),
{
    let mut rec: Vec<(String, Value)> = Vec::new();
    let mut k: usize = 0;
    assert(record_view(rec@) =~= changed(fields@, row_view(new_row@), row_view(old_row@), 0));
    while k < fields.len()
        invariant
            k <= fields@.len(),
            new_row@.len() >= fields@.len(),
            old_row@.len() >= fields@.len(),
            record_view(rec@) == changed(
                fields@,
                row_view(new_row@),
                row_view(old_row@),
                k as int,
            ),
        decreases fields@.len() - k,
    {
        let ghost before = record_view(rec@);
        if !old_row[k].same(&new_row[k]) {
            let code = fields[k].get_sql_type();
            rec.push((fields[k].name.clone(), coerce(code, &old_row[k])));
            assert(record_view(rec@) =~= before.push(
                (fields@[k as int].name@, coerced(fields@[k as int].sql_type(), old_row@[k as int]@)),
            ));
        }
        k = k + 1;
    }
    rec
}

fn holds_name(names: &Vec<String>, name: &String) -> (found: bool)
    ensures
        found == names_view(names@).contains(name@),
{
    let mut k: usize = 0;
    while k < names.len()
        invariant
            k <= names@.len(),
            forall|j: int| 0 <= j < k ==> names_view(names@)[j] != name@,
        decreases names@.len() - k,
    {
        if names[k] == *name {
            assert(names_view(names@)[k as int] == name@);
            return true;
        }
        k = k + 1;
    }
    false
}

fn build_pk_names(fields: &Vec<FieldMeta>) -> (names: Vec<String>)
    ensures
        names_view(names@) == pk_names(fields@, fields@.len() as int),
{
    let mut names: Vec<String> = Vec::new();
    let mut k: usize = 0;
    assert(names_view(names@) =~= pk_names(fields@, 0));
    while k < fields.len()
        invariant
            k <= fields@.len(),
            names_view(names@) == pk_names(fields@, k as int),
        decreases fields@.len() - k,
    {
        let ghost before = names_view(names@);
        if fields[k].is_pk && !holds_name(&names, &fields[k].name) {
            names.insert(0, fields[k].name.clone());
            assert(names_view(names@) =~= seq![fields@[k as int].name@] + before);
        }
        k = k + 1;
    }
    names
}

fn build_types(fields: &Vec<FieldMeta>) -> (r: (Vec<(String, i16)>, Vec<(String, String)>))
    ensures
        sql_types_view(r.0@) == sql_types_of(fields@),
        mysql_types_view(r.1@) == mysql_types_of(fields@),
{
    let mut codes: Vec<(String, i16)> = Vec::new();
    let mut types: Vec<(String, String)> = Vec::new();
    let mut k: usize = 0;
    while k < fields.len()
        invariant
            k <= fields@.len(),
            codes@.len() == k,
            types@.len() == k,
            forall|j: int|
                0 <= j < k ==> codes@[j].0@ == fields@[j].name@ && codes@[j].1
                    == fields@[j].sql_type() && types@[j].0@ == fields@[j].name@ && types@[j].1@
                    == fields@[j].field_type@,
        decreases fields@.len() - k,
    {
        codes.push((fields[k].name.clone(), fields[k].get_sql_type()));
        types.push((fields[k].name.clone(), fields[k].field_type.clone()));
        k = k + 1;
    }
    assert(sql_types_view(codes@) =~= sql_types_of(fields@));
    assert(mysql_types_view(types@) =~= mysql_types_of(fields@));
    (codes, types)
}

/// Whether every row of the change has a value for each field.
pub open spec fn rows_cover(dml: &DmlData, fields: Seq<FieldMeta>) -> bool {
    &&& forall|i: int| 0 <= i < dml.data@.len() ==> #[trigger] dml.data@[i]@.len() >= fields.len()
    &&& forall|i: int|
        0 <= i < dml.old_data@.len() ==> #[trigger] dml.old_data@[i]@.len() >= fields.len()
}

/// Whether every row of the change has one value for each field, and no
/// more.
pub open spec fn rows_fit(dml: &DmlData, fields: Seq<FieldMeta>) -> bool {
    &&& forall|i: int| 0 <= i < dml.data@.len() ==> #[trigger] dml.data@[i]@.len() == fields.len()
    &&& forall|i: int|
        0 <= i < dml.old_data@.len() ==> #[trigger] dml.old_data@[i]@.len() == fields.len()
}

/// The image from before of row `i`, where the change carries one.
pub open spec fn old_row_of(dml: &DmlData, i: int) -> Option<Seq<ValueView>> {
    if i < dml.old_data@.len() {
        Some(row_view(dml.old_data@[i]@))
    } else {
        None
    }
}

/// The rows of a change after it, as records.
pub open spec fn data_of(dml: &DmlData, fields: Seq<FieldMeta>) -> Seq<Seq<(Seq<char>, ValueView)>> {
    Seq::new(dml.data@.len(), |i: int| new_record(fields, row_view(dml.data@[i]@)))
}

/// The rows of a change before it, as records of the fields that the
/// change touched: one for each row after the change.
pub open spec fn old_of(dml: &DmlData, fields: Seq<FieldMeta>) -> Seq<Seq<(Seq<char>, ValueView)>> {
    Seq::new(
        dml.data@.len(),
        |i: int| old_record(fields, row_view(dml.data@[i]@), old_row_of(dml, i)),
    )
}

/// Whether `m` is the record of the change `dml` to a table with the
/// given fields, made at time `ts`: it has the number, the names, the kind
/// and the time of the change; the names of the primary-key fields, or
/// none where there is no such field; the type of each field; for each
/// row after the change a record of all fields; and, where the change
/// carries rows from before and rows after, for each row a record of the
/// fields that the change touched.
pub open spec fn is_message_of(m: DmlMessage, dml: DmlData, fields: Seq<FieldMeta>, ts: u128)
    -> bool {
    &&& m.id == dml.id
    &&& m.database == dml.database
    &&& m.table == dml.table
    &&& m.dml_type == dml.dml_type
    &&& m.es == dml.es
    &&& m.ts == ts
    &&& !m.isDdl
    &&& m.sql is None
    &&& match m.pkNames {
        Some(names) => names_view(names@) == pk_names(fields, fields.len() as int) && names@.len()
            > 0,
        None => pk_names(fields, fields.len() as int).len() == 0,
    }
    &&& sql_types_view(m.sqlType@) == sql_types_of(fields)
    &&& mysql_types_view(m.mysqlType@) == mysql_types_of(fields)
    &&& records_view(m.data@) == data_of(&dml, fields)
    &&& match m.old {
        Some(recs) => dml.old_data@.len() > 0 && dml.data@.len() > 0 && records_view(recs@)
            == old_of(&dml, fields),
        None => dml.old_data@.len() == 0 || dml.data@.len() == 0,
    }
}

/// Tests whether the rows fit the fields: see [`rows_fit`].
pub fn check_rows_fit(dml: &DmlData, fields: &Vec<FieldMeta>) -> (ok: bool)
    ensures
        ok == rows_fit(dml, fields@),
{
    let mut i: usize = 0;
    while i < dml.data.len()
        invariant
            i <= dml.data@.len(),
            forall|j: int| 0 <= j < i ==> #[trigger] dml.data@[j]@.len() == fields@.len(),
        decreases dml.data@.len() - i,
    {
        if dml.data[i].len() != fields.len() {
            return false;
        }
        i = i + 1;
    }
    let mut i: usize = 0;
    while i < dml.old_data.len()
        invariant
            i <= dml.old_data@.len(),
            forall|j: int| 0 <= j < dml.data@.len() ==> #[trigger] dml.data@[j]@.len() == fields@.len(),
            forall|j: int| 0 <= j < i ==> #[trigger] dml.old_data@[j]@.len() == fields@.len(),
        decreases dml.old_data@.len() - i,
    {
        if dml.old_data[i].len() != fields.len() {
            return false;
        }
        i = i + 1;
    }
    true
}

impl DmlMessage {
    /// The record of a change to a table with the given fields, made at
    /// time `ts`. Every row must have a value for each field. Each row
    /// after the change gives a record of all fields; where the change
    /// carries rows from before, each row gives a record of the fields
    /// whose value differs, with the value from before.
    pub fn from_dml(dml: DmlData, fields: &Vec<FieldMeta>, ts: u128) -> (m: DmlMessage)
        requires
            rows_cover(&dml, fields@),
        ensures
            is_message_of(m, dml, fields@, ts),
    {
        let names = build_pk_names(fields);
        let (codes, types) = build_types(fields);
        let mut data: Vec<Vec<(String, Value)>> = Vec::new();
        let mut old: Vec<Vec<(String, Value)>> = Vec::new();
        let mut i: usize = 0;
        while i < dml.data.len()
            invariant
                i <= dml.data@.len(),
                rows_cover(&dml, fields@),
                data@.len() == i,
                old@.len() == i,
                forall|j: int|
                    0 <= j < i ==> record_view(#[trigger] data@[j]@) == new_record(
                        fields@,
                        row_view(dml.data@[j]@),
                    ),
                forall|j: int|
                    0 <= j < i ==> record_view(#[trigger] old@[j]@) == old_record(
                        fields@,
                        row_view(dml.data@[j]@),
                        old_row_of(&dml, j),
                    ),
            decreases dml.data@.len() - i,
        {
            let new_row = &dml.data[i];
            assert(dml.data@[i as int]@.len() >= fields@.len());
            data.push(build_new(fields, new_row));
            if i < dml.old_data.len() {
                assert(dml.old_data@[i as int]@.len() >= fields@.len());
                old.push(build_old(fields, new_row, &dml.old_data[i]));
            } else {
                let none: Vec<(String, Value)> = Vec::new();
                assert(record_view(none@) =~= Seq::<(Seq<char>, ValueView)>::empty());
                old.push(none);
            }
            i = i + 1;
        }
        proof {
            assert(records_view(data@) =~= data_of(&dml, fields@));
            assert(records_view(old@) =~= old_of(&dml, fields@));
            assert(names_view(names@).len() == names@.len());
        }
        let has_old = dml.old_data.len() > 0 && dml.data.len() > 0;
        DmlMessage {
            id: dml.id,
            database: dml.database,
            table: dml.table,
            pkNames: if names.len() > 0 {
                Some(names)
            } else {
                None
            },
            isDdl: false,
            dml_type: dml.dml_type,
            es: dml.es,
            ts,
            sql: None,
            sqlType: codes,
            mysqlType: types,
            data,
            old: if has_old {
                Some(old)
            } else {
                None
            },
        }
    }
}

fn mysql_types_string(types: &Vec<(String, String)>) -> (s: String)
    ensures
        s@ == mysql_types_text(mysql_types_view(types@)),
{
    let ghost view = mysql_types_view(types@);
    let mut items: Vec<String> = Vec::new();
    let mut k: usize = 0;
    while k < types.len()
        invariant
            k <= types@.len(),
            view == mysql_types_view(types@),
            items@.len() == k,
            forall|j: int|
                0 <= j < k ==> (#[trigger] items@[j])@ == json_string_text(view[j].0) + seq![':']
                    + json_string_text(view[j].1),
        decreases types@.len() - k,
    {
        let key = json_quote(types[k].0.as_str());
        let value = json_quote(types[k].1.as_str());
        items.push(member_text(key.as_str(), value.as_str()));
        k = k + 1;
    }
    assert(names_view(items@) =~= Seq::new(
        view.len(),
        |k: int| json_string_text(view[k].0) + seq![':'] + json_string_text(view[k].1),
    ));
    object_text(&items)
}

fn sql_types_string(types: &Vec<(String, i16)>) -> (s: String)
    ensures
        s@ == sql_types_text(sql_types_view(types@)),
{
    let ghost view = sql_types_view(types@);
    let mut items: Vec<String> = Vec::new();
    let mut k: usize = 0;
    while k < types.len()
        invariant
            k <= types@.len(),
            view == sql_types_view(types@),
            items@.len() == k,
            forall|j: int|
                0 <= j < k ==> (#[trigger] items@[j])@ == json_string_text(view[j].0) + seq![':']
                    + int_text(view[j].1 as int),
        decreases types@.len() - k,
    {
        let key = json_quote(types[k].0.as_str());
        let mut value = String::new();
        push_int(&mut value, types[k].1 as i64);
        assert(value@ =~= int_text(types@[k as int].1 as int));
        items.push(member_text(key.as_str(), value.as_str()));
        k = k + 1;
    }
    assert(names_view(items@) =~= Seq::new(
        view.len(),
        |k: int| json_string_text(view[k].0) + seq![':'] + int_text(view[k].1 as int),
    ));
    object_text(&items)
}

fn names_string(names: &Vec<String>) -> (s: String)
    ensures
        s@ == names_text(names_view(names@)),
{
    let ghost view = names_view(names@);
    let mut items: Vec<String> = Vec::new();
    let mut k: usize = 0;
    while k < names.len()
        invariant
            k <= names@.len(),
            view == names_view(names@),
            items@.len() == k,
            forall|j: int| 0 <= j < k ==> (#[trigger] items@[j])@ == json_string_text(view[j]),
        decreases names@.len() - k,
    {
        items.push(json_quote(names[k].as_str()));
        k = k + 1;
    }
    assert(names_view(items@) =~= Seq::new(view.len(), |k: int| json_string_text(view[k])));
    array_text(&items)
}

impl DmlMessage {
    fn push_head(&self, out: &mut String)
        ensures
            final(out)@ == old(out)@ + self.head_text(),
    {
        out.append("{\"data\":");
        let data = records_string(&self.data);
        out.append(data.as_str());
        out.append(",\"database\":");
        let database = json_quote(self.database.as_str());
        out.append(database.as_str());
        out.append(",\"es\":");
        push_decimal(out, self.es);
        out.append(",\"id\":");
        push_decimal(out, self.id);
        if self.isDdl {
            out.append(",\"isDdl\": true,");
        } else {
            out.append(",\"isDdl\": false,");
        }
        out.append("\"mysqlType\":");
        let types = mysql_types_string(&self.mysqlType);
        out.append(types.as_str());
        out.append(",");
        assert(out@ =~= old(out)@ + self.head_text());
    }

    fn push_old(&self, out: &mut String)
        ensures
            final(out)@ == old(out)@ + self.old_text(),
    {
        match &self.old {
            Some(recs) => {
                if recs.len() > 0 {
                    out.append("\"old\":");
                    let old = records_string(recs);
                    out.append(old.as_str());
                    out.append(",");
                }
            },
            None => {},
        }
        assert(out@ =~= old(out)@ + self.old_text());
    }

    fn push_pk(&self, out: &mut String)
        ensures
            final(out)@ == old(out)@ + self.pk_text(),
    {
        match &self.pkNames {
            Some(names) => {
                out.append("\"pkNames\":");
                let names = names_string(names);
                out.append(names.as_str());
                out.append(",");
            },
            None => {
                out.append("\"pkNames\":null,");
            },
        }
        assert(out@ =~= old(out)@ + self.pk_text());
    }

    fn push_tail(&self, out: &mut String)
        ensures
            final(out)@ == old(out)@ + self.tail_text(),
    {
        out.append("\"sql\":");
        let sql = match &self.sql {
            Some(sql) => json_quote(sql.as_str()),
            None => {
                let none = String::new();
                json_quote(none.as_str())
            },
        };
        out.append(sql.as_str());
        out.append(",\"sqlType\":");
        let codes = sql_types_string(&self.sqlType);
        out.append(codes.as_str());
        out.append(",\"table\":");
        let table = json_quote(self.table.as_str());
        out.append(table.as_str());
        out.append(",\"ts\":");
        push_decimal_wide(out, self.ts);
        out.append(",\"type\":");
        let kind = json_quote(self.dml_type.as_str());
        out.append(kind.as_str());
        out.append("}");
        assert(out@ =~= old(out)@ + self.tail_text());
    }

    /// The JSON text of the record: see [`DmlMessage::json_text`].
    pub fn format_json(&self) -> (json: String)
        ensures
            json@ == self.json_text(),
    {
        let mut out = String::new();
        self.push_head(&mut out);
        self.push_old(&mut out);
        self.push_pk(&mut out);
        self.push_tail(&mut out);
        assert(out@ =~= self.json_text());
        out
    }
}

/// In the record of a row after a change every field stands at its place,
/// by its name; and the record of the row before holds a field exactly
/// where its value before differs from its value after, each such field
/// once, in the order of the fields, with the value from before.
pub proof fn lemma_update_records(
    fields: Seq<FieldMeta>,
    new_row: Seq<ValueView>,
    old_row: Seq<ValueView>,
    upto: int,
) -> (places: Seq<int>)
    requires
        0 <= upto <= fields.len(),
    ensures
        new_record(fields, new_row).len() == fields.len(),
        forall|k: int|
            0 <= k < fields.len() ==> (#[trigger] new_record(fields, new_row)[k]).0
                == fields[k].name@,
        places.len() == changed(fields, new_row, old_row, upto).len(),
        forall|j: int|
            0 <= j < places.len() ==> 0 <= #[trigger] places[j] < upto && old_row[places[j]]
                != new_row[places[j]] && changed(fields, new_row, old_row, upto)[j] == (
                fields[places[j]].name@,
                coerced(fields[places[j]].sql_type(), old_row[places[j]]),
            ),
        forall|i: int, j: int| 0 <= i < j < places.len() ==> places[i] < places[j],
        forall|k: int|
            0 <= k < upto && old_row[k] != new_row[k] ==> #[trigger] places.contains(k),
    decreases upto,
{
    if upto == 0 {
        Seq::<int>::empty()
    } else {
        let before = lemma_update_records(fields, new_row, old_row, upto - 1);
        let k = upto - 1;
        if old_row[k] != new_row[k] {
            let places = before.push(k);
            assert forall|q: int| 0 <= q < upto && old_row[q] != new_row[q] implies #[trigger]
                places.contains(q) by {
                if q < k {
                    assert(before.contains(q));
                    let j = choose|j: int| 0 <= j < before.len() && before[j] == q;
                    assert(places[j] == q);
                } else {
                    assert(places[places.len() - 1] == q);
                }
            }
            places
        } else {
            before
        }
    }
}

/// The number of the worker that handles the event with sequence index
/// `seq` when there are `workers` of them.
pub open spec fn worker_key(seq: u64, workers: nat) -> nat {
    ((seq + 1) % (workers as int)) as nat
}

/// Every event has one worker among those there are, and the events that
/// follow one another go to the workers in turn.
pub proof fn lemma_worker_key(seq: u64, workers: nat)
    requires
        workers > 0,
    ensures
        worker_key(seq, workers) < workers,
        seq < u64::MAX ==> worker_key((seq + 1) as u64, workers) == (worker_key(seq, workers) + 1)
            % workers,
{
    assert(((seq + 1) % (workers as int) + 1) % (workers as int) == (seq + 2) % (workers as int))
        by (nonlinear_arith)
        requires
            workers > 0,
    ;
}

/// The channels to the workers, by the number of the worker.
#[derive(Debug)]
pub struct Pool<T> {
    pub tx_channel: HashMap<u32, T>,
}

impl<T> Pool<T> {
    /// Sets the channel to worker `key`.
    pub fn regist_tx(&mut self, key: u32, tx: T)
        ensures
            final(self).tx_channel@ == old(self).tx_channel@.insert(key, tx),
    {
        self.tx_channel.insert(key, tx);
    }

    /// The channel on which the events are to be sent: that of the worker
    /// whose number is the sequence index plus one, modulo the number of
    /// channels; `None` where no channel has that number.
    pub fn push(&self, data: &RowEvents) -> (r: Option<&T>)
        requires
            self.tx_channel@.len() > 0,
        ensures
            match r {
                Some(tx) => worker_key(data.seq_idx, self.tx_channel@.len()) <= u32::MAX
                    && self.tx_channel@.contains_key(
                    worker_key(data.seq_idx, self.tx_channel@.len()) as u32,
                ) && *tx == self.tx_channel@[worker_key(
                    data.seq_idx,
                    self.tx_channel@.len(),
                ) as u32],
                None => worker_key(data.seq_idx, self.tx_channel@.len()) > u32::MAX
                    || !self.tx_channel@.contains_key(
                    worker_key(data.seq_idx, self.tx_channel@.len()) as u32,
                ),
            },
    {
        let n = self.tx_channel.len() as u64;
        let key = ((data.seq_idx % n) + 1) % n;
        assert(key == worker_key(data.seq_idx, self.tx_channel@.len())) by (nonlinear_arith)
            requires
                n > 0,
                n == self.tx_channel@.len(),
                key == ((data.seq_idx % n) + 1) % (n as int),
        ;
        if key > 0xffff_ffff {
            return None;
        }
        let key = key as u32;
        self.tx_channel.get(&key)
    }
}

/// The workers, as the reader of the binary log sees them.
pub struct Workers<T> {
    pub pool: Pool<T>,
}

impl<T> Workers<T> {
    /// No worker yet.
    pub fn new() -> (w: Workers<T>)
        ensures
            w.pool.tx_channel@.len() == 0,
            w.pool.tx_channel@ == Map::<u32, T>::empty(),
    {
        Workers { pool: Pool { tx_channel: HashMap::new() } }
    }

    /// Sets the channel to worker `key`.
    pub fn regist_tx(&mut self, key: u32, tx: T)
        ensures
            final(self).pool.tx_channel@ == old(self).pool.tx_channel@.insert(key, tx),
    {
        self.pool.regist_tx(key, tx);
    }

    /// The channel on which the events are to be sent: see [`Pool::push`].
    pub fn push(&self, data: &RowEvents) -> (r: Option<&T>)
        requires
            self.pool.tx_channel@.len() > 0,
        ensures
            match r {
                Some(tx) => worker_key(data.seq_idx, self.pool.tx_channel@.len()) <= u32::MAX
                    && self.pool.tx_channel@.contains_key(
                    worker_key(data.seq_idx, self.pool.tx_channel@.len()) as u32,
                ) && *tx == self.pool.tx_channel@[worker_key(
                    data.seq_idx,
                    self.pool.tx_channel@.len(),
                ) as u32],
                None => worker_key(data.seq_idx, self.pool.tx_channel@.len()) > u32::MAX
                    || !self.pool.tx_channel@.contains_key(
                    worker_key(data.seq_idx, self.pool.tx_channel@.len()) as u32,
                ),
            },
    {
        self.pool.push(data)
    }
}

/// The fields of the tables that were described, by table id.
pub struct TableMetaMapping {
    pub mapping: HashMap<u32, Vec<FieldMeta>>,
}

/// Fields as mathematical values: name, declared type, and whether the
/// field belongs to the primary key.
pub open spec fn fields_view(fields: Seq<FieldMeta>) -> Seq<(Seq<char>, Seq<char>, bool)> {
    Seq::new(fields.len(), |k: int| (fields[k].name@, fields[k].field_type@, fields[k].is_pk))
}

/// A copy of the fields.
pub fn copy_fields(fields: &Vec<FieldMeta>) -> (copy: Vec<FieldMeta>)
    ensures
        fields_view(copy@) == fields_view(fields@),
{
    let mut copy: Vec<FieldMeta> = Vec::new();
    let mut k: usize = 0;
    while k < fields.len()
        invariant
            k <= fields@.len(),
            copy@.len() == k,
            forall|j: int|
                0 <= j < k ==> copy@[j].name@ == fields@[j].name@ && copy@[j].field_type@
                    == fields@[j].field_type@ && copy@[j].is_pk == fields@[j].is_pk,
        decreases fields@.len() - k,
    {
        copy.push(fields[k].duplicate());
        k = k + 1;
    }
    assert(fields_view(copy@) =~= fields_view(fields@));
    copy
}

impl TableMetaMapping {
    /// No table described yet.
    pub fn new() -> (m: TableMetaMapping)
        ensures
            m.mapping@ == Map::<u32, Vec<FieldMeta>>::empty(),
    {
        TableMetaMapping { mapping: HashMap::new() }
    }

    /// The fields of table `tid`, where they were stored.
    pub fn lookup(&self, tid: u32) -> (r: Option<Vec<FieldMeta>>)
        ensures
            match r {
                Some(fields) => self.mapping@.contains_key(tid) && fields_view(fields@)
                    == fields_view(self.mapping@[tid]@),
                None => !self.mapping@.contains_key(tid),
            },
    {
        match self.mapping.get(&tid) {
            Some(fields) => Some(copy_fields(fields)),
            None => None,
        }
    }

    /// Stores what describing table `tid` gave: its fields, or no field
    /// at all where the table could not be described. The fields are
    /// handed back.
    pub fn update_mapping(&mut self, tid: u32, described: Option<Vec<FieldMeta>>) -> (r: Vec<
        FieldMeta,
    >)
        ensures
            final(self).mapping@.contains_key(tid),
            final(self).mapping@.remove(tid) == old(self).mapping@.remove(tid),
            fields_view(final(self).mapping@[tid]@) == fields_view(r@),
            match described {
                Some(fields) => fields_view(r@) == fields_view(fields@),
                None => r@.len() == 0,
            },
    {
        let fields = match described {
            Some(fields) => fields,
            None => Vec::new(),
        };
        let copy = copy_fields(&fields);
        self.mapping.insert(tid, fields);
        assert(self.mapping@.remove(tid) =~= old(self).mapping@.remove(tid));
        copy
    }
}

} // verus!
