//! What a client decides in a session with the server: the steps of the
//! authentication, the reading of a result set packet by packet, and the
//! description of a table.

use vstd::prelude::*;
use vstd::slice::*;
use vstd::string::*;
use vstd::utf8::*;
use crate::buffer::{buf_new, buf_to_vec};
use crate::executor::FieldMeta;
use crate::mysql::{
    decode_package, encode_package, is_error_payload, le_bytes, lenenc_value,
    native_password_auth, native_password_token, nul_index, package_bytes, DecodeError, Decoder,
    Encoder, Header,
};
use crate::protocal::{
    greeting_base, greeting_name_start, zero_bytes, AuthSwitchReq, AuthSwitchResp, ColDef,
    ComBinLogDump, ComQuery, HandshakeResponse41, HandshakeV10, OkPacket, TextResult,
    TextResultSet, VLenInt, CLIENT_CAPABILITIES,
};
use crate::text::{
    bytes_eq, bytes_start_with, lossy_text, starts_with, string_from_utf8_lossy, text_of,
};

verus! {

/// The seconds between two pings that keep a connection alive.
pub const KEEPALIVE_SECS: u64 = 600;

/// The server id under which the agent asks for the binary log.
pub const SERVER_ID: u32 = 100;

/// The offset at which the events of a binary log begin.
pub const FIRST_EVENT_OFFSET: u32 = 4;

/// The statement that lets the server send the checksums of the events as
/// it writes them.
pub fn checksum_query() -> (q: ComQuery)
    ensures
        q.query@ == "set @master_binlog_checksum= @@global.binlog_checksum"@,
{
    ComQuery::new("set @master_binlog_checksum= @@global.binlog_checksum")
}

/// The statement that asks for the binary logs of the server and their
/// ends.
pub fn status_query() -> (q: ComQuery)
    ensures
        q.query@ == "show master status"@,
{
    ComQuery::new("show master status")
}

/// The command that starts the stream of the binary log at an offset of a
/// file, with no flag set.
pub fn binlog_dump(filename: String, pos: u32) -> (dump: ComBinLogDump)
    ensures
        dump.pos == pos,
        dump.flags == 0,
        dump.server_id == SERVER_ID,
        dump.filename == filename,
{
    ComBinLogDump { pos, flags: 0, server_id: SERVER_ID, filename }
}

/// The statement that describes a table: `desc`, the schema, a point, the
/// table.
pub fn desc_sql(db: &str, table: &str) -> (sql: String)
    ensures
        sql@ == "desc "@ + db@ + "."@ + table@,
{
    let mut sql = String::from_str("desc ");
    sql.append(db);
    sql.append(".");
    sql.append(table);
    sql
}

/// Whether the `Key` column of a description marks a primary key: it
/// begins with `PRI`.
pub fn check_pk(pk_field: &String) -> (b: bool)
    ensures
        b == starts_with(encode_utf8(pk_field@), encode_utf8("PRI"@)),
{
    bytes_start_with(pk_field.as_str().as_bytes(), "PRI".as_bytes())
}

/// Whether a row of a description gives a field: it has four columns at
/// least.
pub open spec fn describes(row: TextResult) -> bool {
    row.columns@.len() >= 4
}

/// Whether `field` is the field that a row of a description gives: the
/// name from the first column, the declared type from the second, and the
/// primary-key mark from the fourth.
pub open spec fn field_of_row(row: TextResult, field: FieldMeta) -> bool {
    &&& field.name@ == lossy_text(row.columns@[0]@)
    &&& field.field_type@ == lossy_text(row.columns@[1]@)
    &&& field.is_pk == starts_with(
        encode_utf8(lossy_text(row.columns@[3]@)),
        encode_utf8("PRI"@),
    )
}

/// The fields that the rows of a description give, one for each row, or
/// `None` where a row has fewer than four columns.
pub fn desc_fields(rows: &Vec<TextResult>) -> (r: Option<Vec<FieldMeta>>)
    ensures
        match r {
            Some(fields) => fields@.len() == rows@.len() && forall|k: int|
                0 <= k < rows@.len() ==> describes(#[trigger] rows@[k]) && field_of_row(
                    rows@[k],
                    fields@[k],
                ),
            None => exists|k: int| 0 <= k < rows@.len() && !describes(#[trigger] rows@[k]),
        },
{
    let mut fields: Vec<FieldMeta> = Vec::new();
    let mut k: usize = 0;
    while k < rows.len()
        invariant
            k <= rows@.len(),
            fields@.len() == k,
            forall|j: int|
                0 <= j < k ==> describes(#[trigger] rows@[j]) && field_of_row(
                    rows@[j],
                    fields@[j],
                ),
        decreases rows@.len() - k,
    {
        let row = &rows[k];
        if row.columns.len() < 4 {
            assert(!describes(rows@[k as int]));
            return None;
        }
        let name = string_from_utf8_lossy(row.columns[0].as_slice());
        let field_type = string_from_utf8_lossy(row.columns[1].as_slice());
        let pk = string_from_utf8_lossy(row.columns[3].as_slice());
        let is_pk = check_pk(&pk);
        fields.push(FieldMeta { name, field_type, is_pk });
        k = k + 1;
    }
    Some(fields)
}

/// How far the reading of a result set has come.
#[derive(Debug, Clone, Copy, PartialEq, Eq, Structural)]
pub enum ReadPhase {
    /// The packet with the number of columns is awaited.
    Count,
    /// The definitions of the columns are awaited.
    Columns,
    /// Rows are awaited, or the packet that ends them.
    Rows,
    /// The result set is complete.
    Done,
}

/// A result set in the making, fed packet by packet.
pub struct TextResultReader {
    pub phase: ReadPhase,
    /// The definitions of columns that are still to come.
    pub remaining: u64,
    pub result: TextResultSet,
}

/// Whether a packet ends the rows of a result set: it begins with `0xFE`
/// and is shorter than 9 bytes.
pub open spec fn ends_rows(body: Seq<u8>) -> bool {
    body.len() > 0 && body[0] == 0xfe && body.len() < 9
}

impl TextResultReader {
    /// A reader that awaits the first packet.
    pub fn new() -> (r: TextResultReader)
        ensures
            r.phase == ReadPhase::Count,
            r.remaining == 0,
            r.result.column_count.0 == 0,
            r.result.col_defs@.len() == 0,
            r.result.rows@.len() == 0,
    {
        TextResultReader {
            phase: ReadPhase::Count,
            remaining: 0,
            result: TextResultSet {
                column_count: VLenInt(0),
                col_defs: Vec::new(),
                rows: Vec::new(),
            },
        }
    }

    /// Why the payload of a packet cannot be taken in the present phase,
    /// or `None` where it can: an error report of the server is refused
    /// with `Fail`, and so is a packet that cannot be read as the number of
    /// columns or as the definition of a column; a packet that ends the
    /// rows or holds a row is refused with the error of its decoder; and a
    /// complete result set takes no packet (`Not`).
    pub open spec fn refusal(&self, body: Seq<u8>) -> Option<DecodeError> {
        match self.phase {
            ReadPhase::Count => if is_error_payload(body) || VLenInt::frame(body) is Err {
                Some(DecodeError::Fail)
            } else {
                None
            },
            ReadPhase::Columns => if is_error_payload(body) || ColDef::frame(body) is Err {
                Some(DecodeError::Fail)
            } else {
                None
            },
            ReadPhase::Rows => if is_error_payload(body) {
                Some(DecodeError::Fail)
            } else if ends_rows(body) {
                match OkPacket::frame(body) {
                    Err(e) => Some(e),
                    Ok(_) => None,
                }
            } else {
                match TextResult::frame(body) {
                    Err(e) => Some(e),
                    Ok(_) => None,
                }
            },
            ReadPhase::Done => Some(DecodeError::Not),
        }
    }

    /// Whether `next` is the reader after the payload was taken: the
    /// number of columns is set first, and column definitions are awaited
    /// where it is not zero; each definition is added until all have come;
    /// then each row is added, until the packet that ends the rows makes
    /// the result set complete.
    pub open spec fn advanced(&self, body: Seq<u8>, next: TextResultReader) -> bool {
        match self.phase {
            ReadPhase::Count => {
                &&& next.result.column_count.0 == lenenc_value(body)
                &&& next.remaining == lenenc_value(body)
                &&& next.phase == if lenenc_value(body) > 0 {
                    ReadPhase::Columns
                } else {
                    ReadPhase::Rows
                }
                &&& next.result.col_defs == self.result.col_defs
                &&& next.result.rows == self.result.rows
            },
            ReadPhase::Columns => {
                &&& next.result.column_count == self.result.column_count
                &&& next.result.col_defs@.len() == self.result.col_defs@.len() + 1
                &&& next.result.col_defs@.drop_last() == self.result.col_defs@
                &&& next.result.col_defs@.last().holds(body)
                &&& next.remaining == if self.remaining > 0 {
                    (self.remaining - 1) as u64
                } else {
                    0
                }
                &&& next.phase == if self.remaining > 1 {
                    ReadPhase::Columns
                } else {
                    ReadPhase::Rows
                }
                &&& next.result.rows == self.result.rows
            },
            ReadPhase::Rows => {
                &&& next.result.column_count == self.result.column_count
                &&& next.result.col_defs == self.result.col_defs
                &&& next.remaining == self.remaining
                &&& if ends_rows(body) {
                    next.phase == ReadPhase::Done && next.result.rows == self.result.rows
                } else {
                    &&& next.phase == ReadPhase::Rows
                    &&& next.result.rows@.len() == self.result.rows@.len() + 1
                    &&& next.result.rows@.drop_last() == self.result.rows@
                    &&& next.result.rows@.last().holds(body)
                }
            },
            ReadPhase::Done => false,
        }
    }

    /// Takes the payload of the next packet, and says whether the result
    /// set is complete with it. A payload that is refused leaves the reader
    /// as it was.
    pub fn feed(&mut self, header: Header, body: &[u8]) -> (r: Result<bool, DecodeError>)
        ensures
            match r {
                Ok(done) => old(self).refusal(body@) is None && old(self).advanced(
                    body@,
                    *final(self),
                ) && done == (final(self).phase == ReadPhase::Done),
                Err(e) => old(self).refusal(body@) == Some(e) && *final(self) == *old(self),
            },
    {
        match self.phase {
            ReadPhase::Count => {
                let packet = match decode_package::<VLenInt>(header, body) {
                    Ok(p) => p,
                    Err(e) => { return Err(e); },
                };
                self.result.column_count = packet.payload;
                self.remaining = packet.payload.0;
                self.phase = if packet.payload.0 > 0 {
                    ReadPhase::Columns
                } else {
                    ReadPhase::Rows
                };
                Ok(false)
            },
            ReadPhase::Columns => {
                let packet = match decode_package::<ColDef>(header, body) {
                    Ok(p) => p,
                    Err(e) => { return Err(e); },
                };
                self.result.col_defs.push(packet.payload);
                if self.remaining > 0 {
                    self.remaining = self.remaining - 1;
                }
                if self.remaining == 0 {
                    self.phase = ReadPhase::Rows;
                }
                assert(self.result.col_defs@.drop_last() =~= old(self).result.col_defs@);
                Ok(false)
            },
            ReadPhase::Rows => {
                if body.len() > 0 && body[0] == 0xff {
                    return Err(DecodeError::Fail);
                }
                if body.len() > 0 && body[0] == 0xfe && body.len() < 9 {
                    match OkPacket::decode(body) {
                        Ok(_) => {
                            self.phase = ReadPhase::Done;
                            Ok(true)
                        },
                        Err(e) => Err(e),
                    }
                } else {
                    match TextResult::decode(body) {
                        Ok((_, row)) => {
                            self.result.rows.push(row);
                            assert(self.result.rows@.drop_last() =~= old(self).result.rows@);
                            Ok(false)
                        },
                        Err(e) => Err(e),
                    }
                }
            },
            ReadPhase::Done => Err(DecodeError::Not),
        }
    }

    /// The result set as far as it was read.
    pub fn into_result(self) -> (r: TextResultSet)
        ensures
            r == self.result,
    {
        self.result
    }
}

/// How far the opening of a session has come.
#[derive(Debug, Clone, Copy, PartialEq, Eq, Structural)]
pub enum ConnectPhase {
    /// The greeting of the server is awaited.
    Greeting,
    /// The request to switch the authentication method is awaited.
    Switch,
    /// The verdict of the server is awaited.
    Verdict,
    /// The session is open.
    Connected,
    /// The session could not be opened.
    Failed,
}

/// What the client does next while a session opens.
#[derive(Debug)]
pub enum ConnectAction {
    /// These bytes are to be sent.
    Send(Vec<u8>),
    /// The session is open.
    Connected,
    /// The session cannot be opened.
    Failed,
}

/// The opening of a session, fed with the packets of the server.
pub struct Connector {
    pub phase: ConnectPhase,
    pub user_name: String,
    pub passwd: String,
    pub max_packet_size: u32,
    /// The name of the authentication plugin that the first reply gives.
    pub plugin_name: Option<String>,
    /// The challenge of the server, once its greeting has come.
    pub auth_plugin_data: Vec<u8>,
}

/// The name of the one authentication method that the client follows.
pub open spec fn native_password() -> Seq<char> {
    "mysql_native_password"@
}

/// The bytes of a plugin name in the first reply: the name and a zero
/// byte, or the zero byte alone where no name is given.
pub open spec fn plugin_part(plugin_name: Option<String>) -> Seq<u8> {
    match plugin_name {
        Some(name) => encode_utf8(name@).push(0u8),
        None => seq![0u8],
    }
}

/// The payload of the first reply of the client: its capabilities, the
/// largest packet, character set 255, 23 zero bytes, the user name closed
/// by a zero byte, empty authentication data, the plugin name, and a zero
/// byte.
pub open spec fn first_reply(
    max_packet_size: u32,
    user_name: Seq<char>,
    plugin_name: Option<String>,
) -> Seq<u8> {
    le_bytes(CLIENT_CAPABILITIES as nat, 4) + le_bytes(max_packet_size as nat, 4) + seq![255u8]
        + zero_bytes(23) + encode_utf8(user_name).push(0u8) + seq![0u8] + plugin_part(plugin_name)
        + seq![0u8]
}

proof fn lemma_first_reply(resp: HandshakeResponse41)
    requires
        resp.caps.bits == CLIENT_CAPABILITIES,
        resp.charset == 255,
        resp.auth_resp@.len() == 0,
        resp.database is None,
        resp.connect_attrs@.len() == 0,
        resp.zstd_level == 0,
    ensures
        resp.encoding() == first_reply(resp.max_packet_size, resp.user_name@, resp.plugin_name),
{
    assert(0x128_c201u32 & 0x20_0000u32 == 0x20_0000u32) by (bit_vector);
    assert(0x128_c201u32 & 0x8u32 != 0x8u32) by (bit_vector);
    assert(0x128_c201u32 & 0x8_0000u32 == 0x8_0000u32) by (bit_vector);
    assert(0x128_c201u32 & 0x10_0000u32 != 0x10_0000u32) by (bit_vector);
    assert(resp.auth_bytes() =~= seq![0u8]);
    assert(resp.database_bytes() =~= Seq::<u8>::empty());
    assert(resp.plugin_bytes() =~= plugin_part(resp.plugin_name));
    assert(resp.attrs_part() =~= Seq::<u8>::empty());
    assert(resp.encoding() =~= first_reply(
        resp.max_packet_size,
        resp.user_name@,
        resp.plugin_name,
    ));
}

/// A copy of an optional name.
fn copy_name(name: &Option<String>) -> (copy: Option<String>)
    ensures
        copy == *name,
{
    match name {
        Some(n) => Some(n.clone()),
        None => None,
    }
}

impl Connector {
    /// The opening of a session for a user, before the greeting.
    pub fn new(user_name: String, passwd: String, max_packet_size: u32, plugin_name: Option<String>)
        -> (c: Connector)
        ensures
            c.phase == ConnectPhase::Greeting,
            c.user_name == user_name,
            c.passwd == passwd,
            c.max_packet_size == max_packet_size,
            c.plugin_name == plugin_name,
            c.auth_plugin_data@.len() == 0,
    {
        Connector {
            phase: ConnectPhase::Greeting,
            user_name,
            passwd,
            max_packet_size,
            plugin_name,
            auth_plugin_data: Vec::new(),
        }
    }

    /// Whether the payload of a packet lets the opening go on: in each
    /// phase the packet must be no error report and be the one awaited;
    /// the request to switch must name the native-password method, and the
    /// challenge must have 20 bytes at least.
    pub open spec fn accepts(&self, body: Seq<u8>) -> bool {
        match self.phase {
            ConnectPhase::Greeting => !is_error_payload(body) && HandshakeV10::frame(body) is Ok,
            ConnectPhase::Switch => !is_error_payload(body) && AuthSwitchReq::frame(body) is Ok
                && text_of(body.subrange(1, 1 + nul_index(body.skip(1)) as int))
                == native_password() && self.auth_plugin_data@.len() >= 20,
            ConnectPhase::Verdict => !is_error_payload(body) && OkPacket::frame(body) is Ok,
            _ => false,
        }
    }

    /// The challenge in a greeting: the eight bytes of its first part, and
    /// its second part.
    pub open spec fn challenge_of(body: Seq<u8>) -> Seq<u8> {
        let base = greeting_base(body);
        body.subrange(base + 4, base + 12) + body.subrange(
            base + 31,
            greeting_name_start(body),
        )
    }

    /// Takes the payload of the next packet of the server and says what to
    /// do. The greeting is answered with the first reply, as packet 1; the
    /// request to switch the method with the token of the native-password
    /// method, as packet 3; the verdict of the server opens the session. A
    /// packet that is not accepted fails the opening for good.
    pub fn on_packet(&mut self, header: Header, body: &[u8]) -> (action: ConnectAction)
        ensures
            final(self).user_name == old(self).user_name,
            final(self).passwd == old(self).passwd,
            final(self).max_packet_size == old(self).max_packet_size,
            final(self).plugin_name == old(self).plugin_name,
            !old(self).accepts(body@) ==> action is Failed && final(self).phase
                == ConnectPhase::Failed && final(self).auth_plugin_data
                == old(self).auth_plugin_data,
            old(self).accepts(body@) ==> match old(self).phase {
                ConnectPhase::Greeting => {
                    &&& final(self).phase == ConnectPhase::Switch
                    &&& final(self).auth_plugin_data@ == Self::challenge_of(body@)
                    &&& action is Send
                    &&& action->0@ == package_bytes(
                        1,
                        first_reply(
                            old(self).max_packet_size,
                            old(self).user_name@,
                            old(self).plugin_name,
                        ),
                    )
                },
                ConnectPhase::Switch => {
                    &&& final(self).phase == ConnectPhase::Verdict
                    &&& final(self).auth_plugin_data == old(self).auth_plugin_data
                    &&& action is Send
                    &&& action->0@ == package_bytes(
                        3,
                        native_password_token(
                            encode_utf8(old(self).passwd@),
                            old(self).auth_plugin_data@,
                        ),
                    )
                },
                _ => {
                    &&& final(self).phase == ConnectPhase::Connected
                    &&& final(self).auth_plugin_data == old(self).auth_plugin_data
                    &&& action is Connected
                },
            },
    {
        match self.phase {
            ConnectPhase::Greeting => {
                let packet = match decode_package::<HandshakeV10>(header, body) {
                    Ok(p) => p,
                    Err(_) => {
                        self.phase = ConnectPhase::Failed;
                        return ConnectAction::Failed;
                    },
                };
                self.auth_plugin_data = packet.payload.auth_plugin_data;
                let resp = HandshakeResponse41::new(
                    self.max_packet_size,
                    self.user_name.clone(),
                    copy_name(&self.plugin_name),
                );
                proof {
                    lemma_first_reply(resp);
                }
                let mut buf = buf_new();
                encode_package::<HandshakeResponse41>(&mut buf, 1, &resp);
                self.phase = ConnectPhase::Switch;
                let bytes = buf_to_vec(&buf);
                assert(bytes@ =~= package_bytes(
                    1,
                    first_reply(self.max_packet_size, self.user_name@, self.plugin_name),
                ));
                ConnectAction::Send(bytes)
            },
            ConnectPhase::Switch => {
                let packet = match decode_package::<AuthSwitchReq>(header, body) {
                    Ok(p) => p,
                    Err(_) => {
                        self.phase = ConnectPhase::Failed;
                        return ConnectAction::Failed;
                    },
                };
                if !(packet.payload.plugin_name.as_str().as_bytes().len()
                    == "mysql_native_password".as_bytes().len() && bytes_eq(
                    packet.payload.plugin_name.as_str().as_bytes(),
                    "mysql_native_password".as_bytes(),
                )) || self.auth_plugin_data.len() < 20 {
                    proof {
                        lemma_same_text(packet.payload.plugin_name@, native_password());
                    }
                    self.phase = ConnectPhase::Failed;
                    return ConnectAction::Failed;
                }
                proof {
                    lemma_same_text(packet.payload.plugin_name@, native_password());
                }
                let token = native_password_auth(
                    self.passwd.as_str().as_bytes(),
                    self.auth_plugin_data.as_slice(),
                );
                let resp = AuthSwitchResp { data: slice_to_vec(token.as_slice()) };
                let mut buf = buf_new();
                encode_package::<AuthSwitchResp>(&mut buf, 3, &resp);
                self.phase = ConnectPhase::Verdict;
                let bytes = buf_to_vec(&buf);
                assert(bytes@ =~= package_bytes(
                    3,
                    native_password_token(encode_utf8(self.passwd@), self.auth_plugin_data@),
                ));
                ConnectAction::Send(bytes)
            },
            ConnectPhase::Verdict => {
                match decode_package::<OkPacket>(header, body) {
                    Ok(_) => {
                        self.phase = ConnectPhase::Connected;
                        ConnectAction::Connected
                    },
                    Err(_) => {
                        self.phase = ConnectPhase::Failed;
                        ConnectAction::Failed
                    },
                }
            },
            _ => {
                self.phase = ConnectPhase::Failed;
                ConnectAction::Failed
            },
        }
    }
}

/// Two texts are the same exactly when their bytes are.
proof fn lemma_same_text(a: Seq<char>, b: Seq<char>)
    ensures
        (encode_utf8(a) == encode_utf8(b)) <==> a == b,
{
    encode_utf8_decode_utf8(a);
    encode_utf8_decode_utf8(b);
}

} // verus!
