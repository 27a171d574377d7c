//! The packets of the client/server protocol: the handshake, the
//! authentication exchange, commands and their answers.

use vstd::prelude::*;
use vstd::slice::*;
use vstd::string::*;
use vstd::utf8::*;
use bytes::BytesMut;
use crate::buffer::{buf_bytes, buf_extend, buf_new, buf_put_u8};
use crate::mysql::{
    find_nul, le_at, le_bytes, le_value, lemma_le_value_bound, lemma_pow256_values,
    lenenc_bytes, lenenc_size, lenenc_value, nul_index, put_le, put_lenenc, rest_from,
    take_lenenc, take_var_bytes, take_var_string, var_bytes_body, var_bytes_end,
    write_null_term_str, write_var_bytes, write_var_str, DecodeError, Decoder, Encoder,
};
use crate::text::{string_from_utf8, string_of_bytes, text_of};

verus! {

/// A length-encoded integer.
#[derive(Default, Debug, Clone, Copy)]
pub struct VLenInt(pub u64);

impl VLenInt {
    /// The integer `val`.
    pub fn new(val: u64) -> (v: VLenInt)
        ensures
            v.0 == val,
    {
        VLenInt(val)
    }

    /// The number that the integer holds.
    pub fn value(&self) -> (val: u64)
        ensures
            val == self.0,
    {
        self.0
    }

    /// The bytes that write the integer, in a buffer of their own.
    pub fn bytes(&self) -> (data: BytesMut)
        ensures
            buf_bytes(data) == lenenc_bytes(self.0 as nat),
    {
        let mut data = buf_new();
        self.encode(&mut data);
        assert(buf_bytes(data) =~= lenenc_bytes(self.0 as nat));
        data
    }
}

impl Decoder for VLenInt {
    open spec fn frame(input: Seq<u8>) -> Result<nat, DecodeError> {
        lenenc_size(input)
    }

    open spec fn holds(&self, input: Seq<u8>) -> bool {
        self.0 == lenenc_value(input)
    }

    fn decode(input: &[u8]) -> (r: Result<(&[u8], Self), DecodeError>) {
        match take_lenenc(input) {
            Ok((rest, v)) => Ok((rest, VLenInt(v))),
            Err(e) => Err(e),
        }
    }
}

impl Encoder for VLenInt {
    open spec fn encoding(&self) -> Seq<u8> {
        lenenc_bytes(self.0 as nat)
    }

    fn encode(&self, buffer: &mut BytesMut) {
        put_lenenc(buffer, self.0);
    }
}

/// The capabilities that client and server announce, one bit each.
#[derive(Debug, Clone, Copy, PartialEq, Eq, Structural)]
pub struct Capabilities {
    pub bits: u32,
}

/// The improved version of the old password authentication is used.
pub const CLIENT_LONG_PASSWORD: u32 = 0x1;

/// Found rows are sent in place of affected rows.
pub const CLIENT_FOUND_ROWS: u32 = 0x2;

/// All column flags are wanted.
pub const CLIENT_LONG_FLAG: u32 = 0x4;

/// A database can be named in the reply to the greeting.
pub const CLIENT_CONNECT_WITH_DB: u32 = 0x8;

/// The form `database.table.column` is not allowed.
pub const CLIENT_NO_SCHEMA: u32 = 0x10;

/// The compressed protocol is supported.
pub const CLIENT_COMPRESS: u32 = 0x20;

/// The behaviour of ODBC is to be followed.
pub const CLIENT_ODBC: u32 = 0x40;

/// `LOAD DATA LOCAL` can be used.
pub const CLIENT_LOCAL_FILES: u32 = 0x80;

/// Spaces before an opening parenthesis are passed over.
pub const CLIENT_IGNORE_SPACE: u32 = 0x100;

/// The protocol of version 4.1 is spoken.
pub const CLIENT_PROTOCOL_41: u32 = 0x200;

/// The client is interactive.
pub const CLIENT_INTERACTIVE: u32 = 0x400;

/// The session is to be encrypted.
pub const CLIENT_SSL: u32 = 0x800;

/// A flag of the client alone.
pub const CLIENT_IGNORE_SIGPIPE: u32 = 0x1000;

/// The client knows about transactions.
pub const CLIENT_TRANSACTIONS: u32 = 0x2000;

/// An old flag of the protocol of version 4.1.
pub const CLIENT_RESERVED: u32 = 0x4000;

/// An old flag of the authentication of version 4.1.
pub const CLIENT_RESERVED2: u32 = 0x8000;

/// Several statements may come in one command.
pub const CLIENT_MULTI_STATEMENTS: u32 = 0x1_0000;

/// Several result sets may come for one command.
pub const CLIENT_MULTI_RESULTS: u32 = 0x2_0000;

/// Several result sets may come for a prepared statement.
pub const CLIENT_PS_MULTI_RESULTS: u32 = 0x4_0000;

/// Authentication plugins are supported.
pub const CLIENT_PLUGIN_AUTH: u32 = 0x8_0000;

/// Connection attributes are supported.
pub const CLIENT_CONNECT_ATTRS: u32 = 0x10_0000;

/// The authentication data may be longer than 255 bytes.
pub const CLIENT_PLUGIN_AUTH_LENENC_CLIENT_DATA: u32 = 0x20_0000;

/// The session stays open for an account whose password has expired.
pub const CLIENT_CAN_HANDLE_EXPIRED_PASSWORDS: u32 = 0x40_0000;

/// Changes of the state of the session can be taken.
pub const CLIENT_SESSION_TRACK: u32 = 0x80_0000;

/// An OK packet takes the place of the EOF packet.
pub const CLIENT_DEPRECATE_EOF: u32 = 0x100_0000;

/// The metadata of a result set may be left out.
pub const CLIENT_OPTIONAL_RESULTSET_METADATA: u32 = 0x200_0000;

/// The compressed protocol can use zstd.
pub const CLIENT_ZSTD_COMPRESSION_ALGORITHM: u32 = 0x400_0000;

/// Commands may carry query attributes.
pub const CLIENT_QUERY_ATTRIBUTES: u32 = 0x800_0000;

/// Authentication by several factors is supported.
pub const MULTI_FACTOR_AUTHENTICATION: u32 = 0x1000_0000;

/// Kept for capabilities beyond 32 bits.
pub const CLIENT_CAPABILITY_EXTENSION: u32 = 0x2000_0000;

/// The certificate of the server is to be verified.
pub const CLIENT_SSL_VERIFY_SERVER_CERT: u32 = 0x4000_0000;

/// The options are kept after a connection that failed.
pub const CLIENT_REMEMBER_OPTIONS: u32 = 0x8000_0000;

/// The capabilities that this client announces.
pub const CLIENT_CAPABILITIES: u32 = 0x128_c201;

impl Capabilities {
    /// The capabilities with the given bits: every bit names one.
    pub fn from_bits(bits: u32) -> (r: Option<Capabilities>)
        ensures
            r == Some(Capabilities { bits }),
    {
        Some(Capabilities { bits })
    }

    /// The bits of the capabilities.
    pub fn bits(&self) -> (b: u32)
        ensures
            b == self.bits,
    {
        self.bits
    }

    /// Whether every capability of `flags` is announced.
    pub open spec fn has(&self, flags: u32) -> bool {
        self.bits & flags == flags
    }

    /// Whether every capability of `flags` is announced.
    pub fn contains(&self, flags: u32) -> (b: bool)
        ensures
            b == self.has(flags),
    {
        self.bits & flags == flags
    }
}

/// The capabilities of this client are the seven that the handshake names.
pub proof fn lemma_client_capabilities()
    ensures
        CLIENT_CAPABILITIES == CLIENT_LONG_PASSWORD | CLIENT_PROTOCOL_41
            | CLIENT_PLUGIN_AUTH_LENENC_CLIENT_DATA | CLIENT_RESERVED | CLIENT_RESERVED2
            | CLIENT_DEPRECATE_EOF | CLIENT_PLUGIN_AUTH,
{
    assert(0x128_c201u32 == 0x1u32 | 0x200u32 | 0x20_0000u32 | 0x4000u32 | 0x8000u32
        | 0x100_0000u32 | 0x8_0000u32) by (bit_vector);
}

/// The greeting of the server, in version 10 of the protocol.
#[derive(Debug, Clone)]
pub struct HandshakeV10 {
    pub protocol_version: u32,
    pub server_version: String,
    pub thread_id: u32,
    pub caps: Capabilities,
    pub charset: u32,
    pub status: u32,
    pub auth_plugin_name: String,
    pub auth_plugin_data: Vec<u8>,
}

/// Where the fixed part of a greeting begins: after the protocol version
/// and the server version with its zero byte.
pub open spec fn greeting_base(input: Seq<u8>) -> int {
    2 + nul_index(input.skip(1)) as int
}

/// The bytes of the second part of the challenge: none where the greeting
/// gives its length as zero, and otherwise that length less 8, but 13 at
/// least.
pub open spec fn challenge_tail_len(auth_len: u8) -> int {
    if auth_len == 0 {
        0
    } else if auth_len - 8 > 13 {
        auth_len - 8
    } else {
        13
    }
}

/// The capability bits of a greeting: the low half from bytes 13 and 14 of
/// the fixed part, the high half from bytes 18 and 19.
pub open spec fn greeting_caps(input: Seq<u8>) -> u32 {
    let base = greeting_base(input);
    (le_value(input.subrange(base + 13, base + 15)) + 0x1_0000 * le_value(
        input.subrange(base + 18, base + 20),
    )) as u32
}

/// Where the name of the authentication plugin begins in a greeting.
pub open spec fn greeting_name_start(input: Seq<u8>) -> int {
    let base = greeting_base(input);
    base + 31 + challenge_tail_len(input[base + 20])
}

impl Decoder for HandshakeV10 {
    /// The protocol version, which must be 10 (any other is refused with
    /// `Not`); the server version, closed by a zero byte; a fixed part of
    /// 31 bytes; the second part of the challenge; and, where the server
    /// announces plugin authentication, the name of the plugin, closed by a
    /// zero byte.
    open spec fn frame(input: Seq<u8>) -> Result<nat, DecodeError> {
        let base = greeting_base(input);
        let name = greeting_name_start(input);
        if input.len() < 1 {
            Err(DecodeError::Eof)
        } else if input[0] != 10 {
            Err(DecodeError::Not)
        } else if input.len() < base + 31 {
            Err(DecodeError::Eof)
        } else if input.len() < name {
            Err(DecodeError::Eof)
        } else if (Capabilities { bits: greeting_caps(input) }).has(CLIENT_PLUGIN_AUTH) {
            if name + nul_index(input.skip(name)) >= input.len() {
                Err(DecodeError::Eof)
            } else {
                Ok((name + nul_index(input.skip(name)) + 1) as nat)
            }
        } else {
            Ok(name as nat)
        }
    }

    open spec fn holds(&self, input: Seq<u8>) -> bool {
        let base = greeting_base(input);
        let name = greeting_name_start(input);
        &&& self.protocol_version == 10
        &&& self.server_version@ == text_of(input.subrange(1, base - 1))
        &&& self.thread_id == le_value(input.subrange(base, base + 4))
        &&& self.auth_plugin_data@ == input.subrange(base + 4, base + 12) + input.subrange(
            base + 31,
            name,
        )
        &&& self.caps.bits == greeting_caps(input)
        &&& self.charset == input[base + 15]
        &&& self.status == le_value(input.subrange(base + 16, base + 18))
        &&& self.auth_plugin_name@ == if self.caps.has(CLIENT_PLUGIN_AUTH) {
            text_of(input.subrange(name, name + nul_index(input.skip(name))))
        } else {
            Seq::<char>::empty()
        }
    }

    fn decode(input: &[u8]) -> (r: Result<(&[u8], Self), DecodeError>) {
        if input.len() < 1 {
            return Err(DecodeError::Eof);
        }
        if input[0] != 10 {
            return Err(DecodeError::Not);
        }
        let version_end = find_nul(input, 1);
        if input.len() - version_end < 32 {
            return Err(DecodeError::Eof);
        }
        let base = version_end + 1;
        let server_version = string_of_bytes(slice_subrange(input, 1, version_end));
        proof {
            lemma_pow256_values();
            lemma_le_value_bound(input@.subrange(base as int, base + 4));
            lemma_le_value_bound(input@.subrange(base + 13, base + 15));
            lemma_le_value_bound(input@.subrange(base + 16, base + 18));
            lemma_le_value_bound(input@.subrange(base + 18, base + 20));
        }
        let thread_id = le_at(input, base, 4) as u32;
        let mut auth_plugin_data = slice_to_vec(slice_subrange(input, base + 4, base + 12));
        let low = le_at(input, base + 13, 2) as u32;
        let charset = input[base + 15] as u32;
        let status = le_at(input, base + 16, 2) as u32;
        let high = le_at(input, base + 18, 2) as u32;
        let auth_len = input[base + 20];
        let tail_len: usize = if auth_len == 0 {
            0
        } else if auth_len > 21 {
            (auth_len - 8) as usize
        } else {
            13
        };
        if input.len() - (base + 31) < tail_len {
            return Err(DecodeError::Eof);
        }
        let name_start = base + 31 + tail_len;
        auth_plugin_data.extend_from_slice(slice_subrange(input, base + 31, name_start));
        let caps = Capabilities { bits: low + 0x1_0000 * high };
        assert(auth_plugin_data@ =~= input@.subrange(base + 4, base + 12) + input@.subrange(
            base + 31,
            name_start as int,
        ));
        assert(caps.bits == greeting_caps(input@));
        assert(server_version@ == text_of(input@.subrange(1, base - 1)));
        if caps.contains(CLIENT_PLUGIN_AUTH) {
            let name_end = find_nul(input, name_start);
            if name_end >= input.len() {
                return Err(DecodeError::Eof);
            }
            let auth_plugin_name = string_of_bytes(slice_subrange(input, name_start, name_end));
            Ok(
                (
                    rest_from(input, name_end + 1),
                    HandshakeV10 {
                        protocol_version: 10,
                        server_version,
                        thread_id,
                        caps,
                        charset,
                        status,
                        auth_plugin_name,
                        auth_plugin_data,
                    },
                ),
            )
        } else {
            Ok(
                (
                    rest_from(input, name_start),
                    HandshakeV10 {
                        protocol_version: 10,
                        server_version,
                        thread_id,
                        caps,
                        charset,
                        status,
                        auth_plugin_name: String::new(),
                        auth_plugin_data,
                    },
                ),
            )
        }
    }
}

/// The reply of the client to the greeting.
#[derive(Debug, Clone)]
pub struct HandshakeResponse41 {
    pub caps: Capabilities,
    pub max_packet_size: u32,
    pub charset: u8,
    pub user_name: String,
    pub auth_resp: Vec<u8>,
    pub database: Option<String>,
    pub plugin_name: Option<String>,
    /// The connection attributes, in the order in which they are sent.
    pub connect_attrs: Vec<(String, String)>,
    pub zstd_level: u32,
}

/// The bytes of connection attributes: each name and each value as a
/// length-encoded string.
pub open spec fn attrs_bytes(attrs: Seq<(String, String)>) -> Seq<u8>
    decreases attrs.len(),
{
    if attrs.len() == 0 {
        Seq::<u8>::empty()
    } else {
        attrs_bytes(attrs.drop_last()) + lenenc_bytes(encode_utf8(attrs.last().0@).len())
            + encode_utf8(attrs.last().0@) + lenenc_bytes(encode_utf8(attrs.last().1@).len())
            + encode_utf8(attrs.last().1@)
    }
}

/// `count` zero bytes.
pub open spec fn zero_bytes(count: nat) -> Seq<u8> {
    Seq::new(count, |k: int| 0u8)
}

impl HandshakeResponse41 {
    /// The bytes of the authentication data: a length-encoded byte string
    /// where the client announces it, and otherwise the length in one byte,
    /// cut to its low eight bits, before the bytes.
    pub open spec fn auth_bytes(&self) -> Seq<u8> {
        if self.caps.has(CLIENT_PLUGIN_AUTH_LENENC_CLIENT_DATA) {
            lenenc_bytes(self.auth_resp@.len()) + self.auth_resp@
        } else {
            seq![(self.auth_resp@.len() % 256) as u8] + self.auth_resp@
        }
    }

    /// The name of the database, closed by a zero byte, where the client
    /// announces one; `default` where none is set.
    pub open spec fn database_bytes(&self) -> Seq<u8> {
        if self.caps.has(CLIENT_CONNECT_WITH_DB) {
            match self.database {
                Some(name) => encode_utf8(name@).push(0u8),
                None => encode_utf8("default"@).push(0u8),
            }
        } else {
            Seq::<u8>::empty()
        }
    }

    /// The name of the authentication plugin, closed by a zero byte, where
    /// the client announces plugin authentication; empty where none is set.
    pub open spec fn plugin_bytes(&self) -> Seq<u8> {
        if self.caps.has(CLIENT_PLUGIN_AUTH) {
            match self.plugin_name {
                Some(name) => encode_utf8(name@).push(0u8),
                None => seq![0u8],
            }
        } else {
            Seq::<u8>::empty()
        }
    }

    /// The connection attributes where the client announces them: their
    /// number, then each of them.
    pub open spec fn attrs_part(&self) -> Seq<u8> {
        if self.caps.has(CLIENT_CONNECT_ATTRS) {
            lenenc_bytes(self.connect_attrs@.len()) + attrs_bytes(self.connect_attrs@)
        } else {
            Seq::<u8>::empty()
        }
    }

    /// The reply that opens the authentication: the capabilities of this
    /// client, character set 255, no authentication data yet and no
    /// database.
    pub fn new(max_packet_size: u32, user_name: String, plugin_name: Option<String>) -> (r:
        HandshakeResponse41)
        ensures
            r.caps.bits == CLIENT_CAPABILITIES,
            r.caps.bits == CLIENT_LONG_PASSWORD | CLIENT_PROTOCOL_41
                | CLIENT_PLUGIN_AUTH_LENENC_CLIENT_DATA | CLIENT_RESERVED | CLIENT_RESERVED2
                | CLIENT_DEPRECATE_EOF | CLIENT_PLUGIN_AUTH,
            r.max_packet_size == max_packet_size,
            r.charset == 255,
            r.user_name == user_name,
            r.auth_resp@.len() == 0,
            r.database is None,
            r.plugin_name == plugin_name,
            r.connect_attrs@.len() == 0,
            r.zstd_level == 0,
    {
        proof {
            lemma_client_capabilities();
        }
        HandshakeResponse41 {
            caps: Capabilities { bits: CLIENT_CAPABILITIES },
            max_packet_size,
            charset: 255,
            user_name,
            auth_resp: Vec::new(),
            database: None,
            plugin_name,
            connect_attrs: Vec::new(),
            zstd_level: 0,
        }
    }
}

fn put_attrs(buffer: &mut BytesMut, attrs: &Vec<(String, String)>)
    ensures
        buf_bytes(*final(buffer)) == buf_bytes(*old(buffer)) + attrs_bytes(attrs@),
{
    let mut k: usize = 0;
    assert(attrs@.take(0) =~= Seq::<(String, String)>::empty());
    assert(buf_bytes(*buffer) =~= buf_bytes(*old(buffer)) + attrs_bytes(attrs@.take(0)));
    while k < attrs.len()
        invariant
            k <= attrs@.len(),
            buf_bytes(*buffer) == buf_bytes(*old(buffer)) + attrs_bytes(attrs@.take(k as int)),
        decreases attrs@.len() - k,
    {
        let ghost before = buf_bytes(*buffer);
        write_var_str(buffer, attrs[k].0.as_str());
        write_var_str(buffer, attrs[k].1.as_str());
        proof {
            let next = attrs@.take(k + 1);
            assert(next.drop_last() =~= attrs@.take(k as int));
            assert(next.last() == attrs@[k as int]);
            assert(buf_bytes(*buffer) =~= buf_bytes(*old(buffer)) + attrs_bytes(next));
        }
        k = k + 1;
    }
    assert(attrs@.take(k as int) =~= attrs@);
}

fn put_zeros(buffer: &mut BytesMut, count: usize)
    ensures
        buf_bytes(*final(buffer)) == buf_bytes(*old(buffer)) + zero_bytes(count as nat),
{
    let mut k: usize = 0;
    assert(buf_bytes(*buffer) =~= buf_bytes(*old(buffer)) + zero_bytes(0));
    while k < count
        invariant
            k <= count,
            buf_bytes(*buffer) == buf_bytes(*old(buffer)) + zero_bytes(k as nat),
        decreases count - k,
    {
        buf_put_u8(buffer, 0);
        k = k + 1;
        assert(buf_bytes(*buffer) =~= buf_bytes(*old(buffer)) + zero_bytes(k as nat));
    }
}

impl Encoder for HandshakeResponse41 {
    /// The capabilities and the largest packet in four little-endian bytes
    /// each, the character set, 23 zero bytes, the user name closed by a
    /// zero byte, the authentication data, and what the capabilities call
    /// for: the database, the plugin name and the connection attributes;
    /// last the compression level in one byte, cut to its low eight bits.
    open spec fn encoding(&self) -> Seq<u8> {
        self.head_bytes() + self.auth_bytes() + self.database_bytes() + self.plugin_bytes()
            + self.attrs_part() + seq![(self.zstd_level % 256) as u8]
    }

    fn encode(&self, buffer: &mut BytesMut) {
        self.put_head(buffer);
        self.put_auth(buffer);
        self.put_database(buffer);
        self.put_plugin(buffer);
        self.put_attrs_part(buffer);
        buf_put_u8(buffer, (self.zstd_level % 256) as u8);
        assert(buf_bytes(*buffer) =~= buf_bytes(*old(buffer)) + self.encoding());
    }
}

impl HandshakeResponse41 {
    /// The fixed part of the reply, up to the user name.
    pub open spec fn head_bytes(&self) -> Seq<u8> {
        le_bytes(self.caps.bits as nat, 4) + le_bytes(self.max_packet_size as nat, 4)
            + seq![self.charset] + zero_bytes(23) + encode_utf8(self.user_name@).push(0u8)
    }

    fn put_head(&self, buffer: &mut BytesMut)
        ensures
            buf_bytes(*final(buffer)) == buf_bytes(*old(buffer)) + self.head_bytes(),
    {
        put_le(buffer, self.caps.bits as u64, 4);
        put_le(buffer, self.max_packet_size as u64, 4);
        buf_put_u8(buffer, self.charset);
        put_zeros(buffer, 23);
        write_null_term_str(buffer, self.user_name.as_str());
        assert(buf_bytes(*buffer) =~= buf_bytes(*old(buffer)) + self.head_bytes());
    }

    fn put_auth(&self, buffer: &mut BytesMut)
        ensures
            buf_bytes(*final(buffer)) == buf_bytes(*old(buffer)) + self.auth_bytes(),
    {
        if self.caps.contains(CLIENT_PLUGIN_AUTH_LENENC_CLIENT_DATA) {
            write_var_bytes(buffer, self.auth_resp.as_slice());
        } else {
            buf_put_u8(buffer, (self.auth_resp.len() % 256) as u8);
            buf_extend(buffer, self.auth_resp.as_slice());
        }
        assert(buf_bytes(*buffer) =~= buf_bytes(*old(buffer)) + self.auth_bytes());
    }

    fn put_database(&self, buffer: &mut BytesMut)
        ensures
            buf_bytes(*final(buffer)) == buf_bytes(*old(buffer)) + self.database_bytes(),
    {
        if self.caps.contains(CLIENT_CONNECT_WITH_DB) {
            match &self.database {
                Some(name) => write_null_term_str(buffer, name.as_str()),
                None => write_null_term_str(buffer, "default"),
            }
        }
        assert(buf_bytes(*buffer) =~= buf_bytes(*old(buffer)) + self.database_bytes());
    }

    fn put_plugin(&self, buffer: &mut BytesMut)
        ensures
            buf_bytes(*final(buffer)) == buf_bytes(*old(buffer)) + self.plugin_bytes(),
    {
        if self.caps.contains(CLIENT_PLUGIN_AUTH) {
            match &self.plugin_name {
                Some(name) => write_null_term_str(buffer, name.as_str()),
                None => buf_put_u8(buffer, 0),
            }
        }
        assert(buf_bytes(*buffer) =~= buf_bytes(*old(buffer)) + self.plugin_bytes());
    }

    fn put_attrs_part(&self, buffer: &mut BytesMut)
        ensures
            buf_bytes(*final(buffer)) == buf_bytes(*old(buffer)) + self.attrs_part(),
    {
        if self.caps.contains(CLIENT_CONNECT_ATTRS) {
            put_lenenc(buffer, self.connect_attrs.len() as u64);
            put_attrs(buffer, &self.connect_attrs);
        }
        assert(buf_bytes(*buffer) =~= buf_bytes(*old(buffer)) + self.attrs_part());
    }
}

/// The request of the server to authenticate with another method.
#[derive(Debug, Clone)]
pub struct AuthSwitchReq {
    pub plugin_name: String,
    pub plugin_data: Vec<u8>,
}

/// The byte that opens a request to switch the authentication method.
pub const AUTH_SWITCH_STATUS: u8 = 254;

impl Decoder for AuthSwitchReq {
    /// The status byte `0xFE` (any other is refused with `Fail`), the name
    /// of the plugin closed by a zero byte, and the data of the plugin to
    /// the end of the input.
    open spec fn frame(input: Seq<u8>) -> Result<nat, DecodeError> {
        if input.len() < 1 {
            Err(DecodeError::Eof)
        } else if input[0] != AUTH_SWITCH_STATUS {
            Err(DecodeError::Fail)
        } else if 1 + nul_index(input.skip(1)) >= input.len() {
            Err(DecodeError::Eof)
        } else {
            Ok(input.len())
        }
    }

    open spec fn holds(&self, input: Seq<u8>) -> bool {
        let end = 1 + nul_index(input.skip(1)) as int;
        self.plugin_name@ == text_of(input.subrange(1, end)) && self.plugin_data@ == input.skip(
            end + 1,
        )
    }

    fn decode(input: &[u8]) -> (r: Result<(&[u8], Self), DecodeError>) {
        if input.len() < 1 {
            return Err(DecodeError::Eof);
        }
        if input[0] != AUTH_SWITCH_STATUS {
            return Err(DecodeError::Fail);
        }
        let end = find_nul(input, 1);
        if end >= input.len() {
            return Err(DecodeError::Eof);
        }
        let plugin_name = string_of_bytes(slice_subrange(input, 1, end));
        let plugin_data = slice_to_vec(rest_from(input, end + 1));
        Ok((rest_from(input, input.len()), AuthSwitchReq { plugin_name, plugin_data }))
    }
}

/// The answer of the client to a request to switch the method.
#[derive(Debug, Clone)]
pub struct AuthSwitchResp {
    pub data: Vec<u8>,
}

impl Encoder for AuthSwitchResp {
    open spec fn encoding(&self) -> Seq<u8> {
        self.data@
    }

    fn encode(&self, buffer: &mut BytesMut) {
        buf_extend(buffer, self.data.as_slice());
    }
}

/// A statement sent to the server.
#[derive(Debug, Clone)]
pub struct ComQuery {
    pub query: String,
}

impl ComQuery {
    /// The command for the given statement.
    pub fn new(query: &str) -> (c: ComQuery)
        ensures
            c.query@ == query@,
    {
        ComQuery { query: String::from_str(query) }
    }
}

impl From<String> for ComQuery {
    fn from(value: String) -> (c: ComQuery) {
        ComQuery { query: value }
    }
}

impl vstd::std_specs::convert::FromSpecImpl<String> for ComQuery {
    open spec fn obeys_from_spec() -> bool {
        true
    }

    open spec fn from_spec(value: String) -> ComQuery {
        ComQuery { query: value }
    }
}

impl Encoder for ComQuery {
    /// The command byte `0x03`, then the statement.
    open spec fn encoding(&self) -> Seq<u8> {
        seq![0x03u8] + encode_utf8(self.query@)
    }

    fn encode(&self, buf: &mut BytesMut) {
        buf_put_u8(buf, 0x03);
        buf_extend(buf, self.query.as_str().as_bytes());
    }
}

/// The command that keeps the connection alive.
#[derive(Debug, Clone, Copy)]
pub struct ComPing {}

impl Encoder for ComPing {
    /// The command byte `0x0E`.
    open spec fn encoding(&self) -> Seq<u8> {
        seq![0x0eu8]
    }

    fn encode(&self, buf: &mut BytesMut) {
        buf_put_u8(buf, 0x0e);
        assert(buf_bytes(*buf) =~= buf_bytes(*old(buf)) + seq![0x0eu8]);
    }
}

/// The command that starts the stream of the binary log.
#[derive(Debug, Clone)]
pub struct ComBinLogDump {
    pub pos: u32,
    pub flags: u16,
    pub server_id: u32,
    pub filename: String,
}

impl Encoder for ComBinLogDump {
    /// The command byte `0x12`, the offset in four little-endian bytes,
    /// the flags in two, the server id in four, and the file name without
    /// a closing byte.
    open spec fn encoding(&self) -> Seq<u8> {
        seq![0x12u8] + le_bytes(self.pos as nat, 4) + le_bytes(self.flags as nat, 2) + le_bytes(
            self.server_id as nat,
            4,
        ) + encode_utf8(self.filename@)
    }

    fn encode(&self, buf: &mut BytesMut) {
        buf_put_u8(buf, 0x12);
        put_le(buf, self.pos as u64, 4);
        put_le(buf, self.flags as u64, 2);
        put_le(buf, self.server_id as u64, 4);
        buf_extend(buf, self.filename.as_str().as_bytes());
        assert(buf_bytes(*buf) =~= buf_bytes(*old(buf)) + self.encoding());
    }
}

/// The answer that ends a command or a result set.
#[derive(Debug, Clone)]
pub struct OkPacket {
    pub header: u8,
    pub affected_rows: VLenInt,
    pub last_insert_id: VLenInt,
    pub status_flags: u16,
    pub warnings: u16,
    pub info: String,
}

/// The input of an OK packet from the last insert id on.
pub open spec fn ok_second(input: Seq<u8>) -> Seq<u8> {
    input.skip(1 + lenenc_size(input.skip(1)).unwrap() as int)
}

/// The input of an OK packet from the status flags on.
pub open spec fn ok_tail(input: Seq<u8>) -> Seq<u8> {
    ok_second(input).skip(lenenc_size(ok_second(input)).unwrap() as int)
}

impl OkPacket {
    /// Whether the packet reports success: its header is `0x00`.
    pub fn is_ok(&self) -> (b: bool)
        ensures
            b == (self.header == 0x00),
    {
        self.header == 0x00
    }

    /// Whether the packet ends a result set: its header is `0xFE`.
    pub fn is_eof(&self) -> (b: bool)
        ensures
            b == (self.header == 0xfe),
    {
        self.header == 0xfe
    }
}

impl Decoder for OkPacket {
    /// The header byte (`0xFF`, which opens an error report, is refused
    /// with `Fail`), the affected rows and the last insert id as
    /// length-encoded integers, the status flags and the warnings in two
    /// bytes each. All of the input is taken.
    open spec fn frame(input: Seq<u8>) -> Result<nat, DecodeError> {
        if input.len() < 1 {
            Err(DecodeError::Eof)
        } else if input[0] == 0xff {
            Err(DecodeError::Fail)
        } else {
            match lenenc_size(input.skip(1)) {
                Err(e) => Err(e),
                Ok(_) => match lenenc_size(ok_second(input)) {
                    Err(e) => Err(e),
                    Ok(_) => if ok_tail(input).len() < 4 {
                        Err(DecodeError::Eof)
                    } else {
                        Ok(input.len())
                    },
                },
            }
        }
    }

    open spec fn holds(&self, input: Seq<u8>) -> bool {
        &&& self.header == input[0]
        &&& self.affected_rows.0 == lenenc_value(input.skip(1))
        &&& self.last_insert_id.0 == lenenc_value(ok_second(input))
        &&& self.status_flags == le_value(ok_tail(input).subrange(0, 2))
        &&& self.warnings == le_value(ok_tail(input).subrange(2, 4))
        &&& self.info@.len() == 0
    }

    fn decode(input: &[u8]) -> (r: Result<(&[u8], Self), DecodeError>) {
        if input.len() < 1 {
            return Err(DecodeError::Eof);
        }
        let header = input[0];
        if header == 0xff {
            return Err(DecodeError::Fail);
        }
        let (second, affected_rows) = match take_lenenc(rest_from(input, 1)) {
            Ok(p) => p,
            Err(e) => { return Err(e); },
        };
        assert(second@ =~= ok_second(input@));
        let (tail, last_insert_id) = match take_lenenc(second) {
            Ok(p) => p,
            Err(e) => { return Err(e); },
        };
        if tail.len() < 4 {
            return Err(DecodeError::Eof);
        }
        proof {
            lemma_pow256_values();
            lemma_le_value_bound(tail@.subrange(0, 2));
            lemma_le_value_bound(tail@.subrange(2, 4));
        }
        let status_flags = le_at(tail, 0, 2) as u16;
        let warnings = le_at(tail, 2, 2) as u16;
        Ok(
            (
                rest_from(input, input.len()),
                OkPacket {
                    header,
                    affected_rows: VLenInt(affected_rows),
                    last_insert_id: VLenInt(last_insert_id),
                    status_flags,
                    warnings,
                    info: String::new(),
                },
            ),
        )
    }
}

/// The error report of the server.
#[derive(Debug, Clone)]
pub struct ErrPacket {
    pub header: u8,
    pub code: u16,
    pub sql_state_marker: u8,
    pub sql_state: String,
    pub error_msg: String,
}

impl Decoder for ErrPacket {
    /// The header byte, the error code in two bytes, a marker byte, the
    /// SQL state in five bytes and the message to the end of the input.
    /// A state or a message that is not UTF-8 is refused with `Fail`.
    open spec fn frame(input: Seq<u8>) -> Result<nat, DecodeError> {
        if input.len() < 9 {
            Err(DecodeError::Eof)
        } else if !valid_utf8(input.subrange(4, 9)) || !valid_utf8(input.skip(9)) {
            Err(DecodeError::Fail)
        } else {
            Ok(input.len())
        }
    }

    open spec fn holds(&self, input: Seq<u8>) -> bool {
        &&& self.header == input[0]
        &&& self.code == le_value(input.subrange(1, 3))
        &&& self.sql_state_marker == input[3]
        &&& encode_utf8(self.sql_state@) == input.subrange(4, 9)
        &&& encode_utf8(self.error_msg@) == input.skip(9)
    }

    fn decode(input: &[u8]) -> (r: Result<(&[u8], Self), DecodeError>) {
        if input.len() < 9 {
            return Err(DecodeError::Eof);
        }
        proof {
            lemma_pow256_values();
            lemma_le_value_bound(input@.subrange(1, 3));
        }
        let code = le_at(input, 1, 2) as u16;
        let sql_state = match string_from_utf8(slice_to_vec(slice_subrange(input, 4, 9))) {
            Some(s) => s,
            None => { return Err(DecodeError::Fail); },
        };
        let error_msg = match string_from_utf8(slice_to_vec(rest_from(input, 9))) {
            Some(s) => s,
            None => { return Err(DecodeError::Fail); },
        };
        Ok(
            (
                rest_from(input, input.len()),
                ErrPacket {
                    header: input[0],
                    code,
                    sql_state_marker: input[3],
                    sql_state,
                    error_msg,
                },
            ),
        )
    }
}

/// The bytes that stand for a null column in a row of text: `NULL`.
pub open spec fn null_text() -> Seq<u8> {
    seq![0x4eu8, 0x55u8, 0x4cu8, 0x4cu8]
}

/// Decoded columns with `front` put before them.
pub open spec fn cols_front(front: Seq<Seq<u8>>, r: Result<Seq<Seq<u8>>, DecodeError>) -> Result<
    Seq<Seq<u8>>,
    DecodeError,
> {
    match r {
        Ok(cols) => Ok(front + cols),
        Err(e) => Err(e),
    }
}

/// The columns of a row of text: each is the byte `0xFB`, which stands for
/// a null column, or a length-encoded byte string.
pub open spec fn text_columns(input: Seq<u8>) -> Result<Seq<Seq<u8>>, DecodeError>
    decreases input.len(),
{
    if input.len() == 0 {
        Ok(Seq::<Seq<u8>>::empty())
    } else if input[0] == 0xfb {
        cols_front(seq![null_text()], text_columns(input.skip(1)))
    } else {
        match var_bytes_end(input) {
            Err(e) => Err(e),
            Ok(end) => cols_front(
                seq![var_bytes_body(input)],
                text_columns(input.skip(end as int)),
            ),
        }
    }
}

/// The columns of a row as runs of bytes.
pub open spec fn cols_view(cols: Seq<Vec<u8>>) -> Seq<Seq<u8>> {
    Seq::new(cols.len(), |k: int| cols[k]@)
}

proof fn lemma_cols_front_twice(
    a: Seq<Seq<u8>>,
    b: Seq<Seq<u8>>,
    r: Result<Seq<Seq<u8>>, DecodeError>,
)
    ensures
        cols_front(a, cols_front(b, r)) == cols_front(a + b, r),
{
    match r {
        Ok(cols) => {
            assert(a + (b + cols) =~= (a + b) + cols);
        },
        Err(e) => {},
    }
}

/// One row of a result set in the text protocol.
#[derive(Debug, Clone)]
pub struct TextResult {
    pub columns: Vec<Vec<u8>>,
}

impl Decoder for TextResult {
    open spec fn frame(input: Seq<u8>) -> Result<nat, DecodeError> {
        match text_columns(input) {
            Err(e) => Err(e),
            Ok(_) => Ok(input.len()),
        }
    }

    open spec fn holds(&self, input: Seq<u8>) -> bool {
        text_columns(input) == Ok::<Seq<Seq<u8>>, DecodeError>(cols_view(self.columns@))
    }

    fn decode(input: &[u8]) -> (r: Result<(&[u8], Self), DecodeError>) {
        let mut columns: Vec<Vec<u8>> = Vec::new();
        let mut cur = input;
        let ghost whole = text_columns(input@);
        proof {
            assert(cols_view(columns@) =~= Seq::<Seq<u8>>::empty());
            match whole {
                Ok(cols) => {
                    assert(Seq::<Seq<u8>>::empty() + cols =~= cols);
                },
                Err(e) => {},
            }
        }
        while cur.len() > 0
            invariant
                whole == text_columns(input@),
                whole == cols_front(cols_view(columns@), text_columns(cur@)),
            decreases cur@.len(),
        {
            let ghost before = cols_view(columns@);
            if cur[0] == 0xfb {
                columns.push(vec![0x4eu8, 0x55u8, 0x4cu8, 0x4cu8]);
                proof {
                    assert(cols_view(columns@) =~= before + seq![null_text()]);
                    lemma_cols_front_twice(
                        before,
                        seq![null_text()],
                        text_columns(cur@.skip(1)),
                    );
                }
                cur = rest_from(cur, 1);
            } else {
                let (rest, col) = match take_var_bytes(cur) {
                    Ok(p) => p,
                    Err(e) => { return Err(e); },
                };
                columns.push(slice_to_vec(col));
                proof {
                    assert(cols_view(columns@) =~= before + seq![col@]);
                    lemma_cols_front_twice(before, seq![col@], text_columns(rest@));
                }
                cur = rest;
            }
        }
        proof {
            assert(cols_view(columns@) + Seq::<Seq<u8>>::empty() =~= cols_view(columns@));
        }
        Ok((rest_from(input, input.len()), TextResult { columns }))
    }
}

/// Where a length-encoded string ends at the head of `input`; bytes that
/// are not UTF-8 are refused with `Eof`.
pub open spec fn var_string_end(input: Seq<u8>) -> Result<nat, DecodeError> {
    match var_bytes_end(input) {
        Err(e) => Err(e),
        Ok(end) => if valid_utf8(var_bytes_body(input)) {
            Ok(end)
        } else {
            Err(DecodeError::Eof)
        },
    }
}

/// What is left of `input` after `n` length-encoded strings.
pub open spec fn after_strings(input: Seq<u8>, n: nat) -> Result<Seq<u8>, DecodeError>
    decreases n,
{
    if n == 0 {
        Ok(input)
    } else {
        match after_strings(input, (n - 1) as nat) {
            Err(e) => Err(e),
            Ok(rest) => match var_string_end(rest) {
                Err(e) => Err(e),
                Ok(end) => Ok(rest.skip(end as int)),
            },
        }
    }
}

/// The bytes of string `n`, counted from 0, of the length-encoded strings
/// at the head of `input`.
pub open spec fn string_at(input: Seq<u8>, n: nat) -> Seq<u8> {
    var_bytes_body(after_strings(input, n).unwrap())
}

/// The definition of one column of a result set.
#[derive(Debug, Clone)]
pub struct ColDef {
    pub catalog: String,
    pub schema: String,
    pub table: String,
    pub original_table: String,
    pub name: String,
    pub original_name: String,
    pub length_of_fixed_length_fields: VLenInt,
    pub charset: u16,
    pub column_length: u32,
    pub ty: u8,
    pub flags: u16,
    pub decimals: u8,
}

/// The input of a column definition after its six strings and the
/// length-encoded integer that follows them.
pub open spec fn col_def_tail(input: Seq<u8>) -> Seq<u8> {
    let rest = after_strings(input, 6).unwrap();
    rest.skip(lenenc_size(rest).unwrap() as int)
}

fn take_string_at<'a>(input: &'a [u8], cur: &'a [u8], n: usize) -> (r: Result<
    (&'a [u8], String),
    DecodeError,
>)
    requires
        n < 6,
        after_strings(input@, n as nat) == Ok::<Seq<u8>, DecodeError>(cur@),
        cur@ == input@.skip(input@.len() - cur@.len()),
        cur@.len() <= input@.len(),
    ensures
        match r {
            Ok((rest, s)) => after_strings(input@, (n + 1) as nat) == Ok::<Seq<u8>, DecodeError>(
                rest@,
            ) && encode_utf8(s@) == string_at(input@, n as nat) && rest@ == input@.skip(
                input@.len() - rest@.len(),
            ) && rest@.len() <= input@.len(),
            Err(e) => after_strings(input@, (n + 1) as nat) == Err::<Seq<u8>, DecodeError>(e),
        },
{
    match take_var_string(cur) {
        Ok((rest, s)) => {
            proof {
                assert(rest@ =~= input@.skip(input@.len() - rest@.len()));
            }
            Ok((rest, s))
        },
        Err(e) => Err(e),
    }
}

proof fn lemma_after_strings_fails(input: Seq<u8>, n: nat, e: DecodeError)
    requires
        n < 6,
        after_strings(input, n) == Err::<Seq<u8>, DecodeError>(e),
    ensures
        after_strings(input, 6) == Err::<Seq<u8>, DecodeError>(e),
    decreases 6 - n,
{
    if n + 1 < 6 {
        lemma_after_strings_fails(input, n + 1, e);
    }
}

impl Decoder for ColDef {
    /// Six length-encoded strings, a length-encoded integer, and ten
    /// bytes: the character set in two, the length of the column in four,
    /// the type in one, the flags in two and the decimals in one.
    open spec fn frame(input: Seq<u8>) -> Result<nat, DecodeError> {
        match after_strings(input, 6) {
            Err(e) => Err(e),
            Ok(rest) => match lenenc_size(rest) {
                Err(e) => Err(e),
                Ok(size) => if rest.len() - size < 10 {
                    Err(DecodeError::Eof)
                } else {
                    Ok((input.len() - rest.len() + size + 10) as nat)
                },
            },
        }
    }

    open spec fn holds(&self, input: Seq<u8>) -> bool {
        let tail = col_def_tail(input);
        &&& encode_utf8(self.catalog@) == string_at(input, 0)
        &&& encode_utf8(self.schema@) == string_at(input, 1)
        &&& encode_utf8(self.table@) == string_at(input, 2)
        &&& encode_utf8(self.original_table@) == string_at(input, 3)
        &&& encode_utf8(self.name@) == string_at(input, 4)
        &&& encode_utf8(self.original_name@) == string_at(input, 5)
        &&& self.length_of_fixed_length_fields.0 == lenenc_value(after_strings(input, 6).unwrap())
        &&& self.charset == le_value(tail.subrange(0, 2))
        &&& self.column_length == le_value(tail.subrange(2, 6))
        &&& self.ty == tail[6]
        &&& self.flags == le_value(tail.subrange(7, 9))
        &&& self.decimals == tail[9]
    }

    fn decode(input: &[u8]) -> (r: Result<(&[u8], Self), DecodeError>) {
        let (r6, names) = match take_six_strings(input) {
            Ok(p) => p,
            Err(e) => { return Err(e); },
        };
        let (tail, fixed) = match take_lenenc(r6) {
            Ok(p) => p,
            Err(e) => { return Err(e); },
        };
        if tail.len() < 10 {
            return Err(DecodeError::Eof);
        }
        let (charset, column_length, ty, flags, decimals) = col_def_numbers(tail);
        let rest = rest_from(tail, 10);
        proof {
            let size = lenenc_size(r6@).unwrap() as int;
            assert(rest@ =~= input@.skip(input@.len() - r6@.len() + size + 10));
            assert(tail@ == col_def_tail(input@));
        }
        let (catalog, schema, table, original_table, name, original_name) = names;
        Ok(
            (
                rest,
                ColDef {
                    catalog,
                    schema,
                    table,
                    original_table,
                    name,
                    original_name,
                    length_of_fixed_length_fields: VLenInt(fixed),
                    charset,
                    column_length,
                    ty,
                    flags,
                    decimals,
                },
            ),
        )
    }
}

/// Takes the six length-encoded strings that open a column definition.
fn take_six_strings(input: &[u8]) -> (r: Result<
    (&[u8], (String, String, String, String, String, String)),
    DecodeError,
>)
    ensures
        match r {
            Ok((rest, names)) => {
                &&& after_strings(input@, 6) == Ok::<Seq<u8>, DecodeError>(rest@)
                &&& rest@ == input@.skip(input@.len() - rest@.len())
                &&& rest@.len() <= input@.len()
                &&& encode_utf8(names.0@) == string_at(input@, 0)
                &&& encode_utf8(names.1@) == string_at(input@, 1)
                &&& encode_utf8(names.2@) == string_at(input@, 2)
                &&& encode_utf8(names.3@) == string_at(input@, 3)
                &&& encode_utf8(names.4@) == string_at(input@, 4)
                &&& encode_utf8(names.5@) == string_at(input@, 5)
            },
            Err(e) => after_strings(input@, 6) == Err::<Seq<u8>, DecodeError>(e),
        },
{
    assert(input@.skip(0) =~= input@);
    let (r1, catalog) = match take_string_at(input, input, 0) {
        Ok(p) => p,
        Err(e) => {
            proof {
                lemma_after_strings_fails(input@, 1, e);
            }
            return Err(e);
        },
    };
    let (r2, schema) = match take_string_at(input, r1, 1) {
        Ok(p) => p,
        Err(e) => {
            proof {
                lemma_after_strings_fails(input@, 2, e);
            }
            return Err(e);
        },
    };
    let (r3, table) = match take_string_at(input, r2, 2) {
        Ok(p) => p,
        Err(e) => {
            proof {
                lemma_after_strings_fails(input@, 3, e);
            }
            return Err(e);
        },
    };
    let (r4, original_table) = match take_string_at(input, r3, 3) {
        Ok(p) => p,
        Err(e) => {
            proof {
                lemma_after_strings_fails(input@, 4, e);
            }
            return Err(e);
        },
    };
    let (r5, name) = match take_string_at(input, r4, 4) {
        Ok(p) => p,
        Err(e) => {
            proof {
                lemma_after_strings_fails(input@, 5, e);
            }
            return Err(e);
        },
    };
    let (r6, original_name) = match take_string_at(input, r5, 5) {
        Ok(p) => p,
        Err(e) => { return Err(e); },
    };
    Ok((r6, (catalog, schema, table, original_table, name, original_name)))
}

fn col_def_numbers(tail: &[u8]) -> (r: (u16, u32, u8, u16, u8))
    requires
        tail@.len() >= 10,
    ensures
        r.0 == le_value(tail@.subrange(0, 2)),
        r.1 == le_value(tail@.subrange(2, 6)),
        r.2 == tail@[6],
        r.3 == le_value(tail@.subrange(7, 9)),
        r.4 == tail@[9],
{
    proof {
        lemma_pow256_values();
        lemma_le_value_bound(tail@.subrange(0, 2));
        lemma_le_value_bound(tail@.subrange(2, 6));
        lemma_le_value_bound(tail@.subrange(7, 9));
    }
    (
        le_at(tail, 0, 2) as u16,
        le_at(tail, 2, 4) as u32,
        tail[6],
        le_at(tail, 7, 2) as u16,
        tail[9],
    )
}

/// A result set in the text protocol.
#[derive(Debug, Clone)]
pub struct TextResultSet {
    pub column_count: VLenInt,
    pub col_defs: Vec<ColDef>,
    pub rows: Vec<TextResult>,
}

} // verus!
