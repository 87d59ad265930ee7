//! Byte formats of the records that the log keeps in a key-value store.
//!
//! Four kinds of record exist: log keys, log values, meta keys and meta
//! values. All integers are big-endian and all keys have a fixed width, so
//! that the store's byte order is the order of the fields. A key starts with
//! its namespace and ends with its version; a value starts with its version.

use vstd::prelude::*;

use crate::byte_order::{
    get_u64, lemma_lex_lt_concat, lemma_u64_bytes_injective, lemma_u64_bytes_of_value,
    lemma_u64_bytes_order, lemma_u64_round_trip, lex_lt, put_u64, u64_bytes,
    u64_value,
};
use crate::log_batch::{Location, LogWriteBatch, LogWriteEntry, Payload};
use crate::manager;
use crate::{RegionId, SequenceNumber, TableId};

verus! {

pub const LOG_KEY_ENCODING_V0: u8 = 0;

pub const NEWEST_LOG_KEY_ENCODING_VERSION: u8 = LOG_KEY_ENCODING_V0;

pub const LOG_VALUE_ENCODING_V0: u8 = 0;

pub const NEWEST_LOG_VALUE_ENCODING_VERSION: u8 = LOG_VALUE_ENCODING_V0;

pub const META_KEY_ENCODING_V0: u8 = 0;

pub const NEWEST_META_KEY_ENCODING_VERSION: u8 = META_KEY_ENCODING_V0;

pub const META_VALUE_ENCODING_V0: u8 = 0;

pub const NEWEST_META_VALUE_ENCODING_VERSION: u8 = META_VALUE_ENCODING_V0;

/// Width of a log key in bytes.
pub const LOG_KEY_SIZE: usize = 18;

/// Width of a common log key in bytes.
pub const COMMON_LOG_KEY_SIZE: usize = 26;

/// Width of a meta key in bytes.
pub const META_KEY_SIZE: usize = 11;

/// Width of the value that holds the largest sequence number of a region.
pub const MAX_SEQ_META_VALUE_SIZE: usize = 9;

/// What can go wrong when a record is encoded or decoded.
#[allow(inconsistent_fields)]
#[derive(Debug, Clone, Copy, PartialEq, Eq, Structural)]
pub enum Error {
    EncodeLogKey,
    EncodeLogValueHeader,
    EncodeLogValuePayload,
    DecodeLogKey,
    DecodeLogValueHeader,
    DecodeLogValuePayload,
    EncodeMetaKey,
    EncodeMetaValue,
    DecodeMetaKey,
    DecodeMetaValue,
    InvalidMetaKeyType { expect: MetaKeyType, given: u8 },
    InvalidNamespace { expect: Namespace, given: u8 },
    InvalidVersion { expect: u8, given: u8 },
}

/// First byte of every key: tells log records from meta records.
#[derive(Debug, Clone, Copy, PartialEq, Eq, Structural)]
pub enum Namespace {
    Meta,
    Log,
}

impl Namespace {
    /// The byte that stands for this namespace.
    pub open spec fn byte(self) -> u8 {
        match self {
            Namespace::Meta => 0,
            Namespace::Log => 1,
        }
    }

    #[verifier::when_used_as_spec(byte)]
    pub fn to_u8(self) -> (b: u8)
        ensures
            b == self.byte(),
    {
        match self {
            Namespace::Meta => 0,
            Namespace::Log => 1,
        }
    }
}

/// Key of a log record: the region and the sequence number in it.
pub type LogKey = (RegionId, SequenceNumber);

/// The order in which log keys are meant to sort.
pub open spec fn log_key_lt(a: LogKey, b: LogKey) -> bool {
    a.0 < b.0 || (a.0 == b.0 && a.1 < b.1)
}

/// Writes and reads log keys.
///
/// ```text
/// +---------------+----------------+-------------------+--------------------+
/// | namespace(u8) | region_id(u64) | sequence_num(u64) | version header(u8) |
/// +---------------+----------------+-------------------+--------------------+
/// ```
#[derive(Debug, Clone, Copy)]
pub struct LogKeyEncoder {
    pub version: u8,
    pub namespace: Namespace,
}

impl LogKeyEncoder {
    /// The bytes of `key`.
    pub open spec fn encoded(&self, key: LogKey) -> Seq<u8> {
        seq![self.namespace.byte()] + u64_bytes(key.0) + u64_bytes(key.1) + seq![self.version]
    }

    /// What reading a key from the front of `s` gives. Bytes behind the key
    /// are not looked at.
    pub open spec fn decoded(&self, s: Seq<u8>) -> Result<LogKey, Error> {
        if s.len() < 1 {
            Err(Error::DecodeLogKey)
        } else if s[0] != self.namespace.byte() {
            Err(Error::InvalidNamespace { expect: self.namespace, given: s[0] })
        } else if s.len() < 18 {
            Err(Error::DecodeLogKey)
        } else if s[17] != self.version {
            Err(Error::InvalidVersion { expect: self.version, given: s[17] })
        } else {
            Ok((u64_value(s.subrange(1, 9)), u64_value(s.subrange(9, 17))))
        }
    }

    /// What `is_valid` answers on `s`.
    pub open spec fn validity(&self, s: Seq<u8>) -> Result<bool, Error> {
        if s.len() < 1 {
            Err(Error::DecodeLogKey)
        } else {
            Ok(s[0] == self.namespace.byte())
        }
    }

    /// The encoder of the newest version.
    pub fn newest() -> (e: Self)
        ensures
            e.version == NEWEST_LOG_KEY_ENCODING_VERSION,
            e.namespace == Namespace::Log,
    {
        Self { version: NEWEST_LOG_KEY_ENCODING_VERSION, namespace: Namespace::Log }
    }

    /// Whether the bytes are those of a log key: looks at the namespace only.
    pub fn is_valid(&self, buf: &[u8]) -> (r: Result<bool, Error>)
        ensures
            r == self.validity(buf@),
    {
        if buf.len() < 1 {
            return Err(Error::DecodeLogKey);
        }
        Ok(buf[0] == self.namespace.to_u8())
    }

    /// Appends the bytes of `log_key` to `buf`.
    pub fn encode(&self, buf: &mut Vec<u8>, log_key: &LogKey) -> (r: Result<(), Error>)
        ensures
            r is Ok,
            final(buf)@ == old(buf)@ + self.encoded(*log_key),
    {
        buf.push(self.namespace.to_u8());
        put_u64(buf, log_key.0);
        put_u64(buf, log_key.1);
        buf.push(self.version);
        proof {
            assert(buf@ =~= old(buf)@ + self.encoded(*log_key));
        }
        Ok(())
    }

    /// Number of bytes that `encode` appends.
    pub fn estimate_encoded_size(&self, log_key: &LogKey) -> (n: usize)
        ensures
            n == LOG_KEY_SIZE,
            n == self.encoded(*log_key).len(),
    {
        proof {
            lemma_u64_round_trip(log_key.0);
            lemma_u64_round_trip(log_key.1);
        }
        1 + 8 + 8 + 1
    }

    /// Reads a key from the front of `buf`.
    pub fn decode(&self, buf: &[u8]) -> (r: Result<LogKey, Error>)
        ensures
            r == self.decoded(buf@),
    {
        if buf.len() < 1 {
            return Err(Error::DecodeLogKey);
        }
        let namespace = buf[0];
        if namespace != self.namespace.to_u8() {
            return Err(Error::InvalidNamespace { expect: self.namespace, given: namespace });
        }
        if buf.len() < 18 {
            return Err(Error::DecodeLogKey);
        }
        let log_key = (get_u64(buf, 1), get_u64(buf, 9));
        let version = buf[17];
        if version != self.version {
            return Err(Error::InvalidVersion { expect: self.version, given: version });
        }
        Ok(log_key)
    }
}

/// Writes log values.
///
/// ```text
/// +--------------------+---------+
/// | version_header(u8) | payload |
/// +--------------------+---------+
/// ```
#[derive(Debug, Clone, Copy)]
pub struct LogValueEncoder {
    pub version: u8,
}

/// What encoding a value returns once the payload has answered: the payload's
/// failure becomes `EncodeLogValuePayload`.
pub fn payload_outcome<E>(res: Result<(), E>) -> (r: Result<(), Error>)
    ensures
        res is Ok ==> r is Ok,
        res is Err ==> r == Err::<(), Error>(Error::EncodeLogValuePayload),
{
    match res {
        Ok(()) => Ok(()),
        Err(_) => Err(Error::EncodeLogValuePayload),
    }
}

impl LogValueEncoder {
    /// The value that holds `payload`.
    pub open spec fn encoded(&self, payload: Seq<u8>) -> Seq<u8> {
        seq![self.version] + payload
    }

    /// The encoder of the newest version.
    pub fn newest() -> (e: Self)
        ensures
            e.version == NEWEST_LOG_VALUE_ENCODING_VERSION,
    {
        Self { version: NEWEST_LOG_VALUE_ENCODING_VERSION }
    }

    /// Appends the version and then lets the payload append its bytes. Fails
    /// only where the payload does.
    pub fn encode<T: Payload>(&self, buf: &mut Vec<u8>, payload: &T) -> (r: Result<(), Error>)
        ensures
            r is Ok ==> final(buf)@ == old(buf)@ + self.encoded(payload.encoded()),
            r is Err ==> r == Err::<(), Error>(Error::EncodeLogValuePayload),
    {
        buf.push(self.version);
        let res = payload.encode_to(buf);
        proof {
            if res is Ok {
                assert(buf@ =~= old(buf)@ + self.encoded(payload.encoded()));
            }
        }
        payload_outcome(res)
    }

    /// Number of bytes that `encode` appends.
    pub fn estimate_encoded_size<T: Payload>(&self, payload: &T) -> (n: usize)
        requires
            payload.encoded().len() < usize::MAX,
        ensures
            n == self.encoded(payload.encoded()).len(),
    {
        1 + payload.encode_size()
    }
}

/// Reads log values.
#[derive(Debug, Clone, Copy)]
pub struct LogValueDecoder {
    pub version: u8,
}

impl LogValueDecoder {
    /// The payload of the value `s`.
    pub open spec fn decoded(&self, s: Seq<u8>) -> Result<Seq<u8>, Error> {
        if s.len() < 1 {
            Err(Error::DecodeLogValueHeader)
        } else if s[0] != self.version {
            Err(Error::InvalidVersion { expect: self.version, given: s[0] })
        } else {
            Ok(s.subrange(1, s.len() as int))
        }
    }

    /// Checks the version and returns what follows it, without copying.
    pub fn decode<'a>(&self, buf: &'a [u8]) -> (r: Result<&'a [u8], Error>)
        ensures
            match r {
                Ok(payload) => self.decoded(buf@) == Ok::<Seq<u8>, Error>(payload@),
                Err(e) => self.decoded(buf@) == Err::<Seq<u8>, Error>(e),
            },
    {
        if buf.len() < 1 {
            return Err(Error::DecodeLogValueHeader);
        }
        let version = buf[0];
        if version != self.version {
            return Err(Error::InvalidVersion { expect: self.version, given: version });
        }
        Ok(vstd::slice::slice_subrange(buf, 1, buf.len()))
    }
}

/// Second byte of a meta key: what the record holds.
#[derive(Debug, Clone, Copy, PartialEq, Eq, Structural)]
pub enum MetaKeyType {
    MaxSeq,
}

impl MetaKeyType {
    /// The byte that stands for this kind of meta record.
    pub open spec fn byte(self) -> u8 {
        match self {
            MetaKeyType::MaxSeq => 0,
        }
    }

    #[verifier::when_used_as_spec(byte)]
    pub fn to_u8(self) -> (b: u8)
        ensures
            b == self.byte(),
    {
        match self {
            MetaKeyType::MaxSeq => 0,
        }
    }
}

/// Key of a meta record.
#[derive(Debug, Clone, Copy, PartialEq, Eq, Structural)]
pub struct MetaKey {
    pub region_id: RegionId,
}

/// Writes and reads meta keys.
///
/// ```text
/// +---------------+--------------+----------------+--------------------+
/// | namespace(u8) | key_type(u8) | region_id(u64) | version header(u8) |
/// +---------------+--------------+----------------+--------------------+
/// ```
#[derive(Debug, Clone, Copy)]
pub struct MetaKeyEncoder {
    pub version: u8,
    pub key_type: MetaKeyType,
    pub namespace: Namespace,
}

impl MetaKeyEncoder {
    /// The bytes of `key`.
    pub open spec fn encoded(&self, key: MetaKey) -> Seq<u8> {
        seq![self.namespace.byte(), self.key_type.byte()] + u64_bytes(key.region_id) + seq![
            self.version,
        ]
    }

    /// What reading a key from the front of `s` gives.
    pub open spec fn decoded(&self, s: Seq<u8>) -> Result<MetaKey, Error> {
        if s.len() < 1 {
            Err(Error::DecodeMetaKey)
        } else if s[0] != self.namespace.byte() {
            Err(Error::InvalidNamespace { expect: self.namespace, given: s[0] })
        } else if s.len() < 2 {
            Err(Error::DecodeMetaKey)
        } else if s[1] != self.key_type.byte() {
            Err(Error::InvalidMetaKeyType { expect: self.key_type, given: s[1] })
        } else if s.len() < 11 {
            Err(Error::DecodeMetaKey)
        } else if s[10] != self.version {
            Err(Error::InvalidVersion { expect: self.version, given: s[10] })
        } else {
            Ok(MetaKey { region_id: u64_value(s.subrange(2, 10)) })
        }
    }

    /// What `is_valid` answers on `s`.
    pub open spec fn validity(&self, s: Seq<u8>) -> Result<bool, Error> {
        if s.len() < 2 {
            Err(Error::DecodeMetaKey)
        } else {
            Ok(s[0] == self.namespace.byte() && s[1] == self.key_type.byte())
        }
    }

    /// Whether the bytes are those of a meta key of this kind: looks at the
    /// namespace and at the key type.
    pub fn is_valid(&self, buf: &[u8]) -> (r: Result<bool, Error>)
        ensures
            r == self.validity(buf@),
    {
        if buf.len() < 2 {
            return Err(Error::DecodeMetaKey);
        }
        let namespace = buf[0];
        let key_type = buf[1];
        Ok(namespace == self.namespace.to_u8() && key_type == self.key_type.to_u8())
    }

    /// Appends the bytes of `meta_key` to `buf`.
    pub fn encode(&self, buf: &mut Vec<u8>, meta_key: &MetaKey) -> (r: Result<(), Error>)
        ensures
            r is Ok,
            final(buf)@ == old(buf)@ + self.encoded(*meta_key),
    {
        buf.push(self.namespace.to_u8());
        buf.push(self.key_type.to_u8());
        put_u64(buf, meta_key.region_id);
        buf.push(self.version);
        proof {
            assert(buf@ =~= old(buf)@ + self.encoded(*meta_key));
        }
        Ok(())
    }

    /// Number of bytes that `encode` appends.
    pub fn estimate_encoded_size(&self, meta_key: &MetaKey) -> (n: usize)
        ensures
            n == META_KEY_SIZE,
            n == self.encoded(*meta_key).len(),
    {
        proof {
            lemma_u64_round_trip(meta_key.region_id);
        }
        1 + 1 + 8 + 1
    }

    /// Reads a key from the front of `buf`.
    pub fn decode(&self, buf: &[u8]) -> (r: Result<MetaKey, Error>)
        ensures
            r == self.decoded(buf@),
    {
        if buf.len() < 1 {
            return Err(Error::DecodeMetaKey);
        }
        let namespace = buf[0];
        if namespace != self.namespace.to_u8() {
            return Err(Error::InvalidNamespace { expect: self.namespace, given: namespace });
        }
        if buf.len() < 2 {
            return Err(Error::DecodeMetaKey);
        }
        let key_type = buf[1];
        if key_type != self.key_type.to_u8() {
            return Err(Error::InvalidMetaKeyType { expect: self.key_type, given: key_type });
        }
        if buf.len() < 11 {
            return Err(Error::DecodeMetaKey);
        }
        let region_id = get_u64(buf, 2);
        let version = buf[10];
        if version != self.version {
            return Err(Error::InvalidVersion { expect: self.version, given: version });
        }
        Ok(MetaKey { region_id })
    }
}

/// The largest sequence number of a region, as kept in a meta record.
#[derive(Debug, Clone, Copy, PartialEq, Eq, Structural)]
pub struct MaxSeqMetaValue {
    pub max_seq: SequenceNumber,
}

/// Writes and reads the value of a max-sequence meta record.
///
/// ```text
/// +--------------------+--------------+
/// | version header(u8) | max_seq(u64) |
/// +--------------------+--------------+
/// ```
#[derive(Debug, Clone, Copy)]
pub struct MaxSeqMetaValueEncoder {
    pub version: u8,
}

impl MaxSeqMetaValueEncoder {
    /// The bytes of `value`.
    pub open spec fn encoded(&self, value: MaxSeqMetaValue) -> Seq<u8> {
        seq![self.version] + u64_bytes(value.max_seq)
    }

    /// What reading a value from the front of `s` gives.
    pub open spec fn decoded(&self, s: Seq<u8>) -> Result<MaxSeqMetaValue, Error> {
        if s.len() < 1 {
            Err(Error::DecodeMetaValue)
        } else if s[0] != self.version {
            Err(Error::InvalidVersion { expect: self.version, given: s[0] })
        } else if s.len() < 9 {
            Err(Error::DecodeMetaValue)
        } else {
            Ok(MaxSeqMetaValue { max_seq: u64_value(s.subrange(1, 9)) })
        }
    }

    /// Appends the bytes of `meta_value` to `buf`.
    pub fn encode(&self, buf: &mut Vec<u8>, meta_value: &MaxSeqMetaValue) -> (r: Result<
        (),
        Error,
    >)
        ensures
            r is Ok,
            final(buf)@ == old(buf)@ + self.encoded(*meta_value),
    {
        buf.push(self.version);
        put_u64(buf, meta_value.max_seq);
        proof {
            assert(buf@ =~= old(buf)@ + self.encoded(*meta_value));
        }
        Ok(())
    }

    /// Number of bytes that `encode` appends.
    pub fn estimate_encoded_size(&self, meta_value: &MaxSeqMetaValue) -> (n: usize)
        ensures
            n == MAX_SEQ_META_VALUE_SIZE,
            n == self.encoded(*meta_value).len(),
    {
        proof {
            lemma_u64_round_trip(meta_value.max_seq);
        }
        1 + 8
    }

    /// Reads a value from the front of `buf`.
    pub fn decode(&self, buf: &[u8]) -> (r: Result<MaxSeqMetaValue, Error>)
        ensures
            r == self.decoded(buf@),
    {
        if buf.len() < 1 {
            return Err(Error::DecodeMetaValue);
        }
        let version = buf[0];
        if version != self.version {
            return Err(Error::InvalidVersion { expect: self.version, given: version });
        }
        if buf.len() < 9 {
            return Err(Error::DecodeMetaValue);
        }
        let max_seq = get_u64(buf, 1);
        Ok(MaxSeqMetaValue { max_seq })
    }
}

/// Wraps a failure to encode as the log reports it.
pub fn encoding_failure<T>(res: Result<T, Error>) -> (r: Result<T, manager::Error>)
    ensures
        r == match res {
            Ok(v) => Ok::<T, manager::Error>(v),
            Err(e) => Err::<T, manager::Error>(manager::Error::Encoding { source: e }),
        },
{
    match res {
        Ok(v) => Ok(v),
        Err(e) => Err(manager::Error::Encoding { source: e }),
    }
}

/// Wraps a failure to decode as the log reports it.
pub fn decoding_failure<T>(res: Result<T, Error>) -> (r: Result<T, manager::Error>)
    ensures
        r == match res {
            Ok(v) => Ok::<T, manager::Error>(v),
            Err(e) => Err::<T, manager::Error>(manager::Error::Decoding { source: e }),
        },
{
    match res {
        Ok(v) => Ok(v),
        Err(e) => Err(manager::Error::Decoding { source: e }),
    }
}

/// Key and value formats of the max-sequence meta record.
#[derive(Debug, Clone, Copy)]
pub struct MaxSeqMetaEncoding {
    pub key_enc: MetaKeyEncoder,
    pub value_enc: MaxSeqMetaValueEncoder,
}

impl MaxSeqMetaEncoding {
    /// The formats of the newest version.
    pub fn newest() -> (e: Self)
        ensures
            e.key_enc.version == NEWEST_META_KEY_ENCODING_VERSION,
            e.key_enc.key_type == MetaKeyType::MaxSeq,
            e.key_enc.namespace == Namespace::Meta,
            e.value_enc.version == NEWEST_META_VALUE_ENCODING_VERSION,
    {
        Self {
            key_enc: MetaKeyEncoder {
                version: NEWEST_META_KEY_ENCODING_VERSION,
                key_type: MetaKeyType::MaxSeq,
                namespace: Namespace::Meta,
            },
            value_enc: MaxSeqMetaValueEncoder { version: NEWEST_META_VALUE_ENCODING_VERSION },
        }
    }

    /// Whether the bytes are the key of a max-sequence meta record.
    pub fn is_max_seq_meta_key(&self, buf: &[u8]) -> (r: Result<bool, manager::Error>)
        ensures
            r == match self.key_enc.validity(buf@) {
                Ok(b) => Ok::<bool, manager::Error>(b),
                Err(e) => Err::<bool, manager::Error>(manager::Error::Decoding { source: e }),
            },
    {
        decoding_failure(self.key_enc.is_valid(buf))
    }

    /// Replaces the content of `buf` by the bytes of `meta_key`.
    pub fn encode_key(&self, buf: &mut Vec<u8>, meta_key: &MetaKey) -> (r: Result<
        (),
        manager::Error,
    >)
        ensures
            r is Ok,
            final(buf)@ == self.key_enc.encoded(*meta_key),
    {
        buf.clear();
        buf.reserve(self.key_enc.estimate_encoded_size(meta_key));
        let res = self.key_enc.encode(buf, meta_key);
        proof {
            assert(buf@ =~= self.key_enc.encoded(*meta_key));
        }
        encoding_failure(res)
    }

    /// Replaces the content of `buf` by the bytes of `meta_value`.
    pub fn encode_value(&self, buf: &mut Vec<u8>, meta_value: &MaxSeqMetaValue) -> (r: Result<
        (),
        manager::Error,
    >)
        ensures
            r is Ok,
            final(buf)@ == self.value_enc.encoded(*meta_value),
    {
        buf.clear();
        buf.reserve(self.value_enc.estimate_encoded_size(meta_value));
        let res = self.value_enc.encode(buf, meta_value);
        proof {
            assert(buf@ =~= self.value_enc.encoded(*meta_value));
        }
        encoding_failure(res)
    }

    /// Reads a meta key from the front of `buf`.
    pub fn decode_key(&self, buf: &[u8]) -> (r: Result<MetaKey, manager::Error>)
        ensures
            r == match self.key_enc.decoded(buf@) {
                Ok(k) => Ok::<MetaKey, manager::Error>(k),
                Err(e) => Err::<MetaKey, manager::Error>(manager::Error::Decoding { source: e }),
            },
    {
        decoding_failure(self.key_enc.decode(buf))
    }

    /// Reads a max-sequence value from the front of `buf`.
    pub fn decode_value(&self, buf: &[u8]) -> (r: Result<MaxSeqMetaValue, manager::Error>)
        ensures
            r == match self.value_enc.decoded(buf@) {
                Ok(v) => Ok::<MaxSeqMetaValue, manager::Error>(v),
                Err(e) => Err::<MaxSeqMetaValue, manager::Error>(
                    manager::Error::Decoding { source: e },
                ),
            },
    {
        decoding_failure(self.value_enc.decode(buf))
    }
}

/// Key and value formats of a log record.
#[derive(Debug, Clone, Copy)]
pub struct LogEncoding {
    pub key_enc: LogKeyEncoder,
    pub value_enc: LogValueEncoder,
    /// Version that values are read with.
    pub value_enc_version: u8,
}

impl LogEncoding {
    /// Whether this is what `newest` returns.
    pub open spec fn is_newest(&self) -> bool {
        &&& self.key_enc.version == NEWEST_LOG_KEY_ENCODING_VERSION
        &&& self.key_enc.namespace == Namespace::Log
        &&& self.value_enc.version == NEWEST_LOG_VALUE_ENCODING_VERSION
        &&& self.value_enc_version == NEWEST_LOG_VALUE_ENCODING_VERSION
    }

    /// The decoder that values are read with.
    pub open spec fn value_dec(&self) -> LogValueDecoder {
        LogValueDecoder { version: self.value_enc_version }
    }

    /// The formats of the newest version.
    pub fn newest() -> (e: Self)
        ensures
            e.is_newest(),
    {
        Self {
            key_enc: LogKeyEncoder::newest(),
            value_enc: LogValueEncoder::newest(),
            value_enc_version: NEWEST_LOG_VALUE_ENCODING_VERSION,
        }
    }

    /// Replaces the content of `buf` by the bytes of `log_key`. Keys sort by
    /// region first and by sequence number second, so the smallest and the
    /// largest key of a range are the keys of its ends.
    pub fn encode_key(&self, buf: &mut Vec<u8>, log_key: &LogKey) -> (r: Result<(), Error>)
        ensures
            r is Ok,
            final(buf)@ == self.key_enc.encoded(*log_key),
    {
        buf.clear();
        buf.reserve(self.key_enc.estimate_encoded_size(log_key));
        let res = self.key_enc.encode(buf, log_key);
        proof {
            assert(buf@ =~= self.key_enc.encoded(*log_key));
        }
        res
    }

    /// Replaces the content of `buf` by the value that holds `payload`. Fails
    /// only where the payload does.
    pub fn encode_value<T: Payload>(&self, buf: &mut Vec<u8>, payload: &T) -> (r: Result<
        (),
        Error,
    >)
        requires
            payload.encoded().len() < usize::MAX,
        ensures
            r is Ok ==> final(buf)@ == self.value_enc.encoded(payload.encoded()),
            r is Err ==> r == Err::<(), Error>(Error::EncodeLogValuePayload),
    {
        buf.clear();
        buf.reserve(self.value_enc.estimate_encoded_size(payload));
        let res = self.value_enc.encode(buf, payload);
        proof {
            if res is Ok {
                assert(buf@ =~= self.value_enc.encoded(payload.encoded()));
            }
        }
        res
    }

    /// Whether the bytes are those of a log key: looks at the first byte only.
    pub fn is_log_key(&self, buf: &[u8]) -> (r: Result<bool, Error>)
        ensures
            r == self.key_enc.validity(buf@),
    {
        self.key_enc.is_valid(buf)
    }

    /// Reads a log key from the front of `buf`.
    pub fn decode_key(&self, buf: &[u8]) -> (r: Result<LogKey, Error>)
        ensures
            r == self.key_enc.decoded(buf@),
    {
        self.key_enc.decode(buf)
    }

    /// Checks the version of a value and returns its payload, without copying.
    pub fn decode_value<'a>(&self, buf: &'a [u8]) -> (r: Result<&'a [u8], Error>)
        ensures
            match r {
                Ok(payload) => self.value_dec().decoded(buf@) == Ok::<Seq<u8>, Error>(payload@),
                Err(e) => self.value_dec().decoded(buf@) == Err::<Seq<u8>, Error>(e),
            },
    {
        let value_dec = LogValueDecoder { version: self.value_enc_version };
        value_dec.decode(buf)
    }
}

/// Encodes payloads into the batch that is written to one location.
#[derive(Debug, Clone, Copy)]
pub struct LogBatchEncoder {
    pub location: Location,
    pub log_encoding: LogEncoding,
}

impl LogBatchEncoder {
    /// The encoder of batches that go to `location`.
    pub fn create(location: Location) -> (e: Self)
        ensures
            e.location == location,
            e.log_encoding.is_newest(),
    {
        Self { location, log_encoding: LogEncoding::newest() }
    }

    /// The value that each payload of `payloads` is stored as.
    pub open spec fn values<P: Payload>(&self, payloads: Seq<P>) -> Seq<Seq<u8>> {
        Seq::new(payloads.len(), |i: int| self.log_encoding.value_enc.encoded(payloads[i].encoded()))
    }

    /// The batch that holds the value of `payload` as its one entry. Fails
    /// only where the payload does.
    pub fn encode<P: Payload>(self, payload: &P) -> (r: Result<LogWriteBatch, manager::Error>)
        requires
            payload.encoded().len() < usize::MAX,
        ensures
            r matches Ok(batch) ==> batch.location == self.location && batch.values() == seq![
                self.log_encoding.value_enc.encoded(payload.encoded()),
            ],
            r matches Err(e) ==> e == (manager::Error::Encoding {
                source: Error::EncodeLogValuePayload,
            }),
    {
        let mut write_batch = LogWriteBatch::new(self.location);
        let mut buf: Vec<u8> = Vec::new();
        let res = encoding_failure(self.log_encoding.encode_value(&mut buf, payload));
        match res {
            Ok(()) => {
                write_batch.push(LogWriteEntry { payload: buf });
                proof {
                    assert(write_batch.values() =~= seq![
                        self.log_encoding.value_enc.encoded(payload.encoded()),
                    ]);
                }
                Ok(write_batch)
            },
            Err(e) => Err(e),
        }
    }

    /// The batch that holds the values of `payloads`, one entry for each and
    /// in their order. Fails at the first payload that does; without a
    /// payload nothing can fail.
    pub fn encode_batch<P: Payload>(self, payloads: &[P]) -> (r: Result<
        LogWriteBatch,
        manager::Error,
    >)
        requires
            forall|i: int| 0 <= i < payloads@.len() ==> (#[trigger] payloads@[i]).encoded().len()
                < usize::MAX,
        ensures
            payloads@.len() == 0 ==> r is Ok,
            r matches Ok(batch) ==> batch.location == self.location && batch.values()
                == self.values(payloads@),
            r matches Err(e) ==> e == (manager::Error::Encoding {
                source: Error::EncodeLogValuePayload,
            }),
    {
        let mut write_batch = LogWriteBatch::new(self.location);
        let mut i: usize = 0;
        while i < payloads.len()
            invariant
                i <= payloads@.len(),
                write_batch.location == self.location,
                write_batch.entries@.len() == i,
                forall|j: int| 0 <= j < payloads@.len() ==> (#[trigger] payloads@[j]).encoded().len()
                    < usize::MAX,
                forall|j: int|
                    0 <= j < i ==> (#[trigger] write_batch.entries@[j]).payload@
                        == self.log_encoding.value_enc.encoded(payloads@[j].encoded()),
            decreases payloads@.len() - i,
        {
            let mut buf: Vec<u8> = Vec::new();
            let res = encoding_failure(self.log_encoding.encode_value(&mut buf, &payloads[i]));
            match res {
                Ok(()) => {
                    write_batch.push(LogWriteEntry { payload: buf });
                },
                Err(e) => {
                    return Err(e);
                },
            }
            i += 1;
        }
        proof {
            assert(write_batch.values() =~= self.values(payloads@));
        }
        Ok(write_batch)
    }
}

/// Key of a log record where several tables share a region.
#[derive(Debug, Clone, Copy, PartialEq, Eq, Structural, PartialOrd, Ord)]
pub struct CommonLogKey {
    /// The region of the table: the table itself, its shard, or another group.
    pub region_id: RegionId,
    pub table_id: TableId,
    pub sequence_num: SequenceNumber,
}

impl CommonLogKey {
    pub fn new(region_id: RegionId, table_id: TableId, sequence_num: SequenceNumber) -> (k: Self)
        ensures
            k.region_id == region_id,
            k.table_id == table_id,
            k.sequence_num == sequence_num,
    {
        Self { region_id, table_id, sequence_num }
    }
}

/// The order in which common log keys are meant to sort.
pub open spec fn common_log_key_lt(a: CommonLogKey, b: CommonLogKey) -> bool {
    a.region_id < b.region_id || (a.region_id == b.region_id && (a.table_id < b.table_id || (
    a.table_id == b.table_id && a.sequence_num < b.sequence_num)))
}

/// Writes and reads common log keys.
///
/// ```text
/// +---------------+----------------+---------------+-------------------+--------------------+
/// | namespace(u8) | region_id(u64) | table_id(u64) | sequence_num(u64) | version header(u8) |
/// +---------------+----------------+---------------+-------------------+--------------------+
/// ```
#[derive(Debug, Clone, Copy)]
pub struct CommonLogKeyEncoder {
    pub version: u8,
    pub namespace: Namespace,
}

impl CommonLogKeyEncoder {
    /// The bytes of `key`.
    pub open spec fn encoded(&self, key: CommonLogKey) -> Seq<u8> {
        seq![self.namespace.byte()] + u64_bytes(key.region_id) + u64_bytes(key.table_id)
            + u64_bytes(key.sequence_num) + seq![self.version]
    }

    /// What reading a key from the front of `s` gives. Bytes behind the key
    /// are not looked at.
    pub open spec fn decoded(&self, s: Seq<u8>) -> Result<CommonLogKey, Error> {
        if s.len() < 1 {
            Err(Error::DecodeLogKey)
        } else if s[0] != self.namespace.byte() {
            Err(Error::InvalidNamespace { expect: self.namespace, given: s[0] })
        } else if s.len() < 26 {
            Err(Error::DecodeLogKey)
        } else if s[25] != self.version {
            Err(Error::InvalidVersion { expect: self.version, given: s[25] })
        } else {
            Ok(
                CommonLogKey {
                    region_id: u64_value(s.subrange(1, 9)),
                    table_id: u64_value(s.subrange(9, 17)),
                    sequence_num: u64_value(s.subrange(17, 25)),
                },
            )
        }
    }

    /// What `is_valid` answers on `s`.
    pub open spec fn validity(&self, s: Seq<u8>) -> Result<bool, Error> {
        if s.len() < 1 {
            Err(Error::DecodeLogKey)
        } else {
            Ok(s[0] == self.namespace.byte())
        }
    }

    /// The encoder of the newest version.
    pub fn newest() -> (e: Self)
        ensures
            e.version == NEWEST_LOG_KEY_ENCODING_VERSION,
            e.namespace == Namespace::Log,
    {
        Self { version: NEWEST_LOG_KEY_ENCODING_VERSION, namespace: Namespace::Log }
    }

    /// Whether the bytes are those of a log key: looks at the namespace only,
    /// so that log keys of another shape pass too.
    pub fn is_valid(&self, buf: &[u8]) -> (r: Result<bool, Error>)
        ensures
            r == self.validity(buf@),
    {
        if buf.len() < 1 {
            return Err(Error::DecodeLogKey);
        }
        Ok(buf[0] == self.namespace.to_u8())
    }

    /// Appends the bytes of `log_key` to `buf`.
    pub fn encode(&self, buf: &mut Vec<u8>, log_key: &CommonLogKey) -> (r: Result<(), Error>)
        ensures
            r is Ok,
            final(buf)@ == old(buf)@ + self.encoded(*log_key),
    {
        buf.push(self.namespace.to_u8());
        put_u64(buf, log_key.region_id);
        put_u64(buf, log_key.table_id);
        put_u64(buf, log_key.sequence_num);
        buf.push(self.version);
        proof {
            assert(buf@ =~= old(buf)@ + self.encoded(*log_key));
        }
        Ok(())
    }

    /// Number of bytes that `encode` appends.
    pub fn estimate_encoded_size(&self, log_key: &CommonLogKey) -> (n: usize)
        ensures
            n == COMMON_LOG_KEY_SIZE,
            n == self.encoded(*log_key).len(),
    {
        proof {
            lemma_u64_round_trip(log_key.region_id);
            lemma_u64_round_trip(log_key.table_id);
            lemma_u64_round_trip(log_key.sequence_num);
        }
        1 + 8 + 8 + 8 + 1
    }

    /// Reads a key from the front of `buf`.
    pub fn decode(&self, buf: &[u8]) -> (r: Result<CommonLogKey, Error>)
        ensures
            r == self.decoded(buf@),
    {
        if buf.len() < 1 {
            return Err(Error::DecodeLogKey);
        }
        let namespace = buf[0];
        if namespace != self.namespace.to_u8() {
            return Err(Error::InvalidNamespace { expect: self.namespace, given: namespace });
        }
        if buf.len() < 26 {
            return Err(Error::DecodeLogKey);
        }
        let log_key = CommonLogKey {
            region_id: get_u64(buf, 1),
            table_id: get_u64(buf, 9),
            sequence_num: get_u64(buf, 17),
        };
        let version = buf[25];
        if version != self.version {
            return Err(Error::InvalidVersion { expect: self.version, given: version });
        }
        Ok(log_key)
    }
}

/// Key and value formats of a log record with a common log key.
#[derive(Debug, Clone, Copy)]
pub struct CommonLogEncoding {
    pub key_enc: CommonLogKeyEncoder,
    pub value_enc: LogValueEncoder,
    /// Version that values are read with.
    pub value_enc_version: u8,
}

impl CommonLogEncoding {
    /// Whether this is what `newest` returns.
    pub open spec fn is_newest(&self) -> bool {
        &&& self.key_enc.version == NEWEST_LOG_KEY_ENCODING_VERSION
        &&& self.key_enc.namespace == Namespace::Log
        &&& self.value_enc.version == NEWEST_LOG_VALUE_ENCODING_VERSION
        &&& self.value_enc_version == NEWEST_LOG_VALUE_ENCODING_VERSION
    }

    /// The decoder that values are read with.
    pub open spec fn value_dec(&self) -> LogValueDecoder {
        LogValueDecoder { version: self.value_enc_version }
    }

    /// The formats of the newest version.
    pub fn newest() -> (e: Self)
        ensures
            e.is_newest(),
    {
        Self {
            key_enc: CommonLogKeyEncoder::newest(),
            value_enc: LogValueEncoder::newest(),
            value_enc_version: NEWEST_LOG_VALUE_ENCODING_VERSION,
        }
    }

    /// Replaces the content of `buf` by the bytes of `log_key`. Keys sort by
    /// region, then by table, then by sequence number.
    pub fn encode_key(&self, buf: &mut Vec<u8>, log_key: &CommonLogKey) -> (r: Result<
        (),
        Error,
    >)
        ensures
            r is Ok,
            final(buf)@ == self.key_enc.encoded(*log_key),
    {
        buf.clear();
        buf.reserve(self.key_enc.estimate_encoded_size(log_key));
        let res = self.key_enc.encode(buf, log_key);
        proof {
            assert(buf@ =~= self.key_enc.encoded(*log_key));
        }
        res
    }

    /// Replaces the content of `buf` by the value that holds `payload`. Fails
    /// only where the payload does.
    pub fn encode_value<T: Payload>(&self, buf: &mut Vec<u8>, payload: &T) -> (r: Result<
        (),
        Error,
    >)
        requires
            payload.encoded().len() < usize::MAX,
        ensures
            r is Ok ==> final(buf)@ == self.value_enc.encoded(payload.encoded()),
            r is Err ==> r == Err::<(), Error>(Error::EncodeLogValuePayload),
    {
        buf.clear();
        buf.reserve(self.value_enc.estimate_encoded_size(payload));
        let res = self.value_enc.encode(buf, payload);
        proof {
            if res is Ok {
                assert(buf@ =~= self.value_enc.encoded(payload.encoded()));
            }
        }
        res
    }

    /// Whether the bytes are those of a log key: looks at the first byte only.
    pub fn is_log_key(&self, buf: &[u8]) -> (r: Result<bool, Error>)
        ensures
            r == self.key_enc.validity(buf@),
    {
        self.key_enc.is_valid(buf)
    }

    /// Reads a common log key from the front of `buf`.
    pub fn decode_key(&self, buf: &[u8]) -> (r: Result<CommonLogKey, Error>)
        ensures
            r == self.key_enc.decoded(buf@),
    {
        self.key_enc.decode(buf)
    }

    /// Checks the version of a value and returns its payload, without copying.
    pub fn decode_value<'a>(&self, buf: &'a [u8]) -> (r: Result<&'a [u8], Error>)
        ensures
            match r {
                Ok(payload) => self.value_dec().decoded(buf@) == Ok::<Seq<u8>, Error>(payload@),
                Err(e) => self.value_dec().decoded(buf@) == Err::<Seq<u8>, Error>(e),
            },
    {
        let value_dec = LogValueDecoder { version: self.value_enc_version };
        value_dec.decode(buf)
    }
}

/// A log key that is encoded and decoded again is the same key.
pub proof fn lemma_log_key_round_trip(enc: LogKeyEncoder, key: LogKey)
    ensures
        enc.encoded(key).len() == LOG_KEY_SIZE,
        enc.decoded(enc.encoded(key)) == Ok::<LogKey, Error>(key),
{
    let s = enc.encoded(key);
    lemma_u64_round_trip(key.0);
    lemma_u64_round_trip(key.1);
    assert(s.subrange(1, 9) =~= u64_bytes(key.0));
    assert(s.subrange(9, 17) =~= u64_bytes(key.1));
}

/// Bytes that decode as a log key start with the encoding of that key.
pub proof fn lemma_log_key_decoded_is_prefix(enc: LogKeyEncoder, s: Seq<u8>)
    requires
        enc.decoded(s) is Ok,
    ensures
        s.len() >= LOG_KEY_SIZE,
        s.subrange(0, LOG_KEY_SIZE as int) == enc.encoded(enc.decoded(s).unwrap()),
{
    let key = enc.decoded(s).unwrap();
    lemma_u64_bytes_of_value(s.subrange(1, 9));
    lemma_u64_bytes_of_value(s.subrange(9, 17));
    lemma_u64_round_trip(key.0);
    lemma_u64_round_trip(key.1);
    assert(s.subrange(0, 18) =~= enc.encoded(key));
}

/// A common log key that is encoded and decoded again is the same key.
pub proof fn lemma_common_log_key_round_trip(enc: CommonLogKeyEncoder, key: CommonLogKey)
    ensures
        enc.encoded(key).len() == COMMON_LOG_KEY_SIZE,
        enc.decoded(enc.encoded(key)) == Ok::<CommonLogKey, Error>(key),
{
    let s = enc.encoded(key);
    lemma_u64_round_trip(key.region_id);
    lemma_u64_round_trip(key.table_id);
    lemma_u64_round_trip(key.sequence_num);
    assert(s.subrange(1, 9) =~= u64_bytes(key.region_id));
    assert(s.subrange(9, 17) =~= u64_bytes(key.table_id));
    assert(s.subrange(17, 25) =~= u64_bytes(key.sequence_num));
}

/// A meta key that is encoded and decoded again is the same key.
pub proof fn lemma_meta_key_round_trip(enc: MetaKeyEncoder, key: MetaKey)
    ensures
        enc.encoded(key).len() == META_KEY_SIZE,
        enc.decoded(enc.encoded(key)) == Ok::<MetaKey, Error>(key),
        enc.validity(enc.encoded(key)) == Ok::<bool, Error>(true),
{
    let s = enc.encoded(key);
    lemma_u64_round_trip(key.region_id);
    assert(s.subrange(2, 10) =~= u64_bytes(key.region_id));
}

/// A max-sequence value that is encoded and decoded again is the same value.
pub proof fn lemma_max_seq_meta_value_round_trip(
    enc: MaxSeqMetaValueEncoder,
    value: MaxSeqMetaValue,
)
    ensures
        enc.encoded(value).len() == MAX_SEQ_META_VALUE_SIZE,
        enc.decoded(enc.encoded(value)) == Ok::<MaxSeqMetaValue, Error>(value),
{
    let s = enc.encoded(value);
    lemma_u64_round_trip(value.max_seq);
    assert(s.subrange(1, 9) =~= u64_bytes(value.max_seq));
}

/// A payload that is written as a value and read with the same version comes
/// back byte for byte.
pub proof fn lemma_log_value_round_trip(version: u8, payload: Seq<u8>)
    ensures
        (LogValueDecoder { version }).decoded((LogValueEncoder { version }).encoded(payload))
            == Ok::<Seq<u8>, Error>(payload),
{
    let s = (LogValueEncoder { version }).encoded(payload);
    assert(s.subrange(1, s.len() as int) =~= payload);
}

/// The byte order of encoded log keys is the order of the keys: by region
/// first, by sequence number second.
pub proof fn lemma_log_key_order(enc: LogKeyEncoder, k1: LogKey, k2: LogKey)
    ensures
        lex_lt(enc.encoded(k1), enc.encoded(k2)) <==> log_key_lt(k1, k2),
{
    let ns = seq![enc.namespace.byte()];
    let ver = seq![enc.version];
    let r1 = u64_bytes(k1.0);
    let r2 = u64_bytes(k2.0);
    let s1 = u64_bytes(k1.1);
    let s2 = u64_bytes(k2.1);
    lemma_u64_round_trip(k1.0);
    lemma_u64_round_trip(k2.0);
    lemma_u64_round_trip(k1.1);
    lemma_u64_round_trip(k2.1);
    lemma_lex_lt_concat(ns + r1 + s1, ns + r2 + s2, ver, ver);
    lemma_lex_lt_concat(ns + r1, ns + r2, s1, s2);
    lemma_lex_lt_concat(ns, ns, r1, r2);
    lemma_u64_bytes_order(k1.0, k2.0);
    lemma_u64_bytes_order(k1.1, k2.1);
    assert(!lex_lt(ver, ver));
    assert(!lex_lt(ns, ns));
    if ns + r1 == ns + r2 {
        assert(r1 =~= (ns + r1).subrange(1, 9));
        assert(r2 =~= (ns + r2).subrange(1, 9));
        lemma_u64_bytes_injective(k1.0, k2.0);
    }
    if ns + r1 + s1 == ns + r2 + s2 {
        assert(ns + r1 =~= (ns + r1 + s1).subrange(0, 9));
        assert(ns + r2 =~= (ns + r2 + s2).subrange(0, 9));
    }
}

/// Keys of one region sort by their sequence numbers.
pub proof fn lemma_log_key_order_in_region(
    enc: LogKeyEncoder,
    region_id: RegionId,
    s1: SequenceNumber,
    s2: SequenceNumber,
)
    requires
        s1 < s2,
    ensures
        lex_lt(enc.encoded((region_id, s1)), enc.encoded((region_id, s2))),
{
    lemma_log_key_order(enc, (region_id, s1), (region_id, s2));
}

/// The byte order of encoded common log keys is the order of the keys: by
/// region, then by table, then by sequence number.
pub proof fn lemma_common_log_key_order(
    enc: CommonLogKeyEncoder,
    k1: CommonLogKey,
    k2: CommonLogKey,
)
    ensures
        lex_lt(enc.encoded(k1), enc.encoded(k2)) <==> common_log_key_lt(k1, k2),
{
    let ns = seq![enc.namespace.byte()];
    let ver = seq![enc.version];
    let r1 = u64_bytes(k1.region_id);
    let r2 = u64_bytes(k2.region_id);
    let t1 = u64_bytes(k1.table_id);
    let t2 = u64_bytes(k2.table_id);
    let s1 = u64_bytes(k1.sequence_num);
    let s2 = u64_bytes(k2.sequence_num);
    lemma_u64_round_trip(k1.region_id);
    lemma_u64_round_trip(k2.region_id);
    lemma_u64_round_trip(k1.table_id);
    lemma_u64_round_trip(k2.table_id);
    lemma_u64_round_trip(k1.sequence_num);
    lemma_u64_round_trip(k2.sequence_num);
    lemma_lex_lt_concat(ns + r1 + t1 + s1, ns + r2 + t2 + s2, ver, ver);
    lemma_lex_lt_concat(ns + r1 + t1, ns + r2 + t2, s1, s2);
    lemma_lex_lt_concat(ns + r1, ns + r2, t1, t2);
    lemma_lex_lt_concat(ns, ns, r1, r2);
    lemma_u64_bytes_order(k1.region_id, k2.region_id);
    lemma_u64_bytes_order(k1.table_id, k2.table_id);
    lemma_u64_bytes_order(k1.sequence_num, k2.sequence_num);
    assert(!lex_lt(ver, ver));
    assert(!lex_lt(ns, ns));
    if ns + r1 == ns + r2 {
        assert(r1 =~= (ns + r1).subrange(1, 9));
        assert(r2 =~= (ns + r2).subrange(1, 9));
        lemma_u64_bytes_injective(k1.region_id, k2.region_id);
    }
    if ns + r1 + t1 == ns + r2 + t2 {
        assert(ns + r1 =~= (ns + r1 + t1).subrange(0, 9));
        assert(ns + r2 =~= (ns + r2 + t2).subrange(0, 9));
        assert(t1 =~= (ns + r1 + t1).subrange(9, 17));
        assert(t2 =~= (ns + r2 + t2).subrange(9, 17));
        lemma_u64_bytes_injective(k1.table_id, k2.table_id);
    }
    if ns + r1 + t1 + s1 == ns + r2 + t2 + s2 {
        assert(ns + r1 + t1 =~= (ns + r1 + t1 + s1).subrange(0, 17));
        assert(ns + r2 + t2 =~= (ns + r2 + t2 + s2).subrange(0, 17));
    }
}

/// Keys of one table in one region sort by their sequence numbers.
pub proof fn lemma_common_log_key_order_in_table(
    enc: CommonLogKeyEncoder,
    region_id: RegionId,
    table_id: TableId,
    s1: SequenceNumber,
    s2: SequenceNumber,
)
    requires
        s1 < s2,
    ensures
        lex_lt(
            enc.encoded(CommonLogKey { region_id, table_id, sequence_num: s1 }),
            enc.encoded(CommonLogKey { region_id, table_id, sequence_num: s2 }),
        ),
{
    lemma_common_log_key_order(
        enc,
        CommonLogKey { region_id, table_id, sequence_num: s1 },
        CommonLogKey { region_id, table_id, sequence_num: s2 },
    );
}

/// An encoded log key whose last byte is replaced by another version is
/// refused as `InvalidVersion`.
pub proof fn lemma_log_key_version_rejected(enc: LogKeyEncoder, key: LogKey, given: u8)
    requires
        given != enc.version,
    ensures
        enc.decoded(enc.encoded(key).update(LOG_KEY_SIZE - 1, given)) == Err::<LogKey, Error>(
            Error::InvalidVersion { expect: enc.version, given },
        ),
{
    lemma_log_key_round_trip(enc, key);
}

/// An encoded common log key whose last byte is replaced by another version
/// is refused as `InvalidVersion`.
pub proof fn lemma_common_log_key_version_rejected(
    enc: CommonLogKeyEncoder,
    key: CommonLogKey,
    given: u8,
)
    requires
        given != enc.version,
    ensures
        enc.decoded(enc.encoded(key).update(COMMON_LOG_KEY_SIZE - 1, given)) == Err::<
            CommonLogKey,
            Error,
        >(Error::InvalidVersion { expect: enc.version, given }),
{
    lemma_common_log_key_round_trip(enc, key);
}

/// An encoded meta key whose last byte is replaced by another version is
/// refused as `InvalidVersion`.
pub proof fn lemma_meta_key_version_rejected(enc: MetaKeyEncoder, key: MetaKey, given: u8)
    requires
        given != enc.version,
    ensures
        enc.decoded(enc.encoded(key).update(META_KEY_SIZE - 1, given)) == Err::<MetaKey, Error>(
            Error::InvalidVersion { expect: enc.version, given },
        ),
{
    lemma_meta_key_round_trip(enc, key);
}

/// An encoded value whose first byte is replaced by another version is
/// refused as `InvalidVersion`, whatever it holds.
pub proof fn lemma_value_version_rejected(version: u8, payload: Seq<u8>, given: u8)
    requires
        given != version,
    ensures
        (LogValueDecoder { version }).decoded(
            (LogValueEncoder { version }).encoded(payload).update(0, given),
        ) == Err::<Seq<u8>, Error>(Error::InvalidVersion { expect: version, given }),
{
}

/// An encoded log key whose first byte is replaced by another namespace is
/// refused as `InvalidNamespace`.
pub proof fn lemma_log_key_namespace_rejected(enc: LogKeyEncoder, key: LogKey, given: u8)
    requires
        given != enc.namespace.byte(),
    ensures
        enc.decoded(enc.encoded(key).update(0, given)) == Err::<LogKey, Error>(
            Error::InvalidNamespace { expect: enc.namespace, given },
        ),
{
}

/// A meta key is no log key: the decoder of log keys refuses it as
/// `InvalidNamespace`.
pub proof fn lemma_meta_key_is_no_log_key(
    log_enc: LogKeyEncoder,
    meta_enc: MetaKeyEncoder,
    key: MetaKey,
)
    requires
        log_enc.namespace == Namespace::Log,
        meta_enc.namespace == Namespace::Meta,
    ensures
        log_enc.decoded(meta_enc.encoded(key)) == Err::<LogKey, Error>(
            Error::InvalidNamespace { expect: Namespace::Log, given: Namespace::Meta.byte() },
        ),
        log_enc.validity(meta_enc.encoded(key)) == Ok::<bool, Error>(false),
{
}

/// A log key is no meta key: the decoder of meta keys refuses it as
/// `InvalidNamespace`.
pub proof fn lemma_log_key_is_no_meta_key(
    log_enc: LogKeyEncoder,
    meta_enc: MetaKeyEncoder,
    key: LogKey,
)
    requires
        log_enc.namespace == Namespace::Log,
        meta_enc.namespace == Namespace::Meta,
    ensures
        meta_enc.decoded(log_enc.encoded(key)) == Err::<MetaKey, Error>(
            Error::InvalidNamespace { expect: Namespace::Meta, given: Namespace::Log.byte() },
        ),
{
}

} // verus!
