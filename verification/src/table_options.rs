//! Options of a table that are written down as words: how writes to one key
//! combine, how data is compressed, and how it is laid out in storage.

use vstd::prelude::*;
use vstd::string::StrSliceExecFns;

verus! {

pub const UPDATE_MODE: &'static str = "update_mode";

pub const COMPRESSION: &'static str = "compression";

pub const STORAGE_FORMAT: &'static str = "storage_format";

pub const UPDATE_MODE_OVERWRITE: &'static str = "OVERWRITE";

pub const UPDATE_MODE_APPEND: &'static str = "APPEND";

pub const COMPRESSION_UNCOMPRESSED: &'static str = "UNCOMPRESSED";

pub const COMPRESSION_LZ4: &'static str = "LZ4";

pub const COMPRESSION_SNAPPY: &'static str = "SNAPPY";

pub const COMPRESSION_ZSTD: &'static str = "ZSTD";

pub const STORAGE_FORMAT_COLUMNAR: &'static str = "COLUMNAR";

pub const STORAGE_FORMAT_HYBRID: &'static str = "HYBRID";

/// A word that names no option.
#[derive(Debug, Clone, PartialEq, Eq)]
pub enum Error {
    ParseUpdateMode { s: String },
    ParseCompressionName { name: String },
    UnknownStorageFormat { value: String },
}

/// The number of `c`, with the small letters of ASCII taken as capitals.
pub open spec fn folded(c: char) -> u32 {
    if 'a' <= c <= 'z' {
        (c as u32 - 32) as u32
    } else {
        c as u32
    }
}

/// Whether two strings are the same but for the case of their ASCII letters.
pub open spec fn same_ignoring_ascii_case(a: Seq<char>, b: Seq<char>) -> bool {
    &&& a.len() == b.len()
    &&& forall|i: int| 0 <= i < a.len() ==> folded(a[i]) == folded(b[i])
}

fn fold(c: char) -> (code: u32)
    ensures
        code == folded(c),
{
    let code = c as u32;
    if 97 <= code && code <= 122 {
        code - 32
    } else {
        code
    }
}

/// Whether two strings are the same but for the case of their ASCII letters.
pub fn eq_ignore_ascii_case(a: &str, b: &str) -> (same: bool)
    ensures
        same == same_ignoring_ascii_case(a@, b@),
{
    let len = a.unicode_len();
    if len != b.unicode_len() {
        return false;
    }
    let mut i: usize = 0;
    while i < len
        invariant
            i <= len,
            len == a@.len(),
            len == b@.len(),
            forall|j: int| 0 <= j < i ==> folded(a@[j]) == folded(b@[j]),
        decreases len - i,
    {
        if fold(a.get_char(i)) != fold(b.get_char(i)) {
            return false;
        }
        i += 1;
    }
    true
}

/// Whether two strings are the same.
pub fn eq_str(a: &str, b: &str) -> (same: bool)
    ensures
        same == (a@ == b@),
{
    let len = a.unicode_len();
    if len != b.unicode_len() {
        return false;
    }
    let mut i: usize = 0;
    while i < len
        invariant
            i <= len,
            len == a@.len(),
            len == b@.len(),
            forall|j: int| 0 <= j < i ==> a@[j] == b@[j],
        decreases len - i,
    {
        if a.get_char(i) != b.get_char(i) {
            return false;
        }
        i += 1;
    }
    proof {
        assert(a@ =~= b@);
    }
    true
}

/// What becomes of a row that is written under a key that holds a row.
#[derive(Debug, Clone, Copy, PartialEq, Eq, Structural)]
pub enum UpdateMode {
    /// The new row takes the place of the old one.
    Overwrite,
    /// Both rows are kept.
    Append,
}

impl UpdateMode {
    /// The mode that `s` names, whatever the case of its letters.
    pub open spec fn parsed(s: Seq<char>) -> Option<UpdateMode> {
        if same_ignoring_ascii_case(s, UPDATE_MODE_OVERWRITE@) {
            Some(UpdateMode::Overwrite)
        } else if same_ignoring_ascii_case(s, UPDATE_MODE_APPEND@) {
            Some(UpdateMode::Append)
        } else {
            None
        }
    }

    /// The word for this mode.
    pub open spec fn name(self) -> Seq<char> {
        match self {
            UpdateMode::Append => UPDATE_MODE_APPEND@,
            UpdateMode::Overwrite => UPDATE_MODE_OVERWRITE@,
        }
    }

    /// The mode that `s` names, whatever the case of its letters.
    pub fn parse_from(s: &str) -> (r: Result<Self, Error>)
        ensures
            match r {
                Ok(mode) => Self::parsed(s@) == Some(mode),
                Err(e) => Self::parsed(s@) is None && (e matches Error::ParseUpdateMode { s: given }
                    && given@ == s@),
            },
    {
        if eq_ignore_ascii_case(s, UPDATE_MODE_OVERWRITE) {
            Ok(UpdateMode::Overwrite)
        } else if eq_ignore_ascii_case(s, UPDATE_MODE_APPEND) {
            Ok(UpdateMode::Append)
        } else {
            Err(Error::ParseUpdateMode { s: s.to_owned() })
        }
    }

    /// The word for this mode.
    pub fn to_string(&self) -> (s: String)
        ensures
            s@ == self.name(),
    {
        match self {
            UpdateMode::Append => UPDATE_MODE_APPEND.to_owned(),
            UpdateMode::Overwrite => UPDATE_MODE_OVERWRITE.to_owned(),
        }
    }
}

/// How the data of a table is compressed.
#[derive(Debug, Clone, Copy, PartialEq, Eq, Structural)]
pub enum Compression {
    Uncompressed,
    Lz4,
    Snappy,
    Zstd,
}

impl Compression {
    /// The compression that `name` names, whatever the case of its letters.
    pub open spec fn parsed(name: Seq<char>) -> Option<Compression> {
        if same_ignoring_ascii_case(name, COMPRESSION_UNCOMPRESSED@) {
            Some(Compression::Uncompressed)
        } else if same_ignoring_ascii_case(name, COMPRESSION_LZ4@) {
            Some(Compression::Lz4)
        } else if same_ignoring_ascii_case(name, COMPRESSION_SNAPPY@) {
            Some(Compression::Snappy)
        } else if same_ignoring_ascii_case(name, COMPRESSION_ZSTD@) {
            Some(Compression::Zstd)
        } else {
            None
        }
    }

    /// The word for this compression.
    pub open spec fn name(self) -> Seq<char> {
        match self {
            Compression::Uncompressed => COMPRESSION_UNCOMPRESSED@,
            Compression::Lz4 => COMPRESSION_LZ4@,
            Compression::Snappy => COMPRESSION_SNAPPY@,
            Compression::Zstd => COMPRESSION_ZSTD@,
        }
    }

    /// The compression that `name` names, whatever the case of its letters.
    pub fn parse_from(name: &str) -> (r: Result<Self, Error>)
        ensures
            match r {
                Ok(compression) => Self::parsed(name@) == Some(compression),
                Err(e) => Self::parsed(name@) is None && (e matches Error::ParseCompressionName {
                    name: given,
                } && given@ == name@),
            },
    {
        if eq_ignore_ascii_case(name, COMPRESSION_UNCOMPRESSED) {
            Ok(Compression::Uncompressed)
        } else if eq_ignore_ascii_case(name, COMPRESSION_LZ4) {
            Ok(Compression::Lz4)
        } else if eq_ignore_ascii_case(name, COMPRESSION_SNAPPY) {
            Ok(Compression::Snappy)
        } else if eq_ignore_ascii_case(name, COMPRESSION_ZSTD) {
            Ok(Compression::Zstd)
        } else {
            Err(Error::ParseCompressionName { name: name.to_owned() })
        }
    }

    /// The word for this compression.
    pub fn to_string(&self) -> (s: String)
        ensures
            s@ == self.name(),
    {
        match self {
            Compression::Uncompressed => COMPRESSION_UNCOMPRESSED.to_owned(),
            Compression::Lz4 => COMPRESSION_LZ4.to_owned(),
            Compression::Snappy => COMPRESSION_SNAPPY.to_owned(),
            Compression::Zstd => COMPRESSION_ZSTD.to_owned(),
        }
    }
}

/// How records are laid out in persistent storage.
#[derive(Debug, Clone, Copy, PartialEq, Eq, Structural)]
pub enum StorageFormat {
    /// Every column of the table is one column in storage:
    ///
    /// ```plaintext
    /// | Timestamp | Device ID | Status Code | Tag 1 | Tag 2 |
    /// | --------- |---------- | ----------- | ----- | ----- |
    /// | 12:01     | A         | 0           | v1    | v1    |
    /// | 12:01     | B         | 0           | v2    | v2    |
    /// | 12:02     | A         | 0           | v1    | v1    |
    /// | 12:02     | B         | 1           | v2    | v2    |
    /// ```
    Columnar,
    /// For time series: the collapsible columns of the rows of one primary
    /// key are gathered into lists, the other columns are kept as they are:
    ///
    /// ```plaintext
    /// | Device ID | Timestamp           | Status Code | Tag 1 | Tag 2 |
    /// |-----------|---------------------|-------------|-------|-------|
    /// | A         | [12:01,12:02,12:03] | [0,0,0]     | v1    | v1    |
    /// | B         | [12:01,12:02,12:03] | [0,1,0]     | v2    | v2    |
    /// ```
    Hybrid,
}

/// The string that `str::to_uppercase` of std makes of `s`: every character
/// in its uppercase form, by the tables of Unicode.
pub uninterp spec fn uppercase_of(s: Seq<char>) -> Seq<char>;

/// `str::to_uppercase` of std: the uppercase form of `s`, as a new string.
#[verifier::external_body]
fn to_uppercase(s: &str) -> (upper: String)
    ensures
        upper@ == uppercase_of(s@),
{
    s.to_uppercase()
}

impl StorageFormat {
    /// The format that a word in capitals names.
    pub open spec fn named(upper: Seq<char>) -> Option<StorageFormat> {
        if upper == STORAGE_FORMAT_COLUMNAR@ {
            Some(StorageFormat::Columnar)
        } else if upper == STORAGE_FORMAT_HYBRID@ {
            Some(StorageFormat::Hybrid)
        } else {
            None
        }
    }

    /// The word for this format.
    pub open spec fn name(self) -> Seq<char> {
        match self {
            StorageFormat::Columnar => STORAGE_FORMAT_COLUMNAR@,
            StorageFormat::Hybrid => STORAGE_FORMAT_HYBRID@,
        }
    }

    /// The format that `upper` names, where `upper` is `value` in capitals;
    /// refused with `value` where it names none.
    pub fn from_uppercase(upper: &str, value: &str) -> (r: Result<Self, Error>)
        ensures
            match r {
                Ok(format) => Self::named(upper@) == Some(format),
                Err(e) => Self::named(upper@) is None && (e matches Error::UnknownStorageFormat {
                    value: given,
                } && given@ == value@),
            },
    {
        if eq_str(upper, STORAGE_FORMAT_COLUMNAR) {
            Ok(StorageFormat::Columnar)
        } else if eq_str(upper, STORAGE_FORMAT_HYBRID) {
            Ok(StorageFormat::Hybrid)
        } else {
            Err(Error::UnknownStorageFormat { value: value.to_owned() })
        }
    }

    /// The format that `value` names, whatever the case of its letters.
    pub fn try_from(value: &str) -> (r: Result<Self, Error>)
        ensures
            match r {
                Ok(format) => Self::named(uppercase_of(value@)) == Some(format),
                Err(e) => Self::named(uppercase_of(value@)) is None && (
                e matches Error::UnknownStorageFormat { value: given } && given@ == value@),
            },
    {
        let upper = to_uppercase(value);
        Self::from_uppercase(upper.as_str(), value)
    }

    /// The word for this format.
    pub fn to_string(&self) -> (s: String)
        ensures
            s@ == self.name(),
    {
        match self {
            StorageFormat::Columnar => STORAGE_FORMAT_COLUMNAR.to_owned(),
            StorageFormat::Hybrid => STORAGE_FORMAT_HYBRID.to_owned(),
        }
    }
}

impl Default for StorageFormat {
    fn default() -> (format: Self)
        ensures
            format == StorageFormat::Columnar,
    {
        StorageFormat::Columnar
    }
}

/// A storage format and the columns that it collapses.
#[derive(Debug, Clone, PartialEq, Eq)]
pub struct StorageFormatOptions {
    pub format: StorageFormat,
    pub collapsible_cols_idx: Vec<u32>,
}

impl StorageFormatOptions {
    /// The options of `format` with no column to collapse.
    pub fn new(format: StorageFormat) -> (options: Self)
        ensures
            options.format == format,
            options.collapsible_cols_idx@.len() == 0,
    {
        Self { format, collapsible_cols_idx: Vec::new() }
    }
}

impl Default for StorageFormatOptions {
    fn default() -> (options: Self)
        ensures
            options.format == StorageFormat::Columnar,
            options.collapsible_cols_idx@.len() == 0,
    {
        Self { format: StorageFormat::Columnar, collapsible_cols_idx: Vec::new() }
    }
}

} // verus!
