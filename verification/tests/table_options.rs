use wal::table_options::{
    eq_ignore_ascii_case, eq_str, Compression, Error, StorageFormat, StorageFormatOptions,
    UpdateMode,
};

#[test]
fn update_mode_is_parsed_whatever_the_case() {
    assert_eq!(UpdateMode::parse_from("OVERWRITE"), Ok(UpdateMode::Overwrite));
    assert_eq!(UpdateMode::parse_from("overwrite"), Ok(UpdateMode::Overwrite));
    assert_eq!(UpdateMode::parse_from("Append"), Ok(UpdateMode::Append));
    assert_eq!(
        UpdateMode::parse_from("appendix"),
        Err(Error::ParseUpdateMode {
            s: "appendix".to_string()
        })
    );
    assert_eq!(
        UpdateMode::parse_from(""),
        Err(Error::ParseUpdateMode { s: String::new() })
    );
    assert_eq!(UpdateMode::Overwrite.to_string(), "OVERWRITE");
    assert_eq!(UpdateMode::Append.to_string(), "APPEND");
    for mode in [UpdateMode::Overwrite, UpdateMode::Append] {
        assert_eq!(UpdateMode::parse_from(&mode.to_string()), Ok(mode));
    }
}

#[test]
fn compression_is_parsed_whatever_the_case() {
    assert_eq!(
        Compression::parse_from("uncompressed"),
        Ok(Compression::Uncompressed)
    );
    assert_eq!(Compression::parse_from("lz4"), Ok(Compression::Lz4));
    assert_eq!(Compression::parse_from("Snappy"), Ok(Compression::Snappy));
    assert_eq!(Compression::parse_from("ZSTD"), Ok(Compression::Zstd));
    assert_eq!(
        Compression::parse_from("gzip"),
        Err(Error::ParseCompressionName {
            name: "gzip".to_string()
        })
    );
    for compression in [
        Compression::Uncompressed,
        Compression::Lz4,
        Compression::Snappy,
        Compression::Zstd,
    ] {
        assert_eq!(
            Compression::parse_from(&compression.to_string()),
            Ok(compression)
        );
    }
    assert_eq!(Compression::Zstd.to_string(), "ZSTD");
}

#[test]
fn storage_format_is_parsed_in_capitals() {
    assert_eq!(StorageFormat::try_from("columnar"), Ok(StorageFormat::Columnar));
    assert_eq!(StorageFormat::try_from("HYBRID"), Ok(StorageFormat::Hybrid));
    assert_eq!(StorageFormat::try_from("Hybrid"), Ok(StorageFormat::Hybrid));
    assert_eq!(
        StorageFormat::try_from("rows"),
        Err(Error::UnknownStorageFormat {
            value: "rows".to_string()
        })
    );
    // The word is compared as it is once it stands in capitals.
    assert_eq!(
        StorageFormat::from_uppercase("hybrid", "hybrid"),
        Err(Error::UnknownStorageFormat {
            value: "hybrid".to_string()
        })
    );
    assert_eq!(
        StorageFormat::from_uppercase("COLUMNAR", "columnar"),
        Ok(StorageFormat::Columnar)
    );
    assert_eq!(StorageFormat::default(), StorageFormat::Columnar);
    assert_eq!(StorageFormat::Hybrid.to_string(), "HYBRID");
    assert_eq!(StorageFormat::Columnar.to_string(), "COLUMNAR");

    let options = StorageFormatOptions::new(StorageFormat::Hybrid);
    assert_eq!(options.format, StorageFormat::Hybrid);
    assert!(options.collapsible_cols_idx.is_empty());
    assert_eq!(
        StorageFormatOptions::default(),
        StorageFormatOptions::new(StorageFormat::Columnar)
    );
}

#[test]
fn strings_are_compared_letter_by_letter() {
    assert!(eq_ignore_ascii_case("aZ09_", "Az09_"));
    assert!(!eq_ignore_ascii_case("abc", "abd"));
    assert!(!eq_ignore_ascii_case("abc", "ab"));
    // Only the letters of ASCII are folded.
    assert!(!eq_ignore_ascii_case("\u{e9}", "\u{c9}"));
    assert!(!eq_ignore_ascii_case("@", "`"));
    assert!(!eq_ignore_ascii_case("[", "{"));
    assert!(eq_ignore_ascii_case("\u{e9}x", "\u{e9}X"));
    assert!(eq_str("abc", "abc"));
    assert!(!eq_str("abc", "abC"));
    assert!(!eq_str("abc", "abcd"));
}
