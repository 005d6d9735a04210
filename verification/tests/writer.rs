use js_source_scopes::ast::Ident;
use js_source_scopes::scope_name::{NameComponent, ScopeName};
use js_source_scopes::smcache::raw::{
    File, LineOffset, MinifiedSourcePosition, OriginalSourceLocation, ANONYMOUS_SCOPE_SENTINEL,
    GLOBAL_SCOPE_SENTINEL, NO_FILE_SENTINEL, SMCACHE_MAGIC, SMCACHE_VERSION,
};
use js_source_scopes::scope_index::ScopeIndexError;
use js_source_scopes::smcache::writer::{
    ErrorKind, SmCacheErrorInner, SmCacheWriter, SmCacheWriterError, WriteWrapper,
};
use js_source_scopes::source::SourceContextError;
use js_source_scopes::source_map::{SourceFile, SourceMapData, Token};

const REGULAR: &str = r#"{
    "version":3,
    "sources":["coolstuff.js"],
    "names":["x","alert"],
    "mappings":"AAAA,GAAIA,GAAI,EACR,IAAIA,GAAK,EAAG,CACVC,MAAM"
}"#;

const G: u32 = GLOBAL_SCOPE_SENTINEL;

fn mapping(line: u32, column: u32, file_idx: u32, src_line: u32, scope_idx: u32) -> (MinifiedSourcePosition, OriginalSourceLocation) {
    (
        MinifiedSourcePosition { line, column },
        OriginalSourceLocation { file_idx, line: src_line, scope_idx },
    )
}

fn ident_name(sym: &str, lo: u32) -> ScopeName {
    let mut name = ScopeName::new();
    name.push_back(NameComponent::ident(Ident::new(sym, lo, lo + sym.len() as u32)));
    name
}

fn u32_at(bytes: &[u8], at: usize) -> u32 {
    u32::from_le_bytes([bytes[at], bytes[at + 1], bytes[at + 2], bytes[at + 3]])
}

#[test]
fn cache_without_scopes() {
    let writer = SmCacheWriter::new("abcdefghijklmnopqrstuvwxyz", REGULAR, vec![]).unwrap();
    assert_eq!(
        writer.mappings(),
        &vec![mapping(0, 0, 0, 0, G), mapping(0, 8, 0, 1, G), mapping(0, 18, 0, 2, G)]
    );
    assert_eq!(
        writer.files(),
        &vec![File { name_offset: 0, source_offset: u32::MAX, line_offsets_start: 0, line_offsets_end: 2 }]
    );
    assert_eq!(writer.line_offsets_table(), &vec![LineOffset(0), LineOffset(0)]);
    let mut strings = vec![12u8];
    strings.extend_from_slice(b"coolstuff.js");
    assert_eq!(writer.string_bytes(), &strings);
}

#[test]
fn cache_with_a_named_scope() {
    let scopes = vec![(3..10, Some(ident_name("f", 3)))];
    let writer = SmCacheWriter::new("abcdefghijklmnopqrstuvwxyz", REGULAR, scopes).unwrap();
    assert_eq!(
        writer.mappings(),
        &vec![
            mapping(0, 0, 0, 0, G),
            mapping(0, 3, 0, 0, 13),
            mapping(0, 8, 0, 1, 13),
            mapping(0, 12, 0, 1, G),
            mapping(0, 18, 0, 2, G),
        ]
    );
    let mut strings = vec![12u8];
    strings.extend_from_slice(b"coolstuff.js");
    strings.extend_from_slice(&[1, b'x']);
    assert_eq!(writer.string_bytes(), &strings);
}

#[test]
fn cache_with_anonymous_scope_and_unmapped_name() {
    // no token stands at or before the name of the outer scope on line 1
    let source = "ab\ncdefghijklmnop";
    let scopes = vec![(0..2, None), (3..17, Some(ident_name("cd", 3)))];
    let json = r#"{"version":3,"sources":["a.js"],"names":[],"mappings":"AAAA;IACA"}"#;
    let writer = SmCacheWriter::new(source, json, scopes).unwrap();
    // a.js at 0 (1 + 4 bytes), then the minified name cd at 5
    assert_eq!(
        writer.mappings(),
        &vec![mapping(0, 0, 0, 0, ANONYMOUS_SCOPE_SENTINEL), mapping(1, 4, 0, 1, 5)]
    );
    assert_eq!(writer.string_bytes(), &vec![4, b'a', b'.', b'j', b's', 2, b'c', b'd']);
}

#[test]
fn serialized_layout() {
    let scopes = vec![(3..10, Some(ident_name("f", 3)))];
    let writer = SmCacheWriter::new("abcdefghijklmnopqrstuvwxyz", REGULAR, scopes).unwrap();
    let mut out = vec![0xAA, 0xBB];
    writer.serialize(&mut out);
    assert_eq!(&out[..2], &[0xAA, 0xBB]);
    let bytes = &out[2..];
    // header
    assert_eq!(&bytes[0..4], b"SMCA");
    assert_eq!(u32_at(bytes, 0), SMCACHE_MAGIC);
    assert_eq!(u32_at(bytes, 4), SMCACHE_VERSION);
    assert_eq!(u32_at(bytes, 4), 2);
    assert_eq!(u32_at(bytes, 8), 5);
    assert_eq!(u32_at(bytes, 12), 1);
    assert_eq!(u32_at(bytes, 16), 2);
    assert_eq!(u32_at(bytes, 20), 15);
    assert_eq!(&bytes[24..32], &[0u8; 8]);
    // minified positions: 5 * 8 bytes at 32
    let positions: Vec<(u32, u32)> = (0..5).map(|i| (u32_at(bytes, 32 + 8 * i), u32_at(bytes, 36 + 8 * i))).collect();
    assert_eq!(positions, vec![(0, 0), (0, 3), (0, 8), (0, 12), (0, 18)]);
    // original locations: 5 * 12 bytes at 72, padded from 132 to 136
    let locations: Vec<(u32, u32, u32)> = (0..5)
        .map(|i| (u32_at(bytes, 72 + 12 * i), u32_at(bytes, 76 + 12 * i), u32_at(bytes, 80 + 12 * i)))
        .collect();
    assert_eq!(locations, vec![(0, 0, G), (0, 0, 13), (0, 1, 13), (0, 1, G), (0, 2, G)]);
    assert_eq!(&bytes[132..136], &[0u8; 4]);
    // files: 16 bytes at 136
    assert_eq!(
        (u32_at(bytes, 136), u32_at(bytes, 140), u32_at(bytes, 144), u32_at(bytes, 148)),
        (0, u32::MAX, 0, 2)
    );
    // line offsets: 2 * 4 bytes at 152
    assert_eq!((u32_at(bytes, 152), u32_at(bytes, 156)), (0, 0));
    // string table at 160
    assert_eq!(bytes.len(), 175);
    assert_eq!(bytes[160], 12);
    assert_eq!(&bytes[161..173], b"coolstuff.js");
    assert_eq!(&bytes[173..175], &[1, b'x']);
}

#[test]
fn serialized_empty_cache() {
    let json = r#"{"version":3,"sources":[],"names":[],"mappings":""}"#;
    let writer = SmCacheWriter::new("", json, vec![]).unwrap();
    assert!(writer.mappings().is_empty());
    let mut out = Vec::new();
    writer.serialize(&mut out);
    let mut expected = Vec::new();
    expected.extend_from_slice(b"SMCA");
    expected.extend_from_slice(&[2, 0, 0, 0]);
    expected.extend_from_slice(&[0u8; 24]);
    assert_eq!(out, expected);
}

fn token(dst_line: u32, dst_col: u32, src_line: u32, src_id: u32) -> Token {
    Token { dst_line, dst_col, src_line, src_col: 0, src_id, name_id: u32::MAX }
}

fn file(name: &str, contents: &str) -> SourceFile {
    SourceFile { name: name.to_string(), contents: contents.to_string() }
}

fn leb_record(s: &str) -> Vec<u8> {
    let mut len = s.len();
    let mut out = Vec::new();
    loop {
        let low = (len & 0x7f) as u8;
        len >>= 7;
        if len == 0 {
            out.push(low);
            break;
        }
        out.push(low | 0x80);
    }
    out.extend_from_slice(s.as_bytes());
    out
}

#[test]
fn files_are_sorted_and_strings_are_kept_once() {
    let long = "x\n".repeat(100);
    let sources = vec![
        file("b.js", "one\ntwo\n"),
        file("a.js", &long),
        file("c.js", "one\ntwo\n"),
        file("ab.js", ""),
        file("a.js", "twin"),
        file("", "b.js"),
    ];
    let tokens = vec![
        token(0, 0, 7, 0),
        token(0, 1, 7, 1),
        token(0, 2, 7, 2),
        token(0, 3, 7, 3),
        token(0, 4, 7, 4),
        token(0, 5, 7, 5),
        token(0, 6, 7, 6),
        token(0, 7, 7, u32::MAX),
    ];
    let data = SourceMapData::new(tokens, sources, vec![], None).unwrap();
    let writer = SmCacheWriter::build("0123456789", &data, vec![]).unwrap();

    // string table: b.js, one/two, a.js, the long text, c.js, ab.js, twin
    let mut strings = Vec::new();
    let b_js = 0u32;
    strings.extend(leb_record("b.js"));
    let one_two = strings.len() as u32;
    strings.extend(leb_record("one\ntwo\n"));
    let a_js = strings.len() as u32;
    strings.extend(leb_record("a.js"));
    let long_at = strings.len() as u32;
    strings.extend(leb_record(&long));
    assert_eq!(strings[long_at as usize..long_at as usize + 2], [0xC8, 0x01]);
    let c_js = strings.len() as u32;
    strings.extend(leb_record("c.js"));
    let ab_js = strings.len() as u32;
    strings.extend(leb_record("ab.js"));
    let twin = strings.len() as u32;
    strings.extend(leb_record("twin"));
    assert_eq!(writer.string_bytes(), &strings);

    // sorted by name, equal names in the order of the map
    let f = |name_offset, source_offset, line_offsets_start, line_offsets_end| File {
        name_offset,
        source_offset,
        line_offsets_start,
        line_offsets_end,
    };
    assert_eq!(
        writer.files(),
        &vec![
            f(u32::MAX, b_js, 114, 116),
            f(a_js, long_at, 4, 106),
            f(a_js, twin, 112, 114),
            f(ab_js, u32::MAX, 110, 112),
            f(b_js, one_two, 0, 4),
            f(c_js, one_two, 106, 110),
        ]
    );
    assert_eq!(writer.line_offsets_table().len(), 116);
    assert_eq!(
        &writer.line_offsets_table()[0..4],
        &[LineOffset(0), LineOffset(4), LineOffset(8), LineOffset(8)]
    );
    // each token finds its file by name: the first of those with its name
    let files: Vec<u32> = writer.mappings().iter().map(|m| m.1.file_idx).collect();
    assert_eq!(files, vec![4, 1, 5, 3, 1, 0, NO_FILE_SENTINEL]);
    let columns: Vec<u32> = writer.mappings().iter().map(|m| m.0.column).collect();
    assert_eq!(columns, vec![0, 1, 2, 3, 4, 5, 6]);
}

#[test]
fn mappings_are_ordered_and_adjacent_ones_differ() {
    let sources = vec![file("a.js", ""), file("b.js", "")];
    let tokens = vec![
        token(0, 0, 1, 0),
        token(0, 4, 1, 0),
        token(0, 4, 2, 0),
        token(0, 9, 1, 0),
        token(1, 0, 1, 0),
        token(1, 0, 1, 1),
        token(3, 2, 1, 1),
        token(3, 2, 1, 0),
        token(3, 8, 1, 1),
    ];
    let data = SourceMapData::new(tokens, sources, vec![], None).unwrap();
    let writer = SmCacheWriter::build("", &data, vec![]).unwrap();
    let mappings = writer.mappings();
    assert_eq!(
        mappings,
        &vec![
            mapping(0, 0, 0, 1, G),
            mapping(0, 4, 0, 2, G),
            mapping(0, 9, 0, 1, G),
            mapping(1, 0, 1, 1, G),
            mapping(3, 2, 0, 1, G),
            mapping(3, 8, 1, 1, G),
        ]
    );
    for pair in mappings.windows(2) {
        let (a, b) = (pair[0].0, pair[1].0);
        assert!((a.line, a.column) <= (b.line, b.column));
        assert_ne!(pair[0].1, pair[1].1);
    }
    // a reader that takes the last mapping at or before a position finds the
    // location of every mapping at its own position
    for (i, (at, location)) in mappings.iter().enumerate() {
        let found = mappings.iter().rev().find(|m| (m.0.line, m.0.column) <= (at.line, at.column));
        assert_eq!(found.map(|m| m.1), Some(*location), "mapping {}", i);
    }
}

#[test]
fn hermes_names_functions_without_scopes() {
    let json = r#"{"version":3,"sources":["a.js"],"names":[],"mappings":"AAAA,CAAC,EACA",
        "x_facebook_sources":[[{"names":["<global>","foo"],"mappings":"AAA,CC"}]]}"#;
    let writer = SmCacheWriter::new("", json, vec![]).unwrap();
    // a.js at 0, <global> at 5, foo at 14
    assert_eq!(
        writer.mappings(),
        &vec![mapping(0, 0, 0, 0, 5), mapping(0, 1, 0, 0, 14), mapping(0, 3, 0, 1, 14)]
    );
    // with scopes from the minified text the map is not asked
    let writer = SmCacheWriter::new("0123456789", json, vec![(1..3, None)]).unwrap();
    assert_eq!(
        writer.mappings(),
        &vec![
            mapping(0, 0, 0, 0, G),
            mapping(0, 1, 0, 0, ANONYMOUS_SCOPE_SENTINEL),
            mapping(0, 3, 0, 1, G),
        ]
    );
    // a Hermes map that names no function for a token
    let tokens = vec![token(0, 0, 0, 0), token(0, 5, 0, 0)];
    let data = SourceMapData::new(
        tokens,
        vec![file("a.js", "")],
        vec![],
        Some(vec![None, Some("f".to_string())]),
    )
    .unwrap();
    let writer = SmCacheWriter::build("", &data, vec![]).unwrap();
    assert_eq!(writer.mappings(), &vec![mapping(0, 0, 0, 0, G), mapping(0, 5, 0, 0, 5)]);
}

#[test]
fn scopes_on_later_lines() {
    let source = "var a;\nfunction f(){\n  g()\n}\n";
    // f spans from offset 7 to 28: it starts at (1, 0) and ends at (3, 1)
    let scopes = vec![(7..28, Some(ident_name("f", 16)))];
    let tokens = vec![
        token(0, 4, 0, 0),
        token(1, 0, 1, 0),
        token(1, 9, 1, 0),
        token(2, 2, 1, 0),
        token(3, 0, 1, 0),
        token(3, 1, 1, 0),
    ];
    let data = SourceMapData::new(tokens, vec![file("a.js", "")], vec![], None).unwrap();
    let writer = SmCacheWriter::build(source, &data, scopes).unwrap();
    assert_eq!(
        writer.mappings(),
        &vec![mapping(0, 4, 0, 0, G), mapping(1, 0, 0, 1, 5), mapping(3, 1, 0, 1, G)]
    );
    assert_eq!(&writer.string_bytes()[5..], &[1, b'f']);
}

#[test]
fn failures() {
    let error = SmCacheWriter::new("", "{", vec![]).err().unwrap();
    assert_eq!(error.kind(), ErrorKind::SourceMap);
    assert!(!error.to_string().is_empty());
    let scopes = vec![(0..5, None), (3..8, None)];
    let error = SmCacheWriter::new("0123456789", REGULAR, scopes).err().unwrap();
    assert_eq!(error.kind(), ErrorKind::ScopeIndex);
    assert_eq!(error.to_string(), "scope index could not be built");
    // an indexed map that cannot be flattened within 32 bits
    let json = r#"{"version":3,"sections":[{"offset":{"line":4294967295,"column":0},
        "map":{"version":3,"sources":["a.js"],"names":[],"mappings":";AAAA"}}]}"#;
    let error = SmCacheWriter::new("", json, vec![]).err().unwrap();
    assert_eq!(error.kind(), ErrorKind::SourceMap);
    assert_eq!(error.to_string(), "source map index does not fit in 32 bits");
    // the source map is looked at first
    let scopes = vec![(0..5, None), (3..8, None)];
    let error = SmCacheWriter::new("0123456789", "", scopes).err().unwrap();
    assert_eq!(error.kind(), ErrorKind::SourceMap);
}

#[test]
fn write_wrapper_counts_and_pads() {
    let mut out = WriteWrapper::new(vec![9, 9, 9]);
    assert_eq!(out.write(b"hello"), 5);
    assert_eq!(out.align(), 3);
    assert_eq!(out.align(), 0);
    out.write_u32(0x0403_0201);
    assert_eq!(out.write(b""), 0);
    assert_eq!(out.align(), 4);
    assert_eq!(
        out.into_inner(),
        vec![9, 9, 9, b'h', b'e', b'l', b'l', b'o', 0, 0, 0, 1, 2, 3, 4, 0, 0, 0, 0]
    );
}

#[test]
fn errors_from_their_causes() {
    let error = SmCacheWriterError::from(SmCacheErrorInner::ScopeIndex(ScopeIndexError));
    assert_eq!(error.kind(), ErrorKind::ScopeIndex);
    let error: SmCacheWriterError = SmCacheErrorInner::SourceContext(SourceContextError).into();
    assert_eq!(error.kind(), ErrorKind::SourceContext);
    assert_eq!(error.to_string(), "source could not be converted to source context");
}

/// The string whose record starts at `offset`; the empty string for `u32::MAX`.
fn read_string(bytes: &[u8], offset: u32) -> String {
    if offset == u32::MAX {
        return String::new();
    }
    let mut at = offset as usize;
    let mut len = 0usize;
    let mut shift = 0;
    loop {
        let byte = bytes[at];
        at += 1;
        len |= ((byte & 0x7f) as usize) << shift;
        shift += 7;
        if byte & 0x80 == 0 {
            break;
        }
    }
    String::from_utf8(bytes[at..at + len].to_vec()).unwrap()
}

#[test]
fn names_are_read_back_from_the_string_table() {
    let long_name = "n".repeat(300);
    let names = ["b.js", "a.js", "", "ä.js", long_name.as_str(), "a.js", "a"];
    let sources: Vec<SourceFile> = names.iter().map(|n| file(n, "text")).collect();
    let tokens = vec![token(0, 0, 0, 0), token(0, 5, 0, 1), token(0, 9, 0, 4)];
    let data = SourceMapData::new(tokens, sources, vec![], None).unwrap();
    let scopes = vec![(0..4, Some(ident_name("first", 0))), (5..8, Some(ident_name("", 5)))];
    let writer = SmCacheWriter::build("0123456789", &data, scopes).unwrap();
    let strings = writer.string_bytes();
    // the names of the files, read back, are those of the sources in byte order
    let read: Vec<String> =
        writer.files().iter().map(|f| read_string(strings, f.name_offset)).collect();
    let mut expected: Vec<String> = names.iter().map(|n| n.to_string()).collect();
    expected.sort_by(|a, b| a.as_bytes().cmp(b.as_bytes()));
    assert_eq!(read, expected);
    for f in writer.files() {
        assert_eq!(read_string(strings, f.source_offset), "text");
    }
    // a scope slot below the sentinel is the start of the record of the name;
    // the empty name has no record and its slot is the global sentinel
    let slots: Vec<u32> = writer.mappings().iter().map(|m| m.1.scope_idx).collect();
    assert_eq!(slots.len(), 3);
    assert_eq!(read_string(strings, slots[0]), "first");
    assert_eq!(slots[1], GLOBAL_SCOPE_SENTINEL);
    assert_eq!(slots[2], GLOBAL_SCOPE_SENTINEL);
    assert_ne!(slots[1], ANONYMOUS_SCOPE_SENTINEL);
}
