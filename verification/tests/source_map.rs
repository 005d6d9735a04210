use js_source_scopes::name_resolver::{find_token, NameResolver};
use js_source_scopes::ast::Ident;
use js_source_scopes::scope_name::{NameComponent, ScopeName};
use js_source_scopes::source::SourceContext;
use js_source_scopes::source_map::{DecodeError, SourceFile, SourceMapData, Token};

const REGULAR: &str = r#"{
    "version":3,
    "sources":["coolstuff.js"],
    "names":["x","alert"],
    "mappings":"AAAA,GAAIA,GAAI,EACR,IAAIA,GAAK,EAAG,CACVC,MAAM"
}"#;

fn token(dst_line: u32, dst_col: u32, src_line: u32, src_col: u32, src_id: u32, name_id: u32) -> Token {
    Token { dst_line, dst_col, src_line, src_col, src_id, name_id }
}

const NONE: u32 = u32::MAX;

#[test]
fn decode_regular_map() {
    let data = SourceMapData::decode(REGULAR.as_bytes()).unwrap();
    let expected = vec![
        token(0, 0, 0, 0, 0, NONE),
        token(0, 3, 0, 4, 0, 0),
        token(0, 6, 0, 8, 0, NONE),
        token(0, 8, 1, 0, 0, NONE),
        token(0, 12, 1, 4, 0, 0),
        token(0, 15, 1, 9, 0, NONE),
        token(0, 17, 1, 12, 0, NONE),
        token(0, 18, 2, 2, 0, 1),
        token(0, 24, 2, 8, 0, NONE),
    ];
    assert_eq!(data.tokens(), &expected);
    assert_eq!(data.sources().len(), 1);
    assert_eq!(data.sources()[0].name, "coolstuff.js");
    assert_eq!(data.sources()[0].contents, "");
    assert_eq!(data.names(), &vec!["x".to_string(), "alert".to_string()]);
    assert!(data.function_names().is_none());
}

#[test]
fn decode_sorts_and_carries_contents() {
    let json = r#"{"version":3,"sourceRoot":"src","sources":["b.js","/a.js"],
        "sourcesContent":["let b;\n",null],"names":[],
        "mappings":";AAAA;ACAA"}"#;
    let data = SourceMapData::decode(json.as_bytes()).unwrap();
    assert_eq!(
        data.tokens(),
        &vec![token(1, 0, 0, 0, 0, NONE), token(2, 0, 0, 0, 1, NONE)]
    );
    let sources: Vec<(&str, &str)> =
        data.sources().iter().map(|s| (s.name.as_str(), s.contents.as_str())).collect();
    assert_eq!(sources, vec![("src/b.js", "let b;\n"), ("/a.js", "")]);
}

#[test]
fn decode_flattens_indexed_map() {
    let json = format!(
        r#"{{"version":3,"sections":[
            {{"offset":{{"line":0,"column":0}},"map":{}}},
            {{"offset":{{"line":1,"column":5}},"map":{{"version":3,"sources":["other.js"],"names":["y"],"mappings":"AAAAA,EAAC"}}}}
        ]}}"#,
        REGULAR
    );
    let data = SourceMapData::decode(json.as_bytes()).unwrap();
    assert_eq!(data.tokens().len(), 11);
    assert_eq!(data.tokens()[8], token(0, 24, 2, 8, 0, NONE));
    assert_eq!(data.tokens()[9], token(1, 5, 0, 0, 1, 2));
    assert_eq!(data.tokens()[10], token(1, 7, 0, 1, 1, NONE));
    let names: Vec<&str> = data.sources().iter().map(|s| s.name.as_str()).collect();
    assert_eq!(names, vec!["coolstuff.js", "other.js"]);
    assert_eq!(data.names(), &vec!["x".to_string(), "alert".to_string(), "y".to_string()]);
    assert!(data.function_names().is_none());
}

#[test]
fn decode_hermes_map() {
    let json = r#"{"version":3,"sources":["a.js"],"names":[],"mappings":"AAAA,CAAC,EACA",
        "x_facebook_sources":[[{"names":["<global>","foo"],"mappings":"AAA,CC"}]]}"#;
    let data = SourceMapData::decode(json.as_bytes()).unwrap();
    assert_eq!(data.tokens().len(), 3);
    assert_eq!(
        data.function_names(),
        &Some(vec![Some("<global>".to_string()), Some("foo".to_string()), Some("foo".to_string())])
    );
}

#[test]
fn decode_failures() {
    assert!(SourceMapData::decode(b"not json").is_err());
    assert!(SourceMapData::decode(b"").is_err());
    assert!(SourceMapData::decode(br#"{"version":3,"sources":[],"names":[],"mappings":"A!"}"#).is_err());
    // an indexed map with a section that has no map cannot be flattened
    let json = r#"{"version":3,"sections":[{"offset":{"line":0,"column":0},"url":"x.map"}]}"#;
    assert!(SourceMapData::decode(json.as_bytes()).is_err());
}

#[test]
fn data_must_be_sorted() {
    let sorted = vec![token(0, 1, 0, 0, NONE, NONE), token(0, 1, 1, 0, NONE, NONE), token(1, 0, 0, 0, NONE, NONE)];
    assert!(SourceMapData::new(sorted.clone(), vec![], vec![], None).is_some());
    let unsorted = vec![token(1, 0, 0, 0, NONE, NONE), token(0, 5, 0, 0, NONE, NONE)];
    assert!(SourceMapData::new(unsorted, vec![], vec![], None).is_none());
    let same_line = vec![token(0, 5, 0, 0, NONE, NONE), token(0, 4, 0, 0, NONE, NONE)];
    assert!(SourceMapData::new(same_line, vec![], vec![], None).is_none());
    assert!(SourceMapData::new(sorted.clone(), vec![], vec![], Some(vec![None])).is_none());
    assert!(SourceMapData::new(sorted, vec![], vec![], Some(vec![None, None, None])).is_some());
    assert!(SourceMapData::new(vec![], vec![], vec![], None).is_some());
}

#[test]
fn nearest_token() {
    let tokens = vec![
        token(0, 2, 0, 0, 0, NONE),
        token(0, 5, 0, 0, 0, NONE),
        token(0, 5, 1, 0, 0, NONE),
        token(2, 0, 0, 0, 0, NONE),
    ];
    assert_eq!(find_token(&tokens, 0, 0), None);
    assert_eq!(find_token(&tokens, 0, 1), None);
    assert_eq!(find_token(&tokens, 0, 2), Some(0));
    assert_eq!(find_token(&tokens, 0, 4), Some(0));
    // the first of the tokens at the very position
    assert_eq!(find_token(&tokens, 0, 5), Some(1));
    // the last of the tokens before it
    assert_eq!(find_token(&tokens, 0, 6), Some(2));
    assert_eq!(find_token(&tokens, 1, 0), Some(2));
    assert_eq!(find_token(&tokens, 2, 0), Some(3));
    assert_eq!(find_token(&tokens, 9, 9), Some(3));
    assert_eq!(find_token(&vec![], 0, 0), None);
}

fn name_of(parts: &[(&str, Option<u32>)]) -> ScopeName {
    let mut name = ScopeName::new();
    for (text, at) in parts {
        match at {
            Some(lo) => name.push_back(NameComponent::ident(Ident::new(text, *lo, lo + text.len() as u32))),
            None => name.push_back(NameComponent::interp(match *text {
                "." => ".",
                "new " => "new ",
                _ => "#",
            })),
        }
    }
    name
}

#[test]
fn resolve_names() {
    let source = "function a(){}\nb.c=function(){};";
    let tokens = vec![
        token(0, 0, 0, 0, 0, NONE),
        token(0, 9, 0, 9, 0, 0),
        token(1, 0, 2, 4, 0, NONE),
        token(1, 2, 2, 11, 0, 7),
        token(1, 4, 5, 0, 1, NONE),
    ];
    let sources = vec![
        SourceFile {
            name: "orig.js".to_string(),
            contents: "function alpha(){}\r\n\r\nvar holder.handler = 1;".to_string(),
        },
        SourceFile { name: "none.js".to_string(), contents: String::new() },
    ];
    let data = SourceMapData::new(tokens, sources, vec!["alpha".to_string()], None).unwrap();
    let ctx = SourceContext::new(source).unwrap();
    let resolver = NameResolver::new(&ctx, &data);
    // the token at the identifier carries a name
    assert_eq!(resolver.resolve_name(&name_of(&[("a", Some(9))])), "alpha");
    // no name: the slice of the original line, as long as the identifier;
    // a name index that the map does not have counts as no name
    assert_eq!(
        resolver.resolve_name(&name_of(&[("b", Some(15)), (".", None), ("c", Some(17))])),
        "h.h"
    );
    // interpolations stay, and so does an identifier before any token of its line
    assert_eq!(resolver.resolve_name(&name_of(&[("new ", None), ("a", Some(9))])), "new alpha");
    // the source of the token has no text: the identifier stays
    assert_eq!(resolver.resolve_name(&name_of(&[("=function", Some(19))])), "=function");
    // an offset outside of the text: the identifier stays
    assert_eq!(resolver.resolve_name(&name_of(&[("zz", Some(400))])), "zz");
    assert_eq!(resolver.resolve_name(&ScopeName::new()), "");
}

#[test]
fn resolve_takes_slice_of_identifier_length() {
    let source = "var abcdefgh=1";
    let tokens = vec![token(0, 4, 0, 6, 0, NONE)];
    let sources = vec![SourceFile { name: "o.js".to_string(), contents: "const userName = 1;".to_string() }];
    let data = SourceMapData::new(tokens, sources, vec![], None).unwrap();
    let ctx = SourceContext::new(source).unwrap();
    let resolver = NameResolver::new(&ctx, &data);
    assert_eq!(resolver.resolve_name(&name_of(&[("abcdefgh", Some(4))])), "userName");
    // the line is too short for the slice
    assert_eq!(resolver.resolve_name(&name_of(&[("abcdefgh=1;;;;;;;;;", Some(4))])), "abcdefgh=1;;;;;;;;;");
}

fn index_with(line: u32, column: u32, mappings: &str) -> String {
    format!(
        r#"{{"version":3,"sections":[{{"offset":{{"line":{},"column":{}}},"map":{{"version":3,"sources":["a.js"],"names":[],"mappings":"{}"}}}}]}}"#,
        line, column, mappings
    )
}

#[test]
fn section_offsets_that_leave_32_bits_are_refused() {
    // a token on line 1 in a section that starts on the last line there is
    let json = index_with(u32::MAX, 0, ";AAAA");
    assert!(matches!(SourceMapData::decode(json.as_bytes()), Err(DecodeError::OutOfRange)));
    // a token at column 1 of line 0 in a section that starts at the last column
    let json = index_with(0, u32::MAX, "CAAA");
    assert!(matches!(SourceMapData::decode(json.as_bytes()), Err(DecodeError::OutOfRange)));
    let json = index_with(7, u32::MAX, "CAAA");
    assert!(matches!(SourceMapData::decode(json.as_bytes()), Err(DecodeError::OutOfRange)));
    // a missing map behind a section that overflows is not reached
    let json = r#"{"version":3,"sections":[
        {"offset":{"line":4294967295,"column":0},"map":{"version":3,"sources":[],"names":[],"mappings":";A"}},
        {"offset":{"line":4294967295,"column":5},"url":"x.map"}]}"#;
    assert!(matches!(SourceMapData::decode(json.as_bytes()), Err(DecodeError::OutOfRange)));
    // a missing map before it is
    let json = r#"{"version":3,"sections":[
        {"offset":{"line":0,"column":0},"url":"x.map"},
        {"offset":{"line":4294967295,"column":0},"map":{"version":3,"sources":[],"names":[],"mappings":";A"}}]}"#;
    assert!(matches!(SourceMapData::decode(json.as_bytes()), Err(DecodeError::Decode(_))));
}

#[test]
fn section_offsets_at_the_edge_are_added() {
    let json = index_with(u32::MAX - 1, 0, ";AAAA");
    let data = SourceMapData::decode(json.as_bytes()).unwrap();
    assert_eq!(data.tokens(), &vec![token(u32::MAX, 0, 0, 0, 0, NONE)]);
    let json = index_with(0, u32::MAX - 1, "CAAA;CAAA");
    let data = SourceMapData::decode(json.as_bytes()).unwrap();
    assert_eq!(
        data.tokens(),
        &vec![token(0, u32::MAX, 0, 0, 0, NONE), token(1, 1, 0, 0, 0, NONE)]
    );
    // the column of a section counts on its first line only
    let json = index_with(3, u32::MAX, ";EAAA");
    let data = SourceMapData::decode(json.as_bytes()).unwrap();
    assert_eq!(data.tokens(), &vec![token(4, 2, 0, 0, 0, NONE)]);
    // a section without tokens may start anywhere
    let json = index_with(u32::MAX, u32::MAX, "");
    assert!(SourceMapData::decode(json.as_bytes()).unwrap().tokens().is_empty());
}

#[test]
fn nested_sections_add_up() {
    let inner = index_with(10, 4, "CAAA;CAAA");
    let json = format!(
        r#"{{"version":3,"sections":[{{"offset":{{"line":100,"column":7}},"map":{}}}]}}"#,
        inner
    );
    let data = SourceMapData::decode(json.as_bytes()).unwrap();
    assert_eq!(
        data.tokens(),
        &vec![token(110, 5, 0, 0, 0, NONE), token(111, 1, 0, 0, 0, NONE)]
    );
    // the inner section fits, the outer one moves it out of range
    let inner = index_with(u32::MAX - 5, 0, "CAAA");
    let json = format!(
        r#"{{"version":3,"sections":[{{"offset":{{"line":6,"column":0}},"map":{}}}]}}"#,
        inner
    );
    assert!(matches!(SourceMapData::decode(json.as_bytes()), Err(DecodeError::OutOfRange)));
    let json = format!(
        r#"{{"version":3,"sections":[{{"offset":{{"line":5,"column":0}},"map":{}}}]}}"#,
        inner
    );
    let data = SourceMapData::decode(json.as_bytes()).unwrap();
    assert_eq!(data.tokens(), &vec![token(u32::MAX, 1, 0, 0, 0, NONE)]);
}

#[test]
fn absent_and_empty_source_texts() {
    // a flat map: a source without a text is read as one with the empty text
    let json = r#"{"version":3,"sources":["a.js","b.js","c.js"],"sourcesContent":["x",null,""],
        "names":[],"mappings":"AAAA"}"#;
    let data = SourceMapData::decode(json.as_bytes()).unwrap();
    let sources: Vec<(&str, &str)> =
        data.sources().iter().map(|s| (s.name.as_str(), s.contents.as_str())).collect();
    assert_eq!(sources, vec![("a.js", "x"), ("b.js", ""), ("c.js", "")]);
    // an indexed map with the same name twice: flattening keeps one source;
    // a text that is absent leaves the earlier one, an empty text replaces it
    let section = |texts: &str| {
        format!(
            r#"{{"version":3,"sections":[{{"offset":{{"line":0,"column":0}},"map":{{"version":3,
            "sources":["a.js","a.js"],"sourcesContent":{},"names":[],"mappings":"AAAA,CCAA"}}}}]}}"#,
            texts
        )
    };
    let data = SourceMapData::decode(section(r#"["x",null]"#).as_bytes()).unwrap();
    let sources: Vec<(&str, &str)> =
        data.sources().iter().map(|s| (s.name.as_str(), s.contents.as_str())).collect();
    assert_eq!(sources, vec![("a.js", "x")]);
    let data = SourceMapData::decode(section(r#"["x",""]"#).as_bytes()).unwrap();
    let sources: Vec<(&str, &str)> =
        data.sources().iter().map(|s| (s.name.as_str(), s.contents.as_str())).collect();
    assert_eq!(sources, vec![("a.js", "")]);
    assert_eq!(data.tokens().len(), 2);
    assert_eq!(data.tokens()[1].src_id, 0);
}
