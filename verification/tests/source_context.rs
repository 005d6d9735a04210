use js_source_scopes::scope_index::{ScopeIndex, ScopeLookupResult};
use js_source_scopes::source::{SourceContext, SourcePosition};

fn pos(ctx: &SourceContext, offset: u32) -> Option<(u32, u32)> {
    ctx.offset_to_position(offset).map(|p| (p.line, p.column))
}

#[test]
fn positions_in_plain_text() {
    let ctx = SourceContext::new("ab\ncd\n").unwrap();
    assert_eq!(pos(&ctx, 0), Some((0, 0)));
    assert_eq!(pos(&ctx, 2), Some((0, 2)));
    assert_eq!(pos(&ctx, 3), Some((1, 0)));
    assert_eq!(pos(&ctx, 5), Some((1, 2)));
    assert_eq!(pos(&ctx, 6), Some((2, 0)));
    assert_eq!(pos(&ctx, 7), None);
    assert_eq!(SourcePosition::new(1, 2), SourcePosition { line: 1, column: 2 });
}

#[test]
fn columns_count_utf16_units() {
    // ö takes 2 bytes and 1 unit, 😀 takes 4 bytes and 2 units
    let text = "aö😀b";
    let ctx = SourceContext::new(text).unwrap();
    assert_eq!(pos(&ctx, 0), Some((0, 0)));
    assert_eq!(pos(&ctx, 1), Some((0, 1)));
    assert_eq!(pos(&ctx, 2), None);
    assert_eq!(pos(&ctx, 3), Some((0, 2)));
    assert_eq!(pos(&ctx, 4), None);
    assert_eq!(pos(&ctx, 5), None);
    assert_eq!(pos(&ctx, 6), None);
    assert_eq!(pos(&ctx, 7), Some((0, 4)));
    assert_eq!(pos(&ctx, 8), Some((0, 5)));
    assert_eq!(pos(&ctx, 9), None);
}

#[test]
fn line_terminators() {
    let ctx = SourceContext::new("a\r\nb\rc").unwrap();
    assert_eq!(pos(&ctx, 1), Some((0, 1)));
    // between the carriage return and the line feed
    assert_eq!(pos(&ctx, 2), Some((0, 2)));
    assert_eq!(pos(&ctx, 3), Some((1, 0)));
    assert_eq!(pos(&ctx, 4), Some((1, 1)));
    assert_eq!(pos(&ctx, 5), Some((2, 0)));
    assert_eq!(pos(&ctx, 6), Some((2, 1)));
    let ctx = SourceContext::new("").unwrap();
    assert_eq!(pos(&ctx, 0), Some((0, 0)));
    assert_eq!(pos(&ctx, 1), None);
}

#[test]
fn long_text_agrees_with_a_direct_count() {
    let mut text = String::new();
    for i in 0..500 {
        text.push_str("let x😀 = 'é';");
        if i % 7 == 0 {
            text.push('\n');
        }
        if i % 31 == 0 {
            text.push_str("\r\n");
        }
    }
    let ctx = SourceContext::new(&text).unwrap();
    let mut line = 0u32;
    let mut col = 0u32;
    let mut last: Option<SourcePosition> = None;
    let bytes = text.as_bytes();
    for (offset, c) in text.char_indices() {
        let p = ctx.offset_to_position(offset as u32).unwrap();
        assert_eq!((p.line, p.column), (line, col), "offset {}", offset);
        if let Some(l) = last {
            assert!(l.is_before(&p));
            assert!(!p.is_before(&l));
        }
        last = Some(p);
        for inner in 1..c.len_utf8() {
            assert!(ctx.offset_to_position((offset + inner) as u32).is_none());
        }
        let next = offset + c.len_utf8();
        let ends_line = c == '\n' || (c == '\r' && bytes.get(next) != Some(&b'\n'));
        if ends_line {
            line += 1;
            col = 0;
        } else {
            col += c.len_utf16() as u32;
        }
    }
    let end = ctx.offset_to_position(text.len() as u32).unwrap();
    assert_eq!((end.line, end.column), (line, col));
}

fn named(result: &ScopeLookupResult) -> String {
    match result {
        ScopeLookupResult::NamedScope(name) => name.clone(),
        ScopeLookupResult::AnonymousScope => "<anonymous>".to_string(),
        ScopeLookupResult::Unknown => "<unknown>".to_string(),
    }
}

fn entries(index: &ScopeIndex) -> Vec<(u32, String)> {
    index.entries().iter().map(|(o, r)| (*o, named(r))).collect()
}

fn e(offset: u32, name: &str) -> (u32, String) {
    (offset, name.to_string())
}

#[test]
fn scope_index_of_nested_scopes() {
    let scopes = vec![
        (5..30, Some("outer".to_string())),
        (10..20, Some("inner".to_string())),
        (22..25, None),
        (40..50, Some("later".to_string())),
    ];
    let index = ScopeIndex::new(scopes).unwrap();
    assert_eq!(
        entries(&index),
        vec![
            e(0, "<unknown>"),
            e(5, "outer"),
            e(10, "inner"),
            e(20, "outer"),
            e(22, "<anonymous>"),
            e(25, "outer"),
            e(30, "<unknown>"),
            e(40, "later"),
            e(50, "<unknown>"),
        ]
    );
}

#[test]
fn scope_index_order_of_input_does_not_matter() {
    let a = ScopeIndex::new(vec![
        (10..20, Some("inner".to_string())),
        (0..30, Some("outer".to_string())),
    ])
    .unwrap();
    let b = ScopeIndex::new(vec![
        (0..30, Some("outer".to_string())),
        (10..20, Some("inner".to_string())),
    ])
    .unwrap();
    assert_eq!(entries(&a), entries(&b));
    assert_eq!(
        entries(&a),
        vec![e(0, "outer"), e(10, "inner"), e(20, "outer"), e(30, "<unknown>")]
    );
}

#[test]
fn scope_index_edge_cases() {
    assert!(ScopeIndex::new(vec![]).unwrap().entries().is_empty());
    // scopes that share a border
    let index = ScopeIndex::new(vec![
        (0..10, Some("a".to_string())),
        (10..20, Some("b".to_string())),
        (0..5, Some("c".to_string())),
        (15..20, Some("d".to_string())),
    ])
    .unwrap();
    assert_eq!(
        entries(&index),
        vec![e(0, "c"), e(5, "a"), e(10, "b"), e(15, "d"), e(20, "<unknown>")]
    );
    // of two scopes with the same range the later one is the inner one
    let index = ScopeIndex::new(vec![
        (3..9, Some("first".to_string())),
        (3..9, Some("second".to_string())),
    ])
    .unwrap();
    assert_eq!(entries(&index), vec![e(0, "<unknown>"), e(3, "second"), e(9, "<unknown>")]);
    // an empty range holds nothing
    let index = ScopeIndex::new(vec![(4..4, Some("empty".to_string()))]).unwrap();
    assert_eq!(entries(&index), vec![e(0, "<unknown>"), e(4, "<unknown>")]);
}

#[test]
fn scope_index_refuses_crossing_scopes() {
    assert!(ScopeIndex::new(vec![(0..10, None), (5..15, None)]).is_err());
    assert!(ScopeIndex::new(vec![(5..15, None), (0..10, None)]).is_err());
    assert!(ScopeIndex::new(vec![(0..100, None), (20..30, None), (25..40, None)]).is_err());
    #[allow(clippy::reversed_empty_ranges)]
    let backwards = 10..5;
    assert!(ScopeIndex::new(vec![(backwards, None)]).is_err());
    assert!(ScopeIndex::new(vec![(0..10, None), (10..15, None), (0..15, None)]).is_ok());
}

#[test]
fn scope_index_lookup_by_offset() {
    let scopes = vec![
        (5..30, Some("outer".to_string())),
        (10..20, Some("inner".to_string())),
        (22..25, None),
    ];
    let index = ScopeIndex::new(scopes.clone()).unwrap();
    // what the index says at an offset is the innermost scope that holds it
    for offset in 0..40u32 {
        let innermost = scopes
            .iter()
            .filter(|(r, _)| r.start <= offset && offset < r.end)
            .min_by_key(|(r, _)| r.end - r.start);
        let expected = match innermost {
            None => "<unknown>".to_string(),
            Some((_, Some(name))) => name.clone(),
            Some((_, None)) => "<anonymous>".to_string(),
        };
        assert_eq!(named(&index.lookup(offset)), expected, "offset {}", offset);
    }
    assert_eq!(named(&index.lookup(u32::MAX)), "<unknown>");
    assert_eq!(named(&ScopeIndex::new(vec![]).unwrap().lookup(3)), "<unknown>");
}

#[test]
fn scope_index_checks_agree_in_any_order() {
    // a tree of scopes in document order, and the same scopes shuffled
    let mut ordered = Vec::new();
    for block in 0..20u32 {
        let base = block * 100;
        ordered.push((base..base + 90, Some(format!("f{}", block))));
        ordered.push((base..base + 40, None));
        ordered.push((base + 5..base + 40, Some(format!("g{}", block))));
        ordered.push((base + 40..base + 40, None));
        ordered.push((base + 50..base + 90, Some(format!("h{}", block))));
        ordered.push((base + 60..base + 70, None));
    }
    let mut shuffled = ordered.clone();
    let len = shuffled.len();
    for i in 0..len {
        shuffled.swap(i, (i * 37 + 11) % len);
    }
    let a = ScopeIndex::new(ordered.clone()).unwrap();
    let b = ScopeIndex::new(shuffled.clone()).unwrap();
    assert_eq!(entries(&a), entries(&b));
    assert_eq!(a.entries().len(), 20 * 7);
    // one scope that crosses another is found in either order
    ordered.push((1985..1995, None));
    shuffled.push((1985..1995, None));
    assert!(ScopeIndex::new(ordered.clone()).is_err());
    assert!(ScopeIndex::new(shuffled).is_err());
    ordered.pop();
    ordered.push((1950..1990, None));
    assert!(ScopeIndex::new(ordered.clone()).is_ok());
    ordered.push((1955..1965, None));
    assert!(ScopeIndex::new(ordered).is_err());
}
