use js_source_scopes::smcache::raw::{align_to_eight, LineOffset};
use js_source_scopes::smcache::writer::SmCacheWriter;

fn offsets(source: &str) -> Vec<u32> {
    SmCacheWriter::line_offsets(source).iter().map(|o| o.0).collect()
}

#[test]
fn line_offsets_empty_file() {
    let source = "";

    let line_offsets = SmCacheWriter::line_offsets(source);

    assert_eq!(line_offsets, [LineOffset(0), LineOffset(0)]);
}

#[test]
fn line_offsets_almost_empty_file() {
    let source = "\n";

    let line_offsets = SmCacheWriter::line_offsets(source);

    assert_eq!(line_offsets, [LineOffset(0), LineOffset(1), LineOffset(1)]);
}

#[test]
fn line_offsets_several_lines() {
    let source = "a\n\nb\nc";

    let line_offsets = SmCacheWriter::line_offsets(source);

    assert_eq!(
        line_offsets,
        [
            LineOffset(0),
            LineOffset(2),
            LineOffset(3),
            LineOffset(5),
            LineOffset(6)
        ]
    );
}

#[test]
fn line_offsets_several_lines_trailing_newline() {
    let source = "a\n\nb\nc\n";

    let line_offsets = SmCacheWriter::line_offsets(source);

    assert_eq!(
        line_offsets,
        [
            LineOffset(0),
            LineOffset(2),
            LineOffset(3),
            LineOffset(5),
            LineOffset(7),
            LineOffset(7)
        ]
    );
}

#[test]
fn line_offsets_carriage_returns() {
    // CRLF ends a line as one terminator, a lone CR ends one too.
    assert_eq!(offsets("a\r\nb"), vec![0, 3, 4]);
    assert_eq!(offsets("a\rb"), vec![0, 2, 3]);
    assert_eq!(offsets("a\r\n"), vec![0, 3, 3]);
    // Only a line feed at the end adds the empty last line.
    assert_eq!(offsets("a\r"), vec![0, 2]);
    assert_eq!(offsets("\r\n\r\n"), vec![0, 2, 4, 4]);
}

#[test]
fn line_offsets_end_with_length() {
    for source in ["", "x", "x\n", "ab\ncd\r\nef", "\n\n\n", "héllo\nwörld"] {
        let table = offsets(source);
        assert_eq!(*table.last().unwrap() as usize, source.len());
        let lines = if source.is_empty() {
            1
        } else {
            1 + source
                .as_bytes()
                .windows(2)
                .filter(|w| w[0] == b'\n' || (w[0] == b'\r' && w[1] != b'\n'))
                .count()
        };
        let extra = if source.ends_with('\n') { 1 } else { 0 };
        assert_eq!(table.len(), lines + extra + 1);
    }
}

#[test]
fn align_to_eight_pads_to_multiple() {
    assert_eq!(align_to_eight(0), 0);
    assert_eq!(align_to_eight(1), 7);
    assert_eq!(align_to_eight(7), 1);
    assert_eq!(align_to_eight(8), 0);
    assert_eq!(align_to_eight(92), 4);
    for n in 0..64usize {
        assert_eq!((n + align_to_eight(n)) % 8, 0);
        assert!(align_to_eight(n) < 8);
    }
}
