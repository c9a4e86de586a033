use codetracer_ton_recorder::source_map::SourceMap;

#[test]
fn test_byte_to_line_simple() {
    let source = "line1\nline2\nline3\n";
    let map = SourceMap::from_source("test.tolk", source);
    // Byte 0 -> line 1
    assert_eq!(map.byte_to_line(0), 1);
    // Byte 6 -> line 2 (start of "line2")
    assert_eq!(map.byte_to_line(6), 2);
    // Byte 12 -> line 3
    assert_eq!(map.byte_to_line(12), 3);
}

#[test]
fn test_line_count() {
    let source = "a\nb\nc\n";
    let map = SourceMap::from_source("test.tolk", source);
    assert_eq!(map.line_count(), 4); // 3 newlines + 1 initial
}

#[test]
fn test_empty_source() {
    let source = "";
    let map = SourceMap::from_source("test.tolk", source);
    assert_eq!(map.line_count(), 1);
    assert_eq!(map.byte_to_line(0), 1);
}
