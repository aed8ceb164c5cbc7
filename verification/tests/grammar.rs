use proguard::{LineMapping, MappingRecord};

#[test]
fn parse_header_with_value() {
    let parsed = MappingRecord::try_parse(b"# compiler: R8");
    assert_eq!(
        parsed,
        Some(MappingRecord::Header { key: b"compiler", value: Some(b"R8") })
    );
}

#[test]
fn parse_header_without_value() {
    let parsed = MappingRecord::try_parse(b"# just a note");
    assert_eq!(
        parsed,
        Some(MappingRecord::Header { key: b"just a note", value: None })
    );
}

#[test]
fn parse_class_line() {
    let parsed =
        MappingRecord::try_parse(b"android.arch.core.executor.ArchTaskExecutor -> a.a.a.a.c:");
    assert_eq!(
        parsed,
        Some(MappingRecord::Class {
            original: b"android.arch.core.executor.ArchTaskExecutor",
            obfuscated: b"a.a.a.a.c",
        })
    );
}

#[test]
fn parse_field_line() {
    let parsed =
        MappingRecord::try_parse(b"    android.arch.core.executor.ArchTaskExecutor sInstance -> a");
    assert_eq!(
        parsed,
        Some(MappingRecord::Field {
            ty: b"android.arch.core.executor.ArchTaskExecutor",
            original: b"sInstance",
            obfuscated: b"a",
        })
    );
}

#[test]
fn parse_method_without_line_mapping() {
    let parsed = MappingRecord::try_parse(
        b"    java.lang.Object putIfAbsent(java.lang.Object,java.lang.Object) -> b",
    );
    assert_eq!(
        parsed,
        Some(MappingRecord::Method {
            ty: b"java.lang.Object",
            original: b"putIfAbsent",
            obfuscated: b"b",
            arguments: b"java.lang.Object,java.lang.Object",
            original_class: None,
            line_mapping: None,
        })
    );
}

#[test]
fn parse_inlined_method_from_foreign_class() {
    let parsed = MappingRecord::try_parse(
        b"    1016:1016:void com.example1.domain.MyBean.doWork():16:16 -> buttonClicked",
    );
    assert_eq!(
        parsed,
        Some(MappingRecord::Method {
            ty: b"void",
            original: b"doWork",
            obfuscated: b"buttonClicked",
            arguments: b"",
            original_class: Some(b"com.example1.domain.MyBean"),
            line_mapping: Some(LineMapping {
                startline: 1016,
                endline: 1016,
                original_startline: Some(16),
                original_endline: Some(16),
            }),
        })
    );
}

#[test]
fn method_prefix_gates_line_mapping() {
    // with the leading range, the mapping holds exactly those values
    let parsed = MappingRecord::try_parse(b"    100:200:void validate() -> a");
    assert_eq!(
        parsed,
        Some(MappingRecord::Method {
            ty: b"void",
            original: b"validate",
            obfuscated: b"a",
            arguments: b"",
            original_class: None,
            line_mapping: Some(LineMapping {
                startline: 100,
                endline: 200,
                original_startline: None,
                original_endline: None,
            }),
        })
    );
    // without the prefix, a trailing range alone yields no mapping at all
    let parsed = MappingRecord::try_parse(b"    void validate():16:16 -> a");
    assert_eq!(
        parsed,
        Some(MappingRecord::Method {
            ty: b"void",
            original: b"validate",
            obfuscated: b"a",
            arguments: b"",
            original_class: None,
            line_mapping: None,
        })
    );
}

#[test]
fn zero_start_line_yields_no_mapping() {
    let parsed = MappingRecord::try_parse(b"    0:0:void clear() -> c");
    assert_eq!(
        parsed,
        Some(MappingRecord::Method {
            ty: b"void",
            original: b"clear",
            obfuscated: b"c",
            arguments: b"",
            original_class: None,
            line_mapping: None,
        })
    );
}

#[test]
fn field_with_trailing_range_stays_a_field() {
    let parsed = MappingRecord::try_parse(b"    int count:3:7 -> c");
    assert_eq!(
        parsed,
        Some(MappingRecord::Field { ty: b"int", original: b"count", obfuscated: b"c" })
    );
}

#[test]
fn class_line_without_colon_is_unparsable() {
    assert_eq!(MappingRecord::try_parse(b"com.example.Main -> a.b"), None);
}

#[test]
fn member_line_without_arrow_is_unparsable() {
    assert_eq!(MappingRecord::try_parse(b"    int guideEnd b"), None);
}

#[test]
fn malformed_numbers_are_unparsable() {
    assert_eq!(MappingRecord::try_parse(b"    10:x20:void f() -> a"), None);
    assert_eq!(MappingRecord::try_parse(b"    void f():bad -> a"), None);
}

#[test]
fn missing_closing_parenthesis_is_unparsable() {
    assert_eq!(MappingRecord::try_parse(b"    void f(int -> a"), None);
}

#[test]
fn non_utf8_line_is_unparsable() {
    // a class-shaped line whose first byte is not valid UTF-8
    let line: [u8; 7] = [0xFF, b' ', b'-', b'>', b' ', b'a', b':'];
    assert_eq!(MappingRecord::try_parse(&line), None);
    // the same shape in plain ASCII parses
    assert!(matches!(
        MappingRecord::try_parse(b"x -> a:"),
        Some(MappingRecord::Class { original: b"x", obfuscated: b"a" })
    ));
    // a lone continuation byte and a truncated sequence are unparsable too
    assert_eq!(MappingRecord::try_parse(&[0x80u8]), None);
    assert_eq!(MappingRecord::try_parse(&[0xC3u8]), None);
}

#[test]
fn multibyte_utf8_names_parse() {
    // a two-byte encoded character inside the original name
    let line = "caf\u{e9}.Main -> a:".as_bytes();
    assert!(matches!(
        MappingRecord::try_parse(line),
        Some(MappingRecord::Class { .. })
    ));
}

#[test]
fn line_mapping_default_is_all_unknown() {
    let lm = LineMapping::default();
    assert_eq!(lm.startline, 0);
    assert_eq!(lm.endline, 0);
    assert_eq!(lm.original_startline, None);
    assert_eq!(lm.original_endline, None);
}
