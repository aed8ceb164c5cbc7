use proguard::{MappingRecord, MappingView, ProguardMapping};

#[test]
fn stream_yields_every_record() {
    let lines = [
        "# compiler: R8",
        "com.example.Main -> a:",
        "    int count -> c",
        "    10:20:void run() -> r",
        "",
    ];
    let doc = lines.join("\n").into_bytes();
    let mapping = ProguardMapping::new(&doc);
    let mut iter = mapping.iter();
    assert!(matches!(
        iter.next(),
        Some(Ok(MappingRecord::Header { key: b"compiler", value: Some(b"R8") }))
    ));
    assert!(matches!(iter.next(), Some(Ok(MappingRecord::Class { .. }))));
    assert!(matches!(iter.next(), Some(Ok(MappingRecord::Field { .. }))));
    assert!(matches!(iter.next(), Some(Ok(MappingRecord::Method { .. }))));
    assert!(iter.next().is_none());
}

#[test]
fn well_formed_document_round_trips_without_errors() {
    let lines = [
        "# compiler: R8",
        "com.example.Main -> a:",
        "    int count -> c",
        "    10:20:void run() -> r",
        "com.example.Other -> b:",
        "    java.lang.String name -> n",
        "",
    ];
    let doc = lines.join("\n").into_bytes();
    let mapping = ProguardMapping::new(&doc);
    let mut iter = mapping.iter();
    let mut records: usize = 0;
    while let Some(item) = iter.next() {
        assert!(item.is_ok());
        records += 1;
    }
    assert_eq!(records, 6);
}

#[test]
fn unparsable_line_is_returned_unchanged() {
    let lines = ["com.example.Main -> a:", "@@ not a record @@", "    int count -> c", ""];
    let doc = lines.join("\n").into_bytes();
    let mapping = ProguardMapping::new(&doc);
    let mut iter = mapping.iter();
    assert!(matches!(iter.next(), Some(Ok(MappingRecord::Class { .. }))));
    assert_eq!(iter.next(), Some(Err(&b"@@ not a record @@"[..])));
    assert!(matches!(iter.next(), Some(Ok(MappingRecord::Field { .. }))));
    assert!(iter.next().is_none());
}

#[test]
fn non_utf8_line_streams_as_unparsable() {
    let mut doc: Vec<u8> = b"com.example.Main -> a:\n".to_vec();
    doc.push(0xFF);
    doc.extend_from_slice(b" -> b:\n");
    let mapping = ProguardMapping::new(&doc);
    let mut iter = mapping.iter();
    assert!(matches!(iter.next(), Some(Ok(MappingRecord::Class { .. }))));
    let bad = iter.next();
    assert!(matches!(bad, Some(Err(_))));
    assert!(iter.next().is_none());
}

#[test]
fn empty_lines_are_skipped() {
    let doc = b"\n\r\n# one\n\n\r# two\r\n\n";
    let mapping = ProguardMapping::new(doc);
    let mut iter = mapping.iter();
    assert!(matches!(
        iter.next(),
        Some(Ok(MappingRecord::Header { key: b"one", value: None }))
    ));
    assert!(matches!(
        iter.next(),
        Some(Ok(MappingRecord::Header { key: b"two", value: None }))
    ));
    assert!(iter.next().is_none());
}

#[test]
fn final_line_without_terminator_is_yielded() {
    let doc = b"# one\n# two";
    let mapping = ProguardMapping::new(doc);
    let mut iter = mapping.iter();
    assert!(matches!(iter.next(), Some(Ok(MappingRecord::Header { key: b"one", value: None }))));
    assert!(matches!(iter.next(), Some(Ok(MappingRecord::Header { key: b"two", value: None }))));
    assert!(iter.next().is_none());
}

#[test]
fn stream_is_restartable() {
    let doc = b"com.example.Main -> a:\n";
    let mapping = ProguardMapping::new(doc);
    let mut first = mapping.iter();
    assert!(first.next().is_some());
    assert!(first.next().is_none());
    let mut second = mapping.iter();
    assert!(matches!(
        second.next(),
        Some(Ok(MappingRecord::Class { original: b"com.example.Main", obfuscated: b"a" }))
    ));
}

#[test]
fn uuid_is_the_two_stage_derivation() {
    let doc: &[u8] = b"com.example.Main -> a:\n    int count -> c\n";
    let namespace = uuid::Uuid::new_v5(&uuid::Uuid::NAMESPACE_DNS, b"guardsquare.com");
    let expected = uuid::Uuid::new_v5(&namespace, doc);

    let mapping = ProguardMapping::new(doc);
    assert_eq!(mapping.uuid(), expected);

    let view = MappingView::from_slice(doc);
    assert_eq!(view.uuid(), expected);
}

#[test]
fn uuid_depends_on_the_document_bytes() {
    let a = ProguardMapping::new(b"com.example.A -> a:\n");
    let b = ProguardMapping::new(b"com.example.B -> b:\n");
    assert_ne!(a.uuid(), b.uuid());
    let again = ProguardMapping::new(b"com.example.A -> a:\n");
    assert_eq!(a.uuid(), again.uuid());
}
