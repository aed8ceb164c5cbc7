use proguard::MappingView;

fn mapping_doc(terminator: &str) -> Vec<u8> {
    let lines = [
        "# compiler: R8",
        "android.support.constraint.ConstraintLayout$LayoutParams -> android.support.constraint.ConstraintLayout$a:",
        "    int guideEnd -> b",
        "    1848:1858:void validate() -> a",
        "android.support.constraint.a.a -> q.a:",
        "    300:340:java.lang.Object remove(int) -> a",
        "    100:200:java.lang.Object put(int,java.lang.Object) -> a",
        "    java.lang.Object get(int) -> c",
        "com.example.Tail -> t:",
        "    int last -> z",
        "",
    ];
    lines.join(terminator).into_bytes()
}

#[test]
fn find_class_and_field() {
    let doc = mapping_doc("\n");
    let mapping = MappingView::from_slice(&doc);
    let cls = mapping
        .find_class("android.support.constraint.ConstraintLayout$a")
        .unwrap();

    assert_eq!(
        cls.class_name(),
        "android.support.constraint.ConstraintLayout$LayoutParams"
    );
    assert_eq!(cls.alias(), "android.support.constraint.ConstraintLayout$a");

    assert_eq!(&cls.get_field("b").unwrap().to_text(), "int guideEnd");
}

#[test]
fn find_class_and_field_win() {
    let doc = mapping_doc("\r\n");
    let mapping = MappingView::from_slice(&doc);
    let cls = mapping
        .find_class("android.support.constraint.ConstraintLayout$a")
        .unwrap();

    assert_eq!(
        cls.class_name(),
        "android.support.constraint.ConstraintLayout$LayoutParams"
    );
    assert_eq!(cls.alias(), "android.support.constraint.ConstraintLayout$a");

    assert_eq!(&cls.get_field("b").unwrap().to_text(), "int guideEnd");
}

#[test]
fn methods_by_queried_line() {
    let doc = mapping_doc("\n");
    let mapping = MappingView::from_slice(&doc);
    let cls = mapping
        .find_class("android.support.constraint.ConstraintLayout$a")
        .unwrap();

    let methods = cls.get_methods("a", Some(1848));
    assert_eq!(methods.len(), 1);
    assert_eq!(methods[0].to_text(), "void validate()".to_string());
}

#[test]
fn methods_by_queried_line_win() {
    let doc = mapping_doc("\r\n");
    let mapping = MappingView::from_slice(&doc);
    let cls = mapping
        .find_class("android.support.constraint.ConstraintLayout$a")
        .unwrap();

    let methods = cls.get_methods("a", Some(1848));
    assert_eq!(methods.len(), 1);
    assert_eq!(methods[0].to_text(), "void validate()".to_string());
}

#[test]
fn method_matches_disjoint_ranges() {
    let doc = mapping_doc("\n");
    let mapping = MappingView::from_slice(&doc);
    let cls = mapping.find_class("q.a").unwrap();

    let meths = cls.get_methods("a", Some(320));
    assert_eq!(meths.len(), 1);
    assert_eq!(meths[0].name(), "remove");

    let meths = cls.get_methods("a", Some(150));
    assert_eq!(meths.len(), 1);
    assert_eq!(meths[0].name(), "put");
    assert_eq!(meths[0].to_text(), "java.lang.Object put(int, java.lang.Object)");
}

#[test]
fn query_outside_every_range_keeps_rangeless() {
    let lines = [
        "com.example.Dispatch -> d:",
        "    100:200:void alpha(int) -> a",
        "    300:400:void beta(int) -> a",
        "    void gamma(int) -> a",
        "    void delta(int) -> a",
        "",
    ];
    let doc = lines.join("\n").into_bytes();
    let mapping = MappingView::from_slice(&doc);
    let cls = mapping.find_class("d").unwrap();
    let meths = cls.get_methods("a", Some(999));
    assert_eq!(meths.len(), 2);
    // ties keep document order
    assert_eq!(meths[0].name(), "gamma");
    assert_eq!(meths[1].name(), "delta");
}

#[test]
fn query_without_line_ranks_by_distance_to_start() {
    let lines = [
        "com.example.Dispatch -> d:",
        "    300:400:void far(int) -> a",
        "    100:200:void near(int) -> a",
        "",
    ];
    let doc = lines.join("\n").into_bytes();
    let mapping = MappingView::from_slice(&doc);
    let cls = mapping.find_class("d").unwrap();
    let meths = cls.get_methods("a", None);
    assert_eq!(meths.len(), 2);
    assert_eq!(meths[0].name(), "near");
    assert_eq!(meths[1].name(), "far");
}

#[test]
fn lookup_is_idempotent() {
    let doc = mapping_doc("\n");
    let mapping = MappingView::from_slice(&doc);
    let c1 = mapping.find_class("q.a").unwrap();
    let c2 = mapping.find_class("q.a").unwrap();
    assert_eq!(c1.class_name(), c2.class_name());
    assert_eq!(c1.alias(), c2.alias());

    let m1 = c1.get_methods("a", Some(320));
    let m2 = c2.get_methods("a", Some(320));
    assert_eq!(m1.len(), m2.len());
    assert_eq!(m1[0].to_text(), m2[0].to_text());
}

#[test]
fn duplicate_class_alias_resolves_to_first() {
    let lines = [
        "com.example.First -> x:",
        "    int one -> f",
        "com.example.Second -> x:",
        "    int two -> f",
        "",
    ];
    let doc = lines.join("\n").into_bytes();
    let mapping = MappingView::from_slice(&doc);
    let cls = mapping.find_class("x").unwrap();
    assert_eq!(cls.class_name(), "com.example.First");
    assert_eq!(cls.get_field("f").unwrap().name(), "one");
}

#[test]
fn missing_class_and_members_are_absent() {
    let doc = mapping_doc("\n");
    let mapping = MappingView::from_slice(&doc);
    assert!(mapping.find_class("no.such.alias").is_none());
    let cls = mapping.find_class("q.a").unwrap();
    assert!(cls.get_field("nope").is_none());
    assert_eq!(cls.get_methods("nope", None).len(), 0);

    let empty = MappingView::from_slice(b"");
    assert!(empty.find_class("x").is_none());
}

#[test]
fn span_ends_at_next_class_line() {
    let doc = mapping_doc("\n");
    let mapping = MappingView::from_slice(&doc);
    // the field "z" belongs to com.example.Tail, not to q.a
    let cls = mapping.find_class("q.a").unwrap();
    assert!(cls.get_field("z").is_none());
    let tail = mapping.find_class("t").unwrap();
    assert_eq!(tail.get_field("z").unwrap().to_text(), "int last");
}

#[test]
fn field_getters() {
    let doc = mapping_doc("\n");
    let mapping = MappingView::from_slice(&doc);
    let cls = mapping.find_class("t").unwrap();
    let field = cls.get_field("z").unwrap();
    assert_eq!(field.name(), "last");
    assert_eq!(field.alias(), "z");
    assert_eq!(field.field_type(), "int");
}

#[test]
fn method_getters_and_args() {
    let doc = mapping_doc("\n");
    let mapping = MappingView::from_slice(&doc);
    let cls = mapping.find_class("q.a").unwrap();
    let meths = cls.get_methods("a", Some(150));
    let m = &meths[0];
    assert_eq!(m.name(), "put");
    assert_eq!(m.alias(), "a");
    assert_eq!(m.return_value(), "java.lang.Object");
    assert_eq!(m.first_line(), 100);
    // last_line reads the range's start value, as the ranking metric does
    assert_eq!(m.last_line(), 100);

    let mut args = m.args();
    assert_eq!(args.next(), Some(&b"int"[..]));
    assert_eq!(args.next(), Some(&b"java.lang.Object"[..]));
    assert_eq!(args.next(), None);
}

#[test]
fn empty_argument_list_yields_no_terms() {
    let doc = mapping_doc("\n");
    let mapping = MappingView::from_slice(&doc);
    let cls = mapping
        .find_class("android.support.constraint.ConstraintLayout$a")
        .unwrap();
    let meths = cls.get_methods("a", Some(1850));
    assert_eq!(meths.len(), 1);
    let mut args = meths[0].args();
    assert_eq!(args.next(), None);
}

#[test]
fn inlined_frames_resolve_through_the_span() {
    let lines = [
        "com.example.Activity -> m:",
        "    1016:1016:void com.example1.domain.MyBean.doWork():16:16 -> buttonClicked",
        "    1016:1016:void onClick(android.view.View) -> buttonClicked",
        "",
    ];
    let doc = lines.join("\n").into_bytes();
    let mapping = MappingView::from_slice(&doc);
    let cls = mapping.find_class("m").unwrap();
    let meths = cls.get_methods("buttonClicked", Some(1016));
    assert_eq!(meths.len(), 2);
    // equal distances keep document order: the inlined frame first
    assert_eq!(meths[0].name(), "doWork");
    assert_eq!(meths[1].name(), "onClick");
    assert_eq!(meths[0].to_text(), "void doWork()");
}

#[test]
fn empty_argument_pieces_are_kept() {
    let lines = ["com.example.Odd -> o:", "    void f(int,) -> a", ""];
    let doc = lines.join("\n").into_bytes();
    let mapping = MappingView::from_slice(&doc);
    let cls = mapping.find_class("o").unwrap();
    let meths = cls.get_methods("a", None);
    assert_eq!(meths.len(), 1);
    let mut args = meths[0].args();
    assert_eq!(args.next(), Some(&b"int"[..]));
    assert_eq!(args.next(), Some(&b""[..]));
    assert_eq!(args.next(), None);
    assert_eq!(meths[0].to_text(), "void f(int, )");
}

#[test]
fn from_vec_owns_its_bytes() {
    let mapping = MappingView::from_vec(mapping_doc("\n"));
    let cls = mapping.find_class("q.a").unwrap();
    assert_eq!(cls.class_name(), "android.support.constraint.a.a");
}

#[test]
fn zero_valued_range_prefix_counts_as_line_info() {
    let lines = ["com.example.Zero -> z:", "    0:0:a b() -> c", ""];
    let doc = lines.join("\n").into_bytes();
    let mapping = MappingView::from_slice(&doc);
    assert_eq!(mapping.has_line_info(), true);
}

#[test]
fn has_line_info_detects_ranges() {
    let doc = mapping_doc("\n");
    let mapping = MappingView::from_slice(&doc);
    assert_eq!(mapping.has_line_info(), true);

    let lines = ["com.example.Flat -> f:", "    int a -> b", "    void run() -> r", ""];
    let flat = lines.join("\n").into_bytes();
    let mapping = MappingView::from_slice(&flat);
    assert_eq!(mapping.has_line_info(), false);
}

#[test]
fn has_line_info_detects_ranges_win() {
    let doc = mapping_doc("\r\n");
    let mapping = MappingView::from_slice(&doc);
    assert_eq!(mapping.has_line_info(), true);
}
