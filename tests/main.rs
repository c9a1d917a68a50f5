use std::io::Read;
use wolfram_expr::owned;
use wolfram_expr::{column_offset_append, frame_compressed, DecodeError, indent_amount, Association, Expr, ExprKind, Normal, Number, Symbol, F64};

fn real_text(bits: u64) -> String {
    format!("{:?}", f64::from_bits(bits))
}

#[test]
fn test_curry() {
    let v = Expr::normal(Expr::string("Sin"), vec![Expr::integer(1)]);
    assert_eq!(v.as_wxf(), [
        56, 58, 102, 1, 83, 3, 83, 105, 110, 76, 1, 0, 0, 0, 0, 0, 0, 0
    ]);
    let v = Expr::normal(v, vec![Expr::integer(2)]);
    assert_eq!(v.as_wxf(), [
        56, 58, 102, 1, 102, 1, 83, 3, 83, 105, 110, 76, 1, 0, 0, 0, 0, 0, 0, 0, 76, 2,
        0, 0, 0, 0, 0, 0, 0
    ]);
    let v = Expr::normal(v, vec![Expr::integer(3)]);
    assert_eq!(v.as_wxf(), [
        56, 58, 102, 1, 102, 1, 102, 1, 83, 3, 83, 105, 110, 76, 1, 0, 0, 0, 0, 0, 0, 0,
        76, 2, 0, 0, 0, 0, 0, 0, 0, 76, 3, 0, 0, 0, 0, 0, 0, 0
    ]);
}

#[test]
fn integer_payload_is_tag_then_little_endian() {
    assert_eq!(Expr::integer(1).as_wxf(), [56, 58, 76, 1, 0, 0, 0, 0, 0, 0, 0]);
    assert_eq!(Expr::integer(-1).as_wxf(), [56, 58, 76, 255, 255, 255, 255, 255, 255, 255, 255]);
    assert_eq!(
        Expr::integer(0x0102030405060708).as_wxf(),
        [56, 58, 76, 8, 7, 6, 5, 4, 3, 2, 1]
    );
    assert_eq!(
        Expr::number(Number::Integer(i64::MIN)).as_wxf(),
        [56, 58, 76, 0, 0, 0, 0, 0, 0, 0, 128]
    );
}

#[test]
fn symbol_of_head_encodes_with_lower_case_tag() {
    let v = Expr::function(Symbol::new("Sin"), vec![Expr::integer(1)]);
    assert_eq!(v.as_wxf(), [56, 58, 102, 1, 115, 3, 83, 105, 110, 76, 1, 0, 0, 0, 0, 0, 0, 0]);
}

#[test]
fn string_length_counts_bytes() {
    assert_eq!(Expr::string("é").as_wxf(), [56, 58, 83, 2, 0xC3, 0xA9]);
    assert_eq!(Expr::string("").as_wxf(), [56, 58, 83, 0]);
}

#[test]
fn long_string_length_is_a_varint() {
    let s = "x".repeat(300);
    let bytes = Expr::string(&s).as_wxf();
    assert_eq!(&bytes[..5], &[56, 58, 83, 0xAC, 0x02]);
    assert_eq!(bytes.len(), 5 + 300);
}

#[test]
fn real_is_tag_then_bit_pattern() {
    let x = F64::from_bits(1.5f64.to_bits()).unwrap();
    let mut expected = vec![56u8, 58, 114];
    expected.extend_from_slice(&1.5f64.to_le_bytes());
    assert_eq!(Expr::number(Number::Real(x)).as_wxf(), expected);
    assert_eq!(x.to_bits(), 1.5f64.to_bits());
}

#[test]
fn nan_is_rejected() {
    assert!(F64::from_bits(f64::NAN.to_bits()).is_none());
    assert!(F64::from_bits(f64::INFINITY.to_bits()).is_some());
}

#[test]
fn empty_normal_has_zero_count() {
    let v = Expr::function(Symbol::new("f"), vec![]);
    assert_eq!(v.as_wxf(), [56, 58, 102, 0, 115, 1, 102]);
}

#[test]
fn encoding_twice_is_identical() {
    let v = Expr::list(vec![Expr::integer(1), Expr::string("a"), Expr::symbol(Symbol::new("x"))]);
    let w = Expr::list(vec![Expr::integer(1), Expr::string("a"), Expr::symbol(Symbol::new("x"))]);
    assert_eq!(v.as_wxf(), v.as_wxf());
    assert_eq!(v.as_wxf(), w.as_wxf());
    assert!(v == w);
}

#[test]
fn compressed_stream_inflates_to_payload() {
    let v = Expr::normal(Expr::string("Sin"), vec![Expr::integer(1)]);
    let packed = v.as_wxf_compressed().unwrap();
    assert_eq!(&packed[..3], b"8C:");
    let mut d = flate2::read::ZlibDecoder::new(&packed[3..]);
    let mut payload = Vec::new();
    d.read_to_end(&mut payload).unwrap();
    assert_eq!(payload, &v.as_wxf()[2..]);
}

#[test]
fn frame_puts_header_first() {
    assert_eq!(frame_compressed(&[1, 2]), vec![56, 67, 58, 1, 2]);
}

#[test]
fn tag_of_each_variant() {
    assert!(Expr::integer(5).tag().is_none());
    assert!(Expr::string("hello").tag().is_none());
    assert!(Expr::number(Number::Real(F64::from_bits(0).unwrap())).tag().is_none());
    assert_eq!(Expr::symbol(Symbol::new("foo")).tag().unwrap().as_str(), "foo");
    let f = Expr::function(Symbol::new("f"), vec![Expr::integer(1)]);
    assert_eq!(f.tag().unwrap().as_str(), "f");
    let g = Expr::normal(Expr::function(Symbol::new("g"), vec![Expr::integer(1)]), vec![Expr::integer(2)]);
    assert_eq!(g.tag().unwrap().as_str(), "g");
    let s = Expr::normal(Expr::string("s"), vec![]);
    assert!(s.tag().is_none());
}

#[test]
fn structural_queries_miss_without_failing() {
    let f = Expr::function(Symbol::new("f"), vec![Expr::integer(1), Expr::integer(2)]);
    assert!(f.normal_part(0).unwrap() == &Expr::integer(1));
    assert!(f.normal_part(1).unwrap() == &Expr::integer(2));
    assert!(f.normal_part(2).is_none());
    assert!(Expr::integer(1).normal_part(0).is_none());
    assert!(f.normal_head().unwrap() == Expr::symbol(Symbol::new("f")));
    assert!(Expr::string("x").normal_head().is_none());
    assert!(f.has_normal_head(&Symbol::new("f")));
    assert!(!f.has_normal_head(&Symbol::new("g")));
    assert!(!Expr::symbol(Symbol::new("f")).has_normal_head(&Symbol::new("f")));
}

#[test]
fn normal_accessors() {
    let n = Normal::new(Expr::symbol(Symbol::new("f")), vec![Expr::integer(7)]);
    assert!(n.head() == &Expr::symbol(Symbol::new("f")));
    assert_eq!(n.elements().len(), 1);
    assert!(n.has_head(&Symbol::new("f")));
    let e = Expr::new(ExprKind::Normal(n));
    let n = match e.to_kind() {
        ExprKind::Normal(n) => n,
        _ => panic!("not a normal expression"),
    };
    let elems = n.into_elements();
    assert!(elems[0] == Expr::integer(7));
}

#[test]
fn mutation_through_a_clone_is_not_seen_by_the_first_handle() {
    let a = Expr::list(vec![Expr::integer(1), Expr::integer(2)]);
    let mut b = a.clone();
    assert_eq!(a.ref_count(), 2);
    *b.kind_mut() = ExprKind::Integer(5);
    assert!(b == Expr::integer(5));
    assert!(a == Expr::list(vec![Expr::integer(1), Expr::integer(2)]));
    assert_eq!(a.ref_count(), 1);
    let mut c = a.clone();
    if let ExprKind::Normal(_) = c.kind_mut() {
    } else {
        panic!("not a normal expression");
    }
    assert_eq!(a.ref_count(), 1);
    assert!(c == a);
}

#[test]
fn clone_leaves_children_counts_alone() {
    let child = Expr::integer(1);
    let parent = Expr::list(vec![child.clone()]);
    assert_eq!(child.ref_count(), 2);
    let copy = parent.clone();
    assert_eq!(parent.ref_count(), 2);
    assert_eq!(child.ref_count(), 2);
    drop(copy);
    assert_eq!(parent.ref_count(), 1);
}

#[test]
fn to_kind_without_other_handles() {
    let e = Expr::string("x");
    match e.to_kind() {
        ExprKind::String(s) => assert_eq!(s, "x"),
        _ => panic!("not a string"),
    }
    let e = Expr::integer(3);
    let keep = e.clone();
    match e.to_kind() {
        ExprKind::Integer(n) => assert_eq!(n, 3),
        _ => panic!("not an integer"),
    }
    assert!(keep == Expr::integer(3));
}

#[test]
fn rules_lists_and_null() {
    let r = Expr::rule(Expr::symbol(Symbol::new("x")), Expr::integer(1));
    assert_eq!(r.to_text(&real_text), "System`Rule[x, 1]");
    let d = Expr::rule_delayed(Expr::symbol(Symbol::new("x")), Expr::integer(1));
    assert_eq!(d.to_text(&real_text), "System`RuleDelayed[x, 1]");
    let l = Expr::list(vec![Expr::integer(1), Expr::integer(2), Expr::integer(3)]);
    assert_eq!(l.to_text(&real_text), "System`List[1, 2, 3]");
    assert_eq!(Expr::null().to_text(&real_text), "System`Null");
}

#[test]
fn text_of_scalars_and_normals() {
    assert_eq!(Expr::integer(-120).to_text(&real_text), "-120");
    assert_eq!(Expr::integer(0).to_text(&real_text), "0");
    assert_eq!(Expr::integer(i64::MIN).to_text(&real_text), "-9223372036854775808");
    assert_eq!(Expr::string("a\"b\n").to_text(&real_text), "\"a\\\"b\\n\"");
    let f = Expr::function(Symbol::new("f"), vec![]);
    assert_eq!(f.to_text(&real_text), "f[]");
    let g = Expr::normal(Expr::function(Symbol::new("g"), vec![Expr::integer(1)]), vec![Expr::integer(2)]);
    assert_eq!(g.to_text(&real_text), "g[1][2]");
}

#[test]
fn reals_are_written_by_the_given_renderer() {
    let x = Expr::number(Number::Real(F64::from_bits(1.5f64.to_bits()).unwrap()));
    assert_eq!(x.to_text(&real_text), "1.5");
    let f = Expr::function(Symbol::new("f"), vec![x, Expr::integer(2)]);
    assert_eq!(f.to_text(&real_text), "f[1.5, 2]");
    let mut a = Association::new();
    a.insert(Expr::string("r"), f);
    assert_eq!(a.to_text(&real_text), "<|\"r\" -> f[1.5, 2]|>");
}

#[test]
fn association_keeps_first_insertion_order() {
    let mut a = Association::new();
    a.insert(Expr::string("a"), Expr::integer(1));
    a.insert(Expr::string("b"), Expr::integer(2));
    a.insert(Expr::string("c"), Expr::integer(3));
    a.insert_delayed(Expr::string("b"), Expr::integer(20));
    assert_eq!(a.len(), 3);
    let keys: Vec<String> = (0..a.len()).map(|i| a.get_index(i).unwrap().0.to_text(&real_text)).collect();
    assert_eq!(keys, vec!["\"a\"", "\"b\"", "\"c\""]);
    let (_, delayed, value) = a.get_index(1).unwrap();
    assert!(delayed);
    assert!(value == Expr::integer(20));
    assert!(a.get_index(3).is_none());
}

#[test]
fn association_compact_text() {
    let mut a = Association::new();
    a.insert(Expr::string("a"), Expr::integer(1));
    a.insert_delayed(Expr::string("b"), Expr::integer(2));
    assert_eq!(a.to_text(&real_text), "<|\"a\" -> 1, \"b\" :> 2|>");
    assert_eq!(Association::new().to_text(&real_text), "<||>");
}

#[test]
fn association_pretty_text() {
    let mut a = Association::new();
    a.insert(Expr::string("a"), Expr::integer(1));
    a.insert_delayed(Expr::string("b"), Expr::integer(2));
    assert_eq!(a.fmt_indent(true, 0, &real_text), "<|\n    \"a\" -> 1,\n    \"b\" :> 2\n|>");
}

#[test]
fn association_as_expression() {
    let mut a = Association::default();
    a.insert(Expr::string("a"), Expr::integer(1));
    a.insert_delayed(Expr::string("b"), Expr::integer(2));
    let e = a.as_expr();
    assert_eq!(
        e.to_text(&real_text),
        "System`Association[System`Rule[\"a\", 1], System`RuleDelayed[\"b\", 2]]"
    );
    assert!(Expr::association(a) == e);
}

#[test]
fn system_symbols() {
    assert!(Symbol::new("System`List").is_system_symbol());
    assert!(!Symbol::new("Global`x").is_system_symbol());
    assert!(!Symbol::new("Sys").is_system_symbol());
    assert!(Symbol::new("a") == Symbol::new("a"));
}

#[test]
fn indent_appends_spaces() {
    let mut s = String::from("ab");
    indent_amount(&mut s, 3);
    assert_eq!(s, "ab   ");
}

#[test]
fn owned_tree_queries() {
    let f = owned::Expr::normal(owned::Expr::Symbol(Symbol::new("f")), vec![owned::Expr::Number(owned::Number::Integer(1))]);
    assert_eq!(f.tag().unwrap().as_str(), "f");
    let g = owned::Expr::normal(f, vec![]);
    assert_eq!(g.tag().unwrap().as_str(), "f");
    assert!(owned::Expr::String(String::from("s")).tag().is_none());
    let n = owned::Normal::new(owned::Expr::Symbol(Symbol::new("h")), vec![]);
    assert!(n.has_head(Symbol::new("h")));
    assert!(!n.has_head(Symbol::new("k")));
}

#[test]
fn column_defaults_to_last_line_width() {
    let mut base = String::from("ab\ncd");
    column_offset_append(&mut base, "x\ny\r\nz", None);
    assert_eq!(base, "ab\ncdx\n  y\n  z");
}

#[test]
fn column_given_explicitly() {
    let mut base = String::from("q");
    column_offset_append(&mut base, "a\n\nb\n", Some(4));
    assert_eq!(base, "qa\n    \n    b");
}

#[test]
fn column_after_final_newline_and_empty_input() {
    let mut base = String::from("abc\n");
    column_offset_append(&mut base, "1\n2", None);
    assert_eq!(base, "abc\n1\n   2");
    let mut base = String::from("x");
    column_offset_append(&mut base, "", None);
    assert_eq!(base, "x");
    let mut base = String::new();
    column_offset_append(&mut base, "a\nb\r", None);
    assert_eq!(base, "a\nb\r");
}

#[test]
fn owned_tree_text_quotes_strings_as_they_are() {
    let f = owned::Expr::normal(
        owned::Expr::Symbol(Symbol::new("f")),
        vec![
            owned::Expr::Number(owned::Number::Integer(-3)),
            owned::Expr::String(String::from("a\"b")),
            owned::Expr::normal(owned::Expr::Symbol(Symbol::new("g")), vec![]),
        ],
    );
    assert_eq!(f.to_text(), "f[-3, \"a\\\"b\", g[]]");
}

#[test]
fn association_clone_keeps_records() {
    let mut a = Association::new();
    a.insert(Expr::integer(1), Expr::string("one"));
    let mut b = a.clone();
    b.insert(Expr::integer(2), Expr::string("two"));
    assert_eq!(a.len(), 1);
    assert_eq!(b.len(), 2);
    assert_eq!(b.to_text(&real_text), "<|1 -> \"one\", 2 -> \"two\"|>");
}

#[test]
fn decoding_gives_back_the_encoded_expression() {
    let x = Expr::number(Number::Real(F64::from_bits((-2.25f64).to_bits()).unwrap()));
    let trees = vec![
        Expr::integer(-7),
        Expr::string("héllo"),
        Expr::symbol(Symbol::new("System`List")),
        Expr::normal(Expr::function(Symbol::new("g"), vec![Expr::integer(1)]), vec![Expr::integer(2)]),
        Expr::list(vec![x, Expr::string(&"y".repeat(200)), Expr::function(Symbol::new("f"), vec![])]),
    ];
    for e in trees {
        let back = Expr::from_wxf(&e.as_wxf()).unwrap();
        assert!(back == e);
        assert_eq!(back.as_wxf(), e.as_wxf());
    }
}

#[test]
fn decoding_the_curried_stream() {
    let bytes = [56, 58, 102, 1, 102, 1, 83, 3, 83, 105, 110, 76, 1, 0, 0, 0, 0, 0, 0, 0, 76, 2, 0, 0, 0, 0, 0, 0, 0];
    let e = Expr::from_wxf(&bytes).unwrap();
    let expected = Expr::normal(Expr::normal(Expr::string("Sin"), vec![Expr::integer(1)]), vec![Expr::integer(2)]);
    assert!(e == expected);
}

#[test]
fn decoding_errors() {
    assert!(matches!(Expr::from_wxf(&[]), Err(DecodeError::BadHeader)));
    assert!(matches!(Expr::from_wxf(&[56, 67, 58]), Err(DecodeError::BadHeader)));
    assert!(matches!(Expr::from_wxf(&[56, 58]), Err(DecodeError::Truncated)));
    assert!(matches!(Expr::from_wxf(&[56, 58, 76, 1, 0]), Err(DecodeError::Truncated)));
    assert!(matches!(Expr::from_wxf(&[56, 58, 90]), Err(DecodeError::UnknownTag(90))));
    assert!(matches!(Expr::from_wxf(&[56, 58, 83, 0x80]), Err(DecodeError::BadLength)));
    assert!(matches!(Expr::from_wxf(&[56, 58, 83, 0x80, 0x00]), Err(DecodeError::BadLength)));
    assert!(matches!(Expr::from_wxf(&[56, 58, 83, 5, 97]), Err(DecodeError::Truncated)));
    assert!(matches!(Expr::from_wxf(&[56, 58, 83, 1, 0xff]), Err(DecodeError::BadText)));
    let mut nan = vec![56u8, 58, 114];
    nan.extend_from_slice(&f64::NAN.to_bits().to_le_bytes());
    assert!(matches!(Expr::from_wxf(&nan), Err(DecodeError::NotANumber)));
    assert!(matches!(Expr::from_wxf(&[56, 58, 83, 0, 0]), Err(DecodeError::TrailingBytes)));
    assert!(matches!(Expr::from_wxf(&[56, 58, 102, 2, 115, 1, 102, 76]), Err(DecodeError::Truncated)));
}

#[test]
fn kinds_and_normals_compare_by_value() {
    let a = Expr::function(Symbol::new("f"), vec![Expr::integer(1)]);
    let b = Expr::function(Symbol::new("f"), vec![Expr::integer(1)]);
    let c = Expr::function(Symbol::new("f"), vec![Expr::integer(2)]);
    assert!(a.kind() == b.kind());
    assert!(a.kind() != c.kind());
    match (a.kind(), c.kind()) {
        (ExprKind::Normal(x), ExprKind::Normal(y)) => {
            assert!(x != y);
            assert!(x == &Normal::new(Expr::symbol(Symbol::new("f")), vec![Expr::integer(1)]));
        },
        _ => panic!("not normal expressions"),
    }
    assert!(Expr::string("1") != Expr::integer(1));
}

#[test]
fn association_lookup_by_key() {
    let mut a = Association::new();
    a.insert(Expr::string("a"), Expr::integer(1));
    a.insert_delayed(Expr::string("b"), Expr::integer(2));
    let (delayed, value) = a.get(&Expr::string("b")).unwrap();
    assert!(delayed);
    assert!(value == Expr::integer(2));
    let (delayed, value) = a.get(&Expr::string("a")).unwrap();
    assert!(!delayed);
    assert!(value == Expr::integer(1));
    assert!(a.get(&Expr::string("c")).is_none());
    assert!(a.get(&Expr::symbol(Symbol::new("a"))).is_none());
}
