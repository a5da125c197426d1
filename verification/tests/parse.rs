use objc_encode::encoding::Encoding;
use objc_encode::fields::SliceFields;
use objc_encode::parse::{is_valid, parse, parse_struct, ParseResult};
use objc_encode::primitive::Primitive;
use objc_encode::scan::{chomp, chomp_primitive, chomp_ptr, chomp_struct};
use objc_encode::str_encoding::{
    fields_eq, Descriptor, StrEncoding, StrPointerEncoding, StrStructEncoding,
};

#[test]
fn test_chomp() {
    let (h, t) = chomp("{A={B=ci^{C=c}}ci}c^i{C=c}");
    assert_eq!(h, Some("{A={B=ci^{C=c}}ci}"));

    let (h, t) = chomp(t);
    assert_eq!(h, Some("c"));

    let (h, t) = chomp(t);
    assert_eq!(h, Some("^i"));

    let (h, t) = chomp(t);
    assert_eq!(h, Some("{C=c}"));

    let (h, _) = chomp(t);
    assert_eq!(h, None);
}

#[test]
fn test_parsed_struct() {
    let s = StrStructEncoding::from_str_unchecked("{CGPoint=ci}");

    let (name, mut fields) = s.contents();
    assert_eq!(name, "CGPoint");
    assert_eq!(fields.next().unwrap().to_string(), "c");
    assert_eq!(fields.next().unwrap().to_string(), "i");
    assert!(fields.next().is_none());
}

#[test]
fn scan_of_the_whole_nested_struct() {
    let (h, t) = chomp("{A={B=ci^{C=c}}ci}");
    assert_eq!(h, Some("{A={B=ci^{C=c}}ci}"));
    assert_eq!(t, "");
    let (h, t) = chomp("{B=ci^{C=c}}ci");
    assert_eq!(h, Some("{B=ci^{C=c}}"));
    assert_eq!(t, "ci");
}

#[test]
fn scan_fails_cleanly() {
    assert_eq!(chomp(""), (None, ""));
    assert_eq!(chomp("{A=ci"), (None, "{A=ci"));
    assert_eq!(chomp("}"), (None, "}"));
    assert_eq!(chomp("^"), (None, "^"));
    assert_eq!(chomp("^^{"), (None, "^^{"));
    assert_eq!(chomp("x"), (None, "x"));
    assert_eq!(chomp("\u{e9}c"), (None, "\u{e9}c"));
    assert_eq!(chomp("1"), (None, "1"));
}

#[test]
fn scan_takes_the_shortest_prefix() {
    assert_eq!(chomp("{A=ci}}"), (Some("{A=ci}"), "}"));
    assert_eq!(chomp("ci"), (Some("c"), "i"));
    assert_eq!(chomp("^^ic"), (Some("^^i"), "c"));
    assert_eq!(chomp("@?"), (Some("@"), "?"));
    assert_eq!(chomp("{\u{e9}=c}\u{e9}"), (Some("{\u{e9}=c}"), "\u{e9}"));
    assert_eq!(chomp("{}"), (Some("{}"), ""));
}

#[test]
fn scan_knows_the_one_byte_codes() {
    for code in "csilqCSILQfdDBv*@#:?".chars() {
        let s = format!("{}x", code);
        let (h, t) = chomp(&s);
        assert_eq!(h, Some(&s[..1]));
        assert_eq!(t, "x");
        assert!(is_valid(&s[..1]));
    }
    assert_eq!(chomp_primitive("ci"), (Some(Primitive::Char), "i"));
    assert_eq!(chomp_primitive("i"), (Some(Primitive::Int), ""));
    assert_eq!(chomp_primitive("Q"), (Some(Primitive::ULongLong), ""));
    assert_eq!(chomp_primitive("j"), (None, "j"));
    assert_eq!(chomp_primitive(""), (None, ""));
    assert_eq!(chomp_primitive("^c"), (None, "^c"));
}

#[test]
fn parts_of_the_scanner() {
    assert_eq!(chomp_ptr("^ic"), Some(2));
    assert_eq!(chomp_ptr("^^{A=c}c"), Some(7));
    assert_eq!(chomp_ptr("^"), None);
    assert_eq!(chomp_ptr("i"), None);
    assert_eq!(chomp_ptr(""), None);
    assert_eq!(chomp_struct("{A={B=c}}c"), Some(9));
    assert_eq!(chomp_struct("{A={B=c}"), None);
    assert_eq!(chomp_struct("c{}"), None);
    assert_eq!(chomp_struct(""), None);
}

#[test]
fn classification() {
    assert_eq!(parse("c"), ParseResult::Primitive(Primitive::Char));
    assert_eq!(parse("i"), ParseResult::Primitive(Primitive::Int));
    assert_eq!(parse("^i"), ParseResult::Pointer);
    assert_eq!(parse("^"), ParseResult::Pointer);
    assert_eq!(parse("{A=ci}"), ParseResult::Struct);
    assert_eq!(parse("{}"), ParseResult::Struct);
    assert_eq!(parse("{A=c}{B=c}"), ParseResult::Struct);
    assert_eq!(parse(""), ParseResult::Error);
    assert_eq!(parse("ci"), ParseResult::Error);
    assert_eq!(parse("{A=ci"), ParseResult::Error);
    assert_eq!(parse("{"), ParseResult::Error);
    assert_eq!(parse("}"), ParseResult::Error);
    assert_eq!(parse("x"), ParseResult::Error);
    assert_eq!(parse("\u{e9}"), ParseResult::Error);
}

#[test]
fn struct_decomposition() {
    assert_eq!(parse_struct("{CGPoint=ci}"), Some(("CGPoint", "ci")));
    assert_eq!(parse_struct("{?=}"), Some(("?", "")));
    assert_eq!(parse_struct("{=}"), Some(("", "")));
    assert_eq!(parse_struct("{A={B=c}i}"), Some(("A", "{B=c}i")));
    assert_eq!(parse_struct("{\u{e9}=\u{e9}}"), Some(("\u{e9}", "\u{e9}")));
    assert_eq!(parse_struct("{}"), None);
    assert_eq!(parse_struct("{ci}"), None);
}

#[test]
fn well_formed_texts() {
    assert!(is_valid("c"));
    assert!(is_valid("^i"));
    assert!(is_valid("^^^c"));
    assert!(is_valid("{A=ci}"));
    assert!(is_valid("{?=}"));
    assert!(is_valid("{A={B=ci^{C=c}}ci}"));
    assert!(is_valid("^{A=^{B=^c}}"));
}

#[test]
fn malformed_texts() {
    assert!(!is_valid(""));
    assert!(!is_valid("{A=ci"));
    assert!(!is_valid("{A=ci}}"));
    assert!(!is_valid("{A=ci}c"));
    assert!(!is_valid("{Aci}"));
    assert!(!is_valid("{}"));
    assert!(!is_valid("^"));
    assert!(!is_valid("x"));
    assert!(!is_valid("ci"));
    assert!(!is_valid("{A=x}"));
    assert!(!is_valid("{A=c}{B=i}"));
    assert!(!is_valid("{A={B=c}"));
    assert!(!is_valid("{A=^}"));
    assert!(!is_valid("{A=c{B}}"));
    assert!(!is_valid("[8B]"));
    assert!(!is_valid("c\u{e9}"));
}

#[test]
fn every_field_has_to_be_well_formed() {
    assert!(is_valid("{A=c}"));
    assert!(is_valid("{A={B=c}}"));
    assert!(!is_valid("{A={Bc}}"));
    assert!(!is_valid("{A=c{B=x}}"));
}

#[test]
fn text_against_tree() {
    let fields = vec![Encoding::Char, Encoding::Int];
    let point = Encoding::Struct("CGPoint", &fields);
    let pointer = Encoding::Pointer(&point);
    assert!(StrEncoding::new_unchecked("c").eq_encoding(&Encoding::Char));
    assert!(!StrEncoding::new_unchecked("c").eq_encoding(&Encoding::Int));
    assert!(StrEncoding::new_unchecked("{CGPoint=ci}").eq_encoding(&point));
    assert!(StrEncoding::new_unchecked("^{CGPoint=ci}").eq_encoding(&pointer));
    assert!(!StrEncoding::new_unchecked("{CGPoint=ci}").eq_encoding(&pointer));
    assert!(!StrEncoding::new_unchecked("{CGPoint=ic}").eq_encoding(&point));
    assert!(!StrEncoding::new_unchecked("{CGPoint=c}").eq_encoding(&point));
    assert!(!StrEncoding::new_unchecked("{CGPoint=cii}").eq_encoding(&point));
    assert!(!StrEncoding::new_unchecked("{CGSize=ci}").eq_encoding(&point));
    assert!(!StrEncoding::new_unchecked("{CGPoint=ci").eq_encoding(&point));
    assert!(!StrEncoding::new_unchecked("{CGPoint=cx}").eq_encoding(&point));
    assert!(!StrEncoding::new_unchecked("").eq_encoding(&point));
    let members = vec![Encoding::Char, Encoding::Int];
    let union = Encoding::Union("CGPoint", &members);
    assert!(!StrEncoding::new_unchecked("{CGPoint=ci}").eq_encoding(&union));
    assert!(!StrEncoding::new_unchecked("^i").eq_encoding(&Encoding::Array(1, &Encoding::Int)));
}

#[test]
fn parse_then_render_gives_the_text_back() {
    let inner_fields = vec![Encoding::Char];
    let c = Encoding::Struct("C", &inner_fields);
    let b_fields = vec![Encoding::Char, Encoding::Int, Encoding::Pointer(&c)];
    let b = Encoding::Struct("B", &b_fields);
    let a_fields = vec![b, Encoding::Char, Encoding::Int];
    let a = Encoding::Struct("A", &a_fields);
    let text = "{A={B=ci^{C=c}}ci}";
    assert!(is_valid(text));
    assert!(StrEncoding::new_unchecked(text).eq_encoding(&a));
    assert_eq!(a.to_string(), text);
    assert!(a.equivalent_to_str(text));
    assert_eq!(StrEncoding::new_unchecked(text).to_string(), text);
    assert_eq!(StrEncoding::new_unchecked(text).as_str(), text);
}

#[test]
fn descriptor_of_each_form() {
    assert!(matches!(
        StrEncoding::new_unchecked("i").descriptor(),
        Descriptor::Primitive(Primitive::Int)
    ));
    match StrEncoding::new_unchecked("^{A=c}").descriptor() {
        Descriptor::Pointer(p) => {
            assert_eq!(p.as_str(), "^{A=c}");
            assert_eq!(p.pointee().as_str(), "{A=c}");
        }
        _ => panic!("a pointer"),
    }
    match StrEncoding::new_unchecked("{A=c}").descriptor() {
        Descriptor::Struct(s) => {
            assert_eq!(s.as_str(), "{A=c}");
            assert_eq!(s.name(), "A");
        }
        _ => panic!("a struct"),
    }
}

#[test]
fn pointer_and_struct_texts() {
    let p = StrPointerEncoding::from_str_unchecked("^^i");
    let inner = Encoding::Pointer(&Encoding::Int);
    assert!(p.eq_encoding(&Encoding::Pointer(&inner)));
    assert!(!p.eq_encoding(&inner));
    assert!(!StrPointerEncoding::from_str_unchecked("i").eq_encoding(&Encoding::Int));

    let s = StrStructEncoding::from_str_unchecked("{A=c^i}");
    let fields = vec![Encoding::Char, inner];
    let wrong = vec![Encoding::Char];
    assert!(s.eq_struct("A", &fields));
    assert!(!s.eq_struct("B", &fields));
    assert!(!s.eq_struct("A", &wrong));
    assert!(s.eq_encoding(&Encoding::Struct("A", &fields)));
    assert!(!s.eq_encoding(&Encoding::Union("A", &fields)));
    assert!(!StrStructEncoding::from_str_unchecked("c").eq_encoding(&Encoding::Char));
}

#[test]
fn fields_one_at_a_time() {
    let s = StrStructEncoding::from_str_unchecked("{A={B=c}^ic}");
    let (_, mut fields) = s.contents();
    assert!(!fields.is_finished());
    assert!(!fields.eq_next(&Encoding::Char));
    assert!(fields.eq_next(&Encoding::Pointer(&Encoding::Int)));
    assert!(fields.eq_next(&Encoding::Char));
    assert!(fields.is_finished());
    assert!(!fields.eq_next(&Encoding::Char));

    let (_, fields) = s.contents();
    let inner = vec![Encoding::Char];
    let items = vec![
        Encoding::Struct("B", &inner),
        Encoding::Pointer(&Encoding::Int),
        Encoding::Char,
    ];
    assert!(fields.eq(&items));
    assert!(fields_eq("{B=c}^ic", &items));
    assert!(!fields_eq("{B=c}^i", &items));
    assert!(!fields_eq("{B=c}^icc", &items));
    assert!(!fields_eq("{B=c}^i?", &items));
    let none: Vec<Encoding> = vec![];
    assert!(fields_eq("", &none));
    assert!(!fields_eq("c", &none));
}

#[test]
fn tree_fields_one_at_a_time() {
    let items = vec![Encoding::Char, Encoding::Pointer(&Encoding::Int)];
    let mut fields = SliceFields::new(&items);
    assert!(!fields.is_finished());
    assert!(!fields.eq_next(&Encoding::Int));
    assert_eq!(fields.next(), Some(Encoding::Pointer(&Encoding::Int)));
    assert!(fields.is_finished());
    assert_eq!(fields.next(), None);
    assert!(!fields.eq_next(&Encoding::Char));

    let mut text = StrStructEncoding::from_str_unchecked("{A=c^i}").contents().1;
    let mut tree = SliceFields::new(&items);
    while let Some(field) = tree.next() {
        assert!(text.eq_next(&field));
    }
    assert!(text.is_finished());
}

#[test]
fn checked_constructor() {
    assert!(StrEncoding::new("{A=c^i}").is_some());
    assert_eq!(StrEncoding::new("{A=c^i}").unwrap().as_str(), "{A=c^i}");
    assert!(StrEncoding::new("{A=c^i").is_none());
    assert!(StrEncoding::new("").is_none());
}

#[test]
fn qualifiers_count_for_the_parser_only() {
    assert!(!is_valid("ri"));
    assert!(!StrEncoding::new_unchecked("ri").eq_encoding(&Encoding::Int));
    assert!(Encoding::Int.equivalent_to_str("ri"));
    assert!(StrEncoding::new_unchecked("i").eq_encoding(&Encoding::Int));
    assert!(Encoding::Int.equivalent_to_str("i"));
}

#[test]
fn two_byte_codes_are_read_as_two_fields() {
    let block = vec![Encoding::Block];
    let two = vec![Encoding::Object, Encoding::Unknown];
    let text = StrEncoding::new_unchecked("{A=@?}");
    assert!(text.eq_encoding(&Encoding::Struct("A", &two)));
    assert!(!text.eq_encoding(&Encoding::Struct("A", &block)));
    assert!(Encoding::Struct("A", &block).equivalent_to_str("{A=@?}"));
    assert!(Encoding::Struct("A", &two).equivalent_to_str("{A=@?}"));
}
