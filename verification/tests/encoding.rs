use objc_encode::encoding::Encoding;

#[test]
fn test_array_display() {
    let e = Encoding::Array(12, &Encoding::Int);
    assert_eq!(e.to_string(), "[12i]");
    assert!(e.equivalent_to_str("[12i]"));
}

#[test]
fn test_pointer_display() {
    let e = Encoding::Pointer(&Encoding::Int);
    assert_eq!(e.to_string(), "^i");
    assert!(e.equivalent_to_str("^i"));
}

#[test]
fn test_pointer_eq() {
    let i = Encoding::Int;
    let p = Encoding::Pointer(&Encoding::Int);

    assert_eq!(p, p);
    assert_ne!(p, i);
    assert!(p.equivalent_to(&p));
    assert!(!p.equivalent_to(&i));
}

#[test]
fn test_int_display() {
    assert_eq!(Encoding::Int.to_string(), "i");
    assert!(Encoding::Int.equivalent_to_str("i"));
}

#[test]
fn test_eq() {
    let i = Encoding::Int;
    let c = Encoding::Char;

    assert_eq!(i, i);
    assert_ne!(i, c);
    assert!(i.equivalent_to(&i));
    assert!(!i.equivalent_to(&c));
}

#[test]
fn test_struct_display() {
    let fields = vec![Encoding::Char, Encoding::Int];
    let s = Encoding::Struct("CGPoint", &fields);
    assert_eq!(s.to_string(), "{CGPoint=ci}");
    assert!(s.equivalent_to_str("{CGPoint=ci}"));
}

#[test]
fn test_struct_eq() {
    let fields = vec![Encoding::Char, Encoding::Int];
    let s = Encoding::Struct("CGPoint", &fields);
    assert_eq!(s, s);
    assert_ne!(s, Encoding::Int);
    assert!(s.equivalent_to(&s));
    assert!(!s.equivalent_to(&Encoding::Int));
}

#[test]
fn test_union_display() {
    let members = vec![Encoding::Char, Encoding::Int];
    let u = Encoding::Union("Onion", &members);
    assert_eq!(u.to_string(), "(Onion=ci)");
    assert!(u.equivalent_to_str("(Onion=ci)"));
}

#[test]
fn test_union_eq() {
    let members = vec![Encoding::Char, Encoding::Int];
    let u = Encoding::Union("Onion", &members);
    assert_eq!(u, u);
    assert_ne!(u, Encoding::Int);
    assert!(u.equivalent_to(&u));
    assert!(!u.equivalent_to(&Encoding::Int));
}

#[test]
fn every_primitive_renders_its_code() {
    let table = [
        (Encoding::Char, "c"),
        (Encoding::Short, "s"),
        (Encoding::Int, "i"),
        (Encoding::Long, "l"),
        (Encoding::LongLong, "q"),
        (Encoding::UChar, "C"),
        (Encoding::UShort, "S"),
        (Encoding::UInt, "I"),
        (Encoding::ULong, "L"),
        (Encoding::ULongLong, "Q"),
        (Encoding::Float, "f"),
        (Encoding::Double, "d"),
        (Encoding::LongDouble, "D"),
        (Encoding::FloatComplex, "jf"),
        (Encoding::DoubleComplex, "jd"),
        (Encoding::LongDoubleComplex, "jD"),
        (Encoding::Bool, "B"),
        (Encoding::Void, "v"),
        (Encoding::String, "*"),
        (Encoding::Object, "@"),
        (Encoding::Block, "@?"),
        (Encoding::Class, "#"),
        (Encoding::Sel, ":"),
        (Encoding::Unknown, "?"),
    ];
    for (e, code) in table.iter() {
        assert_eq!(e.to_string(), *code);
        assert_eq!(e.end_str_len(), code.len());
        assert!(e.equivalent_to_str(code));
        for (other, _) in table.iter() {
            assert_eq!(e.equivalent_to(other), e.to_string() == other.to_string());
        }
    }
}

#[test]
fn bitfield_rendering() {
    assert_eq!(Encoding::BitField(255).to_string(), "b255");
    assert_eq!(Encoding::BitField(0).to_string(), "b0");
    assert_eq!(Encoding::BitField(32).to_string(), "b32");
    assert!(Encoding::BitField(32).equivalent_to_str("b32"));
    assert!(!Encoding::BitField(32).equivalent_to_str("b33"));
    assert!(!Encoding::BitField(32).equivalent_to_str("b3"));
}

#[test]
fn array_rendering() {
    assert_eq!(Encoding::Array(8, &Encoding::Bool).to_string(), "[8B]");
    assert_eq!(Encoding::Array(0, &Encoding::Bool).to_string(), "[0B]");
    let inner = Encoding::Array(3, &Encoding::Int);
    assert_eq!(Encoding::Array(10, &inner).to_string(), "[10[3i]]");
    assert_eq!(
        Encoding::Array(usize::MAX, &Encoding::Char).to_string(),
        format!("[{}c]", usize::MAX)
    );
}

#[test]
fn block_is_not_object() {
    assert_eq!(Encoding::Block.to_string(), "@?");
    assert_eq!(Encoding::Object.to_string(), "@");
    assert!(!Encoding::Block.equivalent_to(&Encoding::Object));
    assert!(!Encoding::Object.equivalent_to_str("@?"));
    assert!(!Encoding::Block.equivalent_to_str("@"));
    assert_eq!(Encoding::Object.equivalent_to_start_of_str("@?"), Some("?"));
    assert_eq!(Encoding::Block.equivalent_to_start_of_str("@?"), Some(""));
}

#[test]
fn field_order_shows_in_text() {
    let ci = vec![Encoding::Char, Encoding::Int];
    let ic = vec![Encoding::Int, Encoding::Char];
    let a = Encoding::Struct("P", &ci);
    let b = Encoding::Struct("P", &ic);
    assert_eq!(a.to_string(), "{P=ci}");
    assert_eq!(b.to_string(), "{P=ic}");
    assert!(!a.equivalent_to(&b));
    assert!(!a.equivalent_to_str("{P=ic}"));
}

#[test]
fn struct_name_counts() {
    let fields = vec![Encoding::Int];
    let a = Encoding::Struct("A", &fields);
    let b = Encoding::Struct("B", &fields);
    assert!(!a.equivalent_to(&b));
    assert!(!b.equivalent_to(&a));
    assert_ne!(a, b);
    assert!(!a.equivalent_to_str("{B=i}"));
    assert!(a.equivalent_to_str("{A=i}"));
}

#[test]
fn struct_is_not_union() {
    let fields = vec![Encoding::Int];
    let s = Encoding::Struct("A", &fields);
    let u = Encoding::Union("A", &fields);
    assert!(!s.equivalent_to(&u));
    assert!(!u.equivalent_to(&s));
    assert!(!s.equivalent_to_str("(A=i)"));
    assert!(!u.equivalent_to_str("{A=i}"));
}

#[test]
fn field_count_counts() {
    let one = vec![Encoding::Int];
    let two = vec![Encoding::Int, Encoding::Int];
    let none: Vec<Encoding> = vec![];
    let a = Encoding::Struct("A", &one);
    let b = Encoding::Struct("A", &two);
    let c = Encoding::Struct("A", &none);
    assert!(!a.equivalent_to(&b));
    assert!(!b.equivalent_to(&a));
    assert!(!a.equivalent_to(&c));
    assert!(c.equivalent_to(&c));
    assert_eq!(c.to_string(), "{A=}");
    assert!(!a.equivalent_to_str("{A=ii}"));
    assert!(!b.equivalent_to_str("{A=i}"));
}

#[test]
fn equivalence_is_an_equivalence_on_samples() {
    let fields = vec![Encoding::Char, Encoding::Pointer(&Encoding::Void)];
    let same = vec![Encoding::Char, Encoding::Pointer(&Encoding::Void)];
    let other = vec![Encoding::Char, Encoding::Pointer(&Encoding::Int)];
    let a = Encoding::Struct("?", &fields);
    let b = Encoding::Struct("?", &same);
    let c = Encoding::Struct("?", &same);
    let d = Encoding::Struct("?", &other);
    assert!(a.equivalent_to(&a));
    assert!(a.equivalent_to(&b) && b.equivalent_to(&a));
    assert!(b.equivalent_to(&c) && a.equivalent_to(&c));
    assert!(!a.equivalent_to(&d) && !d.equivalent_to(&a));
    assert!(!Encoding::Int.equivalent_to(&Encoding::Long));
    assert!(!Encoding::Array(2, &Encoding::Int).equivalent_to(&Encoding::Array(3, &Encoding::Int)));
    assert!(!Encoding::BitField(2).equivalent_to(&Encoding::BitField(3)));
    assert!(!Encoding::Pointer(&Encoding::Int).equivalent_to(&Encoding::Array(1, &Encoding::Int)));
}

#[test]
fn leading_qualifiers_are_passed_over() {
    let fields = vec![Encoding::Char, Encoding::Int];
    let s = Encoding::Struct("CGPoint", &fields);
    for q in ["r", "n", "N", "o", "O", "R", "V", "rnNoORV", "VV"] {
        assert!(s.equivalent_to_str(&format!("{}{{CGPoint=ci}}", q)));
        assert!(Encoding::Int.equivalent_to_str(&format!("{}i", q)));
        assert!(Encoding::Pointer(&Encoding::Int).equivalent_to_str(&format!("{}^i", q)));
    }
    assert!(!Encoding::Int.equivalent_to_str("xi"));
    assert!(!Encoding::Int.equivalent_to_str("ir"));
    assert!(!Encoding::Pointer(&Encoding::Int).equivalent_to_str("^ri"));
}

#[test]
fn start_of_str_gives_the_rest() {
    let p = Encoding::Pointer(&Encoding::Int);
    assert_eq!(p.equivalent_to_start_of_str("^ic"), Some("c"));
    assert_eq!(p.equivalent_to_start_of_str("r^i"), Some(""));
    assert_eq!(p.equivalent_to_start_of_str("^"), None);
    assert_eq!(p.equivalent_to_start_of_str(""), None);
    assert_eq!(p.equivalent_to_start_of_str("i^i"), None);
    assert!(!p.equivalent_to_str("^ic"));
    assert!(!p.equivalent_to_str(""));
    let members = vec![Encoding::Float];
    let u = Encoding::Union("U", &members);
    assert_eq!(u.equivalent_to_start_of_str("(U=f)(U=f)"), Some("(U=f)"));
    assert_eq!(u.equivalent_to_start_of_str("(U=f"), None);
    assert_eq!(Encoding::Int.equivalent_to_start_of_str("i\u{e9}"), Some("\u{e9}"));
}

#[test]
fn names_need_not_be_ascii() {
    let fields = vec![Encoding::Int];
    let s = Encoding::Struct("\u{e9}t\u{e9}", &fields);
    assert_eq!(s.to_string(), "{\u{e9}t\u{e9}=i}");
    assert_eq!(s.end_str_len(), 9);
    assert!(s.equivalent_to_str("{\u{e9}t\u{e9}=i}"));
    assert!(!s.equivalent_to_str("{ete=i}"));
    let anonymous = Encoding::Struct("?", &fields);
    assert_eq!(anonymous.to_string(), "{?=i}");
}

#[test]
fn only_canonical_numbers_match() {
    let a = Encoding::Array(12, &Encoding::Int);
    assert!(a.equivalent_to_str("[12i]"));
    assert!(!a.equivalent_to_str("[012i]"));
    assert!(!a.equivalent_to_str("[1i]"));
    assert!(!a.equivalent_to_str("[12i"));
    assert!(!a.equivalent_to_str("[12c]"));
}

#[test]
fn primitive_of_a_composite_is_nothing() {
    assert!(Encoding::Int.primitive().is_some());
    assert!(Encoding::Pointer(&Encoding::Int).primitive().is_none());
    assert!(Encoding::BitField(1).primitive().is_none());
}

#[test]
fn match_at_finds_the_text_in_the_middle() {
    let p = Encoding::Pointer(&Encoding::Int);
    assert_eq!(p.match_at(b"cc^ic", 2), Some(4));
    assert_eq!(p.match_at(b"cc^ic", 1), None);
    assert_eq!(p.match_at(b"cc^", 3), None);
    let mut out = String::from("x");
    p.write_to(&mut out);
    assert_eq!(out, "x^i");
}
