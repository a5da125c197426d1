use objc_encode::encoding::Encoding;
use objc_encode::static_int_str::{end_str_len, get_str_array};

fn text<const N: usize>(bytes: [u8; N]) -> String {
    String::from_utf8(bytes.to_vec()).unwrap()
}

#[test]
fn test() {
    assert_eq!(end_str_len(0), 1);
    assert_eq!(text(get_str_array::<1>(0)), "0");
    assert_eq!(end_str_len(4), 1);
    assert_eq!(text(get_str_array::<1>(4)), "4");
    assert_eq!(end_str_len(42), 2);
    assert_eq!(text(get_str_array::<2>(42)), "42");
    assert_eq!(end_str_len(100), 3);
    assert_eq!(text(get_str_array::<3>(100)), "100");
    assert_eq!(end_str_len(999), 3);
    assert_eq!(text(get_str_array::<3>(999)), "999");
    assert_eq!(end_str_len(1236018655), 10);
    assert_eq!(text(get_str_array::<10>(1236018655)), "1236018655");
}

#[test]
fn test_const_encoding() {
    assert_eq!(Encoding::Char.end_str_len(), 1);
    assert_eq!(text(Encoding::Char.get_str_array::<1>()), "c");
    assert_eq!(Encoding::Block.end_str_len(), 2);
    assert_eq!(text(Encoding::Block.get_str_array::<2>()), "@?");

    let fields = vec![Encoding::Int, Encoding::Double];
    let s = Encoding::Struct("abc", &fields);
    assert_eq!(s.end_str_len(), 8);
    assert_eq!(text(s.get_str_array::<8>()), "{abc=id}");

    let array = Encoding::Array(8, &Encoding::Bool);
    let members = vec![Encoding::Block];
    let bits = Encoding::BitField(255);
    let inner = Encoding::Pointer(&bits);
    let fields = vec![
        Encoding::Pointer(&array),
        Encoding::Union("def", &members),
        Encoding::Pointer(&inner),
        Encoding::Unknown,
    ];
    let various = Encoding::Struct("abc", &fields);
    assert_eq!(various.end_str_len(), 26);
    assert_eq!(text(various.get_str_array::<26>()), "{abc=^[8B](def=@?)^^b255?}");
}

#[test]
fn digits_of_the_largest_numbers() {
    assert_eq!(end_str_len(u128::MAX), 39);
    assert_eq!(
        text(get_str_array::<39>(u128::MAX)),
        "340282366920938463463374607431768211455"
    );
    assert_eq!(end_str_len(9), 1);
    assert_eq!(end_str_len(10), 2);
    assert_eq!(end_str_len(99), 2);
}

#[test]
fn bytes_behind_the_digits_are_zero() {
    assert_eq!(get_str_array::<5>(42), [b'4', b'2', 0, 0, 0]);
    assert_eq!(get_str_array::<3>(0), [b'0', 0, 0]);
}

#[test]
fn bytes_behind_the_text_are_zero() {
    let p = Encoding::Pointer(&Encoding::Int);
    assert_eq!(p.get_str_array::<4>(), [b'^', b'i', 0, 0]);
    assert_eq!(p.end_cstr_len(), 3);
    assert_eq!(p.get_cstr_array::<3>(), [b'^', b'i', 0]);
    assert_eq!(Encoding::Block.end_cstr_len(), 3);
    assert_eq!(Encoding::Block.get_cstr_array::<3>(), [b'@', b'?', 0]);
}

#[test]
fn fill_leaves_the_other_bytes() {
    let members = vec![Encoding::LongDoubleComplex, Encoding::BitField(7)];
    let u = Encoding::Union("u", &members);
    let mut buf = [b'.'; 12];
    let end = u.fill(&mut buf, 2);
    assert_eq!(end, 10);
    assert_eq!(&buf, b"..(u=jDb7)..");
    assert_eq!(u.end_str_len(), 8);
}

#[test]
fn length_and_text_agree() {
    let array = Encoding::Array(100, &Encoding::UShort);
    let fields = vec![array, Encoding::Sel, Encoding::Class, Encoding::String];
    let s = Encoding::Struct("name", &fields);
    let p = Encoding::Pointer(&s);
    assert_eq!(p.to_string(), "^{name=[100S]:#*}");
    assert_eq!(p.end_str_len(), p.to_string().len());
    assert_eq!(text(p.get_str_array::<17>()), p.to_string());
}
