use std::borrow::Borrow;
use lib::primitives::{Dict, Name, Primitives, Ref};

#[test]
fn ref_accessors_and_text() {
    let r = Ref::new(12, 0);
    assert_eq!(r.num(), 12);
    assert_eq!(r.gen(), 0);
    assert_eq!(r.to_string(), "12R");
    assert_eq!(Ref::new(3, 5).to_string(), "3R5");
    assert_eq!(Ref::new(-40, 0).to_string(), "-40R");
    assert_eq!(Ref::new(i32::MIN, i32::MAX).to_string(), "-2147483648R2147483647");
    assert_eq!(Ref::new(0, -1).to_string(), "0R-1");
}

#[test]
fn name_as_text() {
    let n = Name(b"Type".to_vec());
    assert_eq!(n.name(), "Type");
    let u = Name("\u{e9}t\u{e9}".as_bytes().to_vec());
    assert_eq!(u.name(), "\u{e9}t\u{e9}");
}

#[test]
fn dict_has_and_get() {
    let d = Dict::new(vec![
        (Name(b"Size".to_vec()), Primitives::Int(3)),
        (Name(b"Root".to_vec()), Primitives::Ref(Ref::new(1, 0))),
    ]);
    assert!(d.has(b"Size"));
    assert!(d.has(b"Root"));
    assert!(!d.has(b"Prev"));
    assert!(d.get(b"Size").is_none());
    assert!(d.obj_id().is_none());
}

#[test]
fn dict_insert_replaces() {
    let mut d = Dict::empty();
    d.insert(Name(b"A".to_vec()), Primitives::Int(1));
    d.insert(Name(b"B".to_vec()), Primitives::Int(2));
    d.insert(Name(b"A".to_vec()), Primitives::Int(3));
    let expected = Dict::new(vec![
        (Name(b"A".to_vec()), Primitives::Int(3)),
        (Name(b"B".to_vec()), Primitives::Int(2)),
    ]);
    assert_eq!(d, expected);
    assert!(d.has(b"A"));
}

#[test]
fn dict_obj_id() {
    let mut d = Dict::empty();
    d.set_obj_id("7R");
    assert_eq!(d.obj_id(), Some(&"7R".to_string()));
}

#[test]
fn primitives_predicates() {
    let c = Primitives::cmd("obj");
    assert!(c.is_cmd("obj"));
    assert!(!c.is_cmd("ob"));
    assert_eq!(c.get_cmd(), Some(&b"obj".to_vec()));
    assert!(!c.is_name());
    let n = Primitives::name(b"Pages".to_vec());
    assert!(n.is_name());
    assert_eq!(n, Primitives::Name(Name(b"Pages".to_vec())));
    let i = Primitives::Int(-5);
    assert!(i.is_integer());
    assert_eq!(i.get_integer(), Some(-5));
    assert_eq!(c.get_integer(), None);
    let s = Primitives::Str(b"hi".to_vec());
    assert!(s.is_string());
    assert_eq!(s.get_str(), Some(&b"hi".to_vec()));
    assert_eq!(i.get_str(), None);
    let h = Primitives::HexStr(vec![0x41, 0x42]);
    assert_eq!(h.get_hexstr(), Some(&vec![0x41u16, 0x42]));
    assert!(Primitives::EOF.is_eof());
    assert!(!Primitives::Null.is_eof());
}

#[test]
fn primitives_dict_access() {
    let mut p = Primitives::Dict(Dict::new(vec![(Name(b"K".to_vec()), Primitives::Null)]));
    assert!(p.get_dict().unwrap().has(b"K"));
    p.get_dict_mut().unwrap().set_obj_id("1R");
    let d = p.unwrap_dict();
    assert_eq!(d.obj_id(), Some(&"1R".to_string()));
    let mut q = Primitives::Int(1);
    assert!(q.get_dict_mut().is_none());
    assert!(q.get_dict().is_none());
}

#[test]
fn clone_is_deep_and_equal() {
    let p = Primitives::Array(vec![
        Primitives::Int(1),
        Primitives::Dict(Dict::new(vec![(Name(b"A".to_vec()), Primitives::Str(b"x".to_vec()))])),
        Primitives::Ref(Ref::new(2, 0)),
        Primitives::Real(0x3ff0_0000_0000_0000),
    ]);
    let q = p.clone();
    assert_eq!(p, q);
}

#[test]
fn dict_equality_ignores_entry_order() {
    let a = Dict::new(vec![
        (Name(b"A".to_vec()), Primitives::Int(1)),
        (Name(b"B".to_vec()), Primitives::Int(2)),
    ]);
    let b = Dict::new(vec![
        (Name(b"B".to_vec()), Primitives::Int(2)),
        (Name(b"A".to_vec()), Primitives::Int(1)),
    ]);
    assert!(a == b);
    assert!(Primitives::Dict(a) == Primitives::Dict(b));
    let c = Dict::new(vec![(Name(b"A".to_vec()), Primitives::Int(1))]);
    let d = Dict::new(vec![(Name(b"A".to_vec()), Primitives::Int(2))]);
    assert!(c != d);
    let mut e = Dict::new(vec![(Name(b"A".to_vec()), Primitives::Int(1))]);
    let f = Dict::new(vec![(Name(b"A".to_vec()), Primitives::Int(1))]);
    e.set_obj_id("3R");
    assert!(e != f);
}

#[test]
fn option_equals_object() {
    let some: Option<Primitives> = Some(Primitives::cmd("R"));
    assert!(some == Primitives::cmd("R"));
    assert!(!(some == Primitives::cmd("obj")));
    let none: Option<Primitives> = None;
    assert!(!(none == Primitives::Null));
}

#[test]
fn name_borrows_as_bytes() {
    let n = Name(b"Type".to_vec());
    let b: &[u8] = n.borrow();
    assert_eq!(b, b"Type");
}

#[test]
fn reals_compare_as_floats() {
    let zero = Primitives::Real(0.0f64.to_bits());
    let minus_zero = Primitives::Real((-0.0f64).to_bits());
    assert!(zero == minus_zero);
    let nan = Primitives::Real(f64::NAN.to_bits());
    assert!(nan != nan);
    let one = Primitives::Real(1.0f64.to_bits());
    assert!(one == Primitives::Real(1.0f64.to_bits()));
    assert!(one != zero);
    let arr = Primitives::Array(vec![Primitives::Real(f64::NAN.to_bits())]);
    assert!(arr != Primitives::Array(vec![Primitives::Real(f64::NAN.to_bits())]));
}

#[test]
fn debug_text_of_objects() {
    assert_eq!(Primitives::Null.debug_text(), Some(String::from("Null")));
    assert_eq!(Primitives::Int(-5).debug_text(), Some(String::from("Int(-5)")));
    assert_eq!(Primitives::Ref(Ref::new(12, 3)).debug_text(), Some(String::from("Ref(12, 3)")));
    assert_eq!(Primitives::name(b"Type".to_vec()).debug_text(), Some(String::from("Name(Name(\"Type\"))")));
    assert_eq!(Primitives::Str(b"a\"b".to_vec()).debug_text(), Some(String::from("Str(\"a\\\"b\")")));
    assert_eq!(
        Primitives::Array(vec![Primitives::Int(1), Primitives::cmd("R")]).debug_text(),
        Some(String::from("Array([Int(1), Cmd(\"R\")])"))
    );
    assert_eq!(Primitives::HexStr(vec![0x41]).debug_text(), Some(String::from("HexStr(Ok(\"A\"))")));
    assert_eq!(
        Primitives::HexStr(vec![0xD800]).debug_text(),
        Some(String::from("HexStr(Err(FromUtf16Error(())))"))
    );
    assert_eq!(Primitives::EOF.debug_text(), Some(String::from("EOF")));
    let mut d = Dict::new(vec![(Name(b"K".to_vec()), Primitives::Int(1))]);
    assert_eq!(
        d.debug_text(),
        Some(String::from("Dict { _map: {Name(\"K\"): Int(1)}, obj_id: None }"))
    );
    d.set_obj_id("4R");
    assert_eq!(
        Primitives::Dict(d).debug_text(),
        Some(String::from("Dict(Dict { _map: {Name(\"K\"): Int(1)}, obj_id: Some(\"4R\") })"))
    );
    assert_eq!(Name(b"N".to_vec()).debug_text(), Some(String::from("Name(\"N\")")));
}

#[test]
fn debug_text_refused() {
    assert_eq!(Primitives::Real(1.5f64.to_bits()).debug_text(), None);
    assert_eq!(Primitives::Str(vec![0xff]).debug_text(), None);
    assert_eq!(Name(vec![0xc3]).debug_text(), None);
}
