use kaze::module::{Context, Error, Value};
use kaze::sim::Sim;

#[test]
fn module_names_are_unique() {
    let mut c = Context::new();
    let _ = c.module("a").unwrap();
    let _ = c.module("b").unwrap();
    let e = c.module("a").unwrap_err();
    assert!(matches!(e, Error::DuplicateName { .. }));
}

#[test]
fn lit_width_below_minimum_is_rejected() {
    let mut c = Context::new();
    let m = c.module("a").unwrap();
    let e = m.lit(&mut c, Value::Bool(false), 0).unwrap_err();
    assert!(matches!(e, Error::WidthOutOfRange { width: 0 }));
}

#[test]
fn lit_width_above_maximum_is_rejected() {
    let mut c = Context::new();
    let m = c.module("a").unwrap();
    let e = m.lit(&mut c, Value::Bool(false), 129).unwrap_err();
    assert!(matches!(e, Error::WidthOutOfRange { width: 129 }));
}

#[test]
fn lit_value_must_fit_width() {
    let mut c = Context::new();
    let m = c.module("a").unwrap();
    let e = m.lit(&mut c, Value::U32(0x100), 8).unwrap_err();
    assert!(matches!(e, Error::ValueTooWide { value: 0x100, width: 8 }));
    assert!(m.lit(&mut c, Value::U32(0xff), 8).is_ok());
}

#[test]
fn input_width_bounds_are_checked() {
    let mut c = Context::new();
    let m = c.module("a").unwrap();
    assert!(matches!(
        m.input(&mut c, "i", 0),
        Err(Error::WidthOutOfRange { width: 0 })
    ));
    assert!(matches!(
        m.input(&mut c, "j", 129),
        Err(Error::WidthOutOfRange { width: 129 })
    ));
}

#[test]
fn duplicate_input_names_are_rejected() {
    let mut c = Context::new();
    let m = c.module("a").unwrap();
    let _ = m.input(&mut c, "i", 1).unwrap();
    let e = m.input(&mut c, "i", 2).unwrap_err();
    assert!(matches!(e, Error::DuplicateName { .. }));
}

#[test]
fn output_source_must_belong_to_module() {
    let mut c = Context::new();
    let m1 = c.module("a").unwrap();
    let m2 = c.module("b").unwrap();
    let i = m2.high(&mut c);
    let e = m1.output(&mut c, "o", i).unwrap_err();
    assert!(matches!(e, Error::CrossModule));
}

#[test]
fn bit_index_out_of_range_is_rejected() {
    let mut c = Context::new();
    let m = c.module("a").unwrap();
    let i = m.input(&mut c, "i", 3).unwrap();
    assert!(i.bit(&mut c, 0).is_ok());
    assert!(i.bit(&mut c, 1).is_ok());
    assert!(i.bit(&mut c, 2).is_ok());
    let e = i.bit(&mut c, 3).unwrap_err();
    assert!(matches!(e, Error::IndexOutOfRange { index: 3, width: 3 }));
}

#[test]
fn bits_range_bounds_are_checked() {
    let mut c = Context::new();
    let m = c.module("a").unwrap();
    let i = m.input(&mut c, "i", 3).unwrap();
    assert!(matches!(
        i.bits(&mut c, 4, 3),
        Err(Error::IndexOutOfRange { index: 3, width: 3 })
    ));
    assert!(matches!(
        i.bits(&mut c, 3, 2),
        Err(Error::IndexOutOfRange { index: 3, width: 3 })
    ));
    assert!(matches!(
        i.bits(&mut c, 0, 1),
        Err(Error::IndexOutOfRange { .. })
    ));
}

#[test]
fn repeat_count_bounds_are_checked() {
    let mut c = Context::new();
    let m = c.module("a").unwrap();
    let i = m.input(&mut c, "i", 1).unwrap();
    assert!(matches!(
        i.repeat(&mut c, 0),
        Err(Error::WidthOutOfRange { width: 0 })
    ));
    assert!(matches!(
        i.repeat(&mut c, 129),
        Err(Error::WidthOutOfRange { width: 129 })
    ));
}

#[test]
fn concat_width_bound_is_checked() {
    let mut c = Context::new();
    let m = c.module("a").unwrap();
    let i1 = m.input(&mut c, "i1", 128).unwrap();
    let i2 = m.input(&mut c, "i2", 1).unwrap();
    assert!(matches!(
        i1.concat(&mut c, i2),
        Err(Error::WidthOutOfRange { width: 129 })
    ));
}

#[test]
fn binop_operands_share_a_module() {
    let mut c = Context::new();
    let m1 = c.module("a").unwrap();
    let i1 = m1.input(&mut c, "a", 1).unwrap();
    let m2 = c.module("b").unwrap();
    let i2 = m2.high(&mut c);
    assert!(matches!(i1.bitand(&mut c, i2), Err(Error::CrossModule)));
    assert!(matches!(i1.bitor(&mut c, i2), Err(Error::CrossModule)));
    assert!(matches!(i1.bitxor(&mut c, i2), Err(Error::CrossModule)));
}

#[test]
fn binop_operands_share_a_width() {
    let mut c = Context::new();
    let m = c.module("a").unwrap();
    let i1 = m.input(&mut c, "a", 3).unwrap();
    let i2 = m.input(&mut c, "b", 5).unwrap();
    assert!(matches!(
        i1.bitand(&mut c, i2),
        Err(Error::WidthMismatch { lhs_width: 3, rhs_width: 5 })
    ));
    assert!(matches!(
        i1.bitor(&mut c, i2),
        Err(Error::WidthMismatch { lhs_width: 3, rhs_width: 5 })
    ));
    assert!(matches!(
        i1.bitxor(&mut c, i2),
        Err(Error::WidthMismatch { lhs_width: 3, rhs_width: 5 })
    ));
}

#[test]
fn register_can_be_driven_once() {
    let mut c = Context::new();
    let m = c.module("a").unwrap();
    let i = m.input(&mut c, "i", 8).unwrap();
    let r = m.reg(&mut c, "r", 8, None).unwrap();
    r.drive_next_with(&mut c, i).unwrap();
    let e = r.drive_next_with(&mut c, i).unwrap_err();
    assert!(matches!(e, Error::AlreadyDriven { .. }));
}

#[test]
fn register_next_must_match_width() {
    let mut c = Context::new();
    let m = c.module("a").unwrap();
    let i = m.input(&mut c, "i", 4).unwrap();
    let r = m.reg(&mut c, "r", 8, None).unwrap();
    let e = r.drive_next_with(&mut c, i).unwrap_err();
    assert!(matches!(e, Error::WidthMismatch { lhs_width: 4, rhs_width: 8 }));
}

#[test]
fn register_initial_value_must_fit() {
    let mut c = Context::new();
    let m = c.module("a").unwrap();
    let e = m.reg(&mut c, "r", 4, Some(Value::U32(16))).unwrap_err();
    assert!(matches!(e, Error::ValueTooWide { value: 16, width: 4 }));
}

#[test]
fn mux_checks_widths() {
    let mut c = Context::new();
    let m = c.module("a").unwrap();
    let a = m.input(&mut c, "a", 4).unwrap();
    let b = m.input(&mut c, "b", 8).unwrap();
    let sel = m.input(&mut c, "sel", 1).unwrap();
    assert!(matches!(
        m.mux(&mut c, a, b, sel),
        Err(Error::WidthMismatch { lhs_width: 4, rhs_width: 8 })
    ));
    let wide_sel = m.input(&mut c, "wide_sel", 2).unwrap();
    assert!(matches!(
        m.mux(&mut c, a, a, wide_sel),
        Err(Error::WidthMismatch { lhs_width: 2, rhs_width: 1 })
    ));
}

#[test]
fn instance_requires_known_module() {
    let mut c = Context::new();
    let m = c.module("a").unwrap();
    let e = m.instance(&mut c, "x", "missing").unwrap_err();
    assert!(matches!(e, Error::UnknownName { .. }));
}

#[test]
fn instance_input_is_driven_once_with_matching_width() {
    let mut c = Context::new();
    let inner = c.module("inner").unwrap();
    let _ = inner.input(&mut c, "i", 8).unwrap();
    let m = c.module("outer").unwrap();
    let inst = m.instance(&mut c, "x", "inner").unwrap();
    let narrow = m.input(&mut c, "n", 4).unwrap();
    assert!(matches!(
        inst.drive_input(&mut c, "i", narrow),
        Err(Error::WidthMismatch { lhs_width: 4, rhs_width: 8 })
    ));
    assert!(matches!(
        inst.drive_input(&mut c, "missing", narrow),
        Err(Error::UnknownName { .. })
    ));
    let wide = m.input(&mut c, "w", 8).unwrap();
    inst.drive_input(&mut c, "i", wide).unwrap();
    assert!(matches!(
        inst.drive_input(&mut c, "i", wide),
        Err(Error::AlreadyDriven { .. })
    ));
}

#[test]
fn mem_widths_are_checked() {
    let mut c = Context::new();
    let m = c.module("a").unwrap();
    assert!(matches!(
        m.mem(&mut c, "m", 0, 8),
        Err(Error::WidthOutOfRange { width: 0 })
    ));
    assert!(matches!(
        m.mem(&mut c, "m", 8, 129),
        Err(Error::WidthOutOfRange { width: 129 })
    ));
    assert!(m.mem(&mut c, "m", 8, 8).is_ok());
}

#[test]
fn mem_initial_contents_must_fit_and_set_once() {
    let mut c = Context::new();
    let m = c.module("a").unwrap();
    let mem = m.mem(&mut c, "m", 1, 4).unwrap();
    assert!(matches!(
        mem.initial_contents(&mut c, &[0x10]),
        Err(Error::ValueTooWide { value: 0x10, width: 4 })
    ));
    mem.initial_contents(&mut c, &[0x1, 0x2]).unwrap();
    assert!(matches!(
        mem.initial_contents(&mut c, &[0x3, 0x4]),
        Err(Error::AlreadyDriven { .. })
    ));
}

#[test]
fn double_negation_returns_the_value() {
    let mut c = Context::new();
    let m = c.module("a").unwrap();
    let i = m.input(&mut c, "i", 12).unwrap();
    let once = i.not(&mut c);
    let twice = once.not(&mut c);
    m.output(&mut c, "o", twice).unwrap();
    let mut s = Sim::new(&c, m).unwrap();
    s.set_input("i", 0x5a3);
    s.prop();
    assert_eq!(s.output("o"), 0x5a3);
    s.set_input("i", 0);
    s.prop();
    assert_eq!(s.output("o"), 0);
}

#[test]
fn bitwise_with_self_is_identity_or_zero() {
    let mut c = Context::new();
    let m = c.module("a").unwrap();
    let i = m.input(&mut c, "i", 16).unwrap();
    let and = i.bitand(&mut c, i).unwrap();
    let or = i.bitor(&mut c, i).unwrap();
    let xor = i.bitxor(&mut c, i).unwrap();
    m.output(&mut c, "and", and).unwrap();
    m.output(&mut c, "or", or).unwrap();
    m.output(&mut c, "xor", xor).unwrap();
    let mut s = Sim::new(&c, m).unwrap();
    s.set_input("i", 0xbeef);
    s.prop();
    assert_eq!(s.output("and"), 0xbeef);
    assert_eq!(s.output("or"), 0xbeef);
    assert_eq!(s.output("xor"), 0);
}

#[test]
fn bits_of_literal_shift_and_mask() {
    let mut c = Context::new();
    let m = c.module("a").unwrap();
    let l = m.lit(&mut c, Value::U32(0xfadebabe), 32).unwrap();
    let mid = l.bits(&mut c, 23, 8).unwrap();
    m.output(&mut c, "o", mid).unwrap();
    let mut s = Sim::new(&c, m).unwrap();
    s.prop();
    assert_eq!(s.output("o"), (0xfadebabeu128 >> 8) & 0xffff);
    assert_eq!(s.output("o"), 0xdeba);
}

#[test]
fn concat_round_trips_through_bits() {
    let mut c = Context::new();
    let m = c.module("a").unwrap();
    let a = m.input(&mut c, "a", 12).unwrap();
    let b = m.input(&mut c, "b", 20).unwrap();
    let cat = a.concat(&mut c, b).unwrap();
    let hi = cat.bits(&mut c, 31, 20).unwrap();
    let lo = cat.bits(&mut c, 19, 0).unwrap();
    m.output(&mut c, "hi", hi).unwrap();
    m.output(&mut c, "lo", lo).unwrap();
    let mut s = Sim::new(&c, m).unwrap();
    s.set_input("a", 0xabc);
    s.set_input("b", 0x12345);
    s.prop();
    assert_eq!(s.output("hi"), 0xabc);
    assert_eq!(s.output("lo"), 0x12345);
}

#[test]
fn addition_wraps_at_all_ones() {
    let mut c = Context::new();
    let m = c.module("a").unwrap();
    let x = m.lit(&mut c, Value::U32(0xffffffff), 32).unwrap();
    let y = m.lit(&mut c, Value::U32(2), 32).unwrap();
    let sum32 = x.add(&mut c, y).unwrap();
    m.output(&mut c, "sum32", sum32).unwrap();
    let wide = m
        .lit(&mut c, Value::U128(0xffffffffffffffffffffffffffffffff), 128)
        .unwrap();
    let two = m.lit(&mut c, Value::U128(2), 128).unwrap();
    let sum128 = wide.add(&mut c, two).unwrap();
    m.output(&mut c, "sum128", sum128).unwrap();
    let mut s = Sim::new(&c, m).unwrap();
    s.prop();
    assert_eq!(s.output("sum32"), 1);
    assert_eq!(s.output("sum128"), 1);
}

#[test]
fn unknown_simulator_names_read_as_zero() {
    let mut c = Context::new();
    let m = c.module("a").unwrap();
    let i = m.input(&mut c, "i", 8).unwrap();
    m.output(&mut c, "o", i).unwrap();
    let mut s = Sim::new(&c, m).unwrap();
    assert!(!s.set_input("missing", 1));
    s.set_input("i", 7);
    s.prop();
    assert_eq!(s.output("o"), 7);
    assert_eq!(s.output("missing"), 0);
}
