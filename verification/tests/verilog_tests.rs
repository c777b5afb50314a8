use kaze::module::{Context, Error, Value};
use kaze::system_verilog::generate;

#[test]
fn generate_emits_a_module_definition() {
    let mut c = Context::new();
    let m = c.module("adder").unwrap();
    let a = m.input(&mut c, "a", 8).unwrap();
    let b = m.input(&mut c, "b", 8).unwrap();
    let sum = a.add(&mut c, b).unwrap();
    m.output(&mut c, "sum", sum).unwrap();
    let text = generate(&c, m).unwrap();
    assert!(text.contains("module adder("));
    assert!(text.contains("input wire logic reset_n"));
    assert!(text.contains("input wire logic clk"));
    assert!(text.contains("input wire logic [7:0] a"));
    assert!(text.contains("output wire logic [7:0] sum"));
    assert!(text.contains("assign sum = "));
    assert!(text.contains("endmodule"));
}

#[test]
fn generate_emits_register_blocks() {
    let mut c = Context::new();
    let m = c.module("pipeline").unwrap();
    let i = m.input(&mut c, "i", 16).unwrap();
    let r = m.reg(&mut c, "stage", 16, Some(Value::U32(0x1f))).unwrap();
    r.drive_next_with(&mut c, i).unwrap();
    m.output(&mut c, "o", r.value()).unwrap();
    let text = generate(&c, m).unwrap();
    assert!(text.contains("always_ff @(posedge clk, negedge reset_n)"));
    assert!(text.contains("__reg_stage_0 <= 16'h1f;"));
    assert!(text.contains("__reg_stage_0 <= __reg_stage_0_next;"));
    assert!(text.contains("assign __reg_stage_0_next = i;"));
}

#[test]
fn generate_emits_every_reachable_module() {
    let mut c = Context::new();
    let inner = c.module("inner").unwrap();
    let a = inner.input(&mut c, "a", 4).unwrap();
    let na = a.not(&mut c);
    inner.output(&mut c, "o", na).unwrap();
    let outer = c.module("outer").unwrap();
    let i = outer.input(&mut c, "i", 4).unwrap();
    let inst = outer.instance(&mut c, "x", "inner").unwrap();
    inst.drive_input(&mut c, "a", i).unwrap();
    let o = inst.output(&mut c, "o").unwrap();
    outer.output(&mut c, "o", o).unwrap();
    let text = generate(&c, outer).unwrap();
    assert!(text.contains("module outer("));
    assert!(text.contains("module inner("));
    assert!(text.contains("inner x("));
    assert!(text.contains(".a(__x_input_a)"));
    assert!(text.contains(".o(__x_output_o)"));
}

#[test]
fn generate_rejects_a_self_recursive_module() {
    let mut c = Context::new();
    let a = c.module("recur").unwrap();
    let _ = a.instance(&mut c, "x", "recur").unwrap();
    let e = generate(&c, a).unwrap_err();
    assert!(matches!(e, Error::RecursiveModule { .. }));
}

#[test]
fn generate_rejects_a_mutually_recursive_module() {
    let mut c = Context::new();
    let a = c.module("ping").unwrap();
    let b = c.module("pong").unwrap();
    let _ = a.instance(&mut c, "to_pong", "pong").unwrap();
    let _ = b.instance(&mut c, "to_ping", "ping").unwrap();
    let e = generate(&c, a).unwrap_err();
    assert!(matches!(e, Error::RecursiveModule { .. }));
}

#[test]
fn generate_rejects_an_undriven_instance_input() {
    let mut c = Context::new();
    let inner = c.module("needs_input").unwrap();
    let _ = inner.input(&mut c, "i", 1).unwrap();
    let outer = c.module("forgetful").unwrap();
    let _ = outer.instance(&mut c, "x", "needs_input").unwrap();
    let e = generate(&c, outer).unwrap_err();
    assert!(matches!(e, Error::UndrivenInstanceInput { .. }));
}

#[test]
fn generate_rejects_an_undriven_register() {
    let mut c = Context::new();
    let a = c.module("holder").unwrap();
    let _ = a.reg(&mut c, "r", 1, None).unwrap();
    let e = generate(&c, a).unwrap_err();
    assert!(matches!(e, Error::UndrivenRegister { .. }));
}

#[test]
fn generate_rejects_an_undriven_register_in_an_instance() {
    let mut c = Context::new();
    let a = c.module("top_level").unwrap();
    let b = c.module("below").unwrap();
    let _ = b.reg(&mut c, "r", 1, None).unwrap();
    let _ = a.instance(&mut c, "x", "below").unwrap();
    let e = generate(&c, a).unwrap_err();
    assert!(matches!(e, Error::UndrivenRegister { .. }));
}

#[test]
fn generate_rejects_a_memory_without_read_ports() {
    let mut c = Context::new();
    let a = c.module("memoryful").unwrap();
    let _ = a.mem(&mut c, "m", 1, 1).unwrap();
    let e = generate(&c, a).unwrap_err();
    assert!(matches!(e, Error::MissingReadPort { .. }));
}

#[test]
fn generate_rejects_a_memory_without_contents_or_write_port() {
    let mut c = Context::new();
    let a = c.module("memoryful").unwrap();
    let mem = a.mem(&mut c, "m", 1, 1).unwrap();
    let low1 = a.low(&mut c);
    let low2 = a.low(&mut c);
    mem.read_port(&mut c, low1, low2).unwrap();
    let e = generate(&c, a).unwrap_err();
    assert!(matches!(e, Error::MissingSource { .. }));
}

#[test]
fn generate_accepts_a_memory_with_a_read_port_and_a_write_port() {
    let mut c = Context::new();
    let a = c.module("memoryful").unwrap();
    let mem = a.mem(&mut c, "m", 2, 8).unwrap();
    let addr = a.input(&mut c, "addr", 2).unwrap();
    let en = a.input(&mut c, "en", 1).unwrap();
    let data = a.input(&mut c, "data", 8).unwrap();
    mem.read_port(&mut c, addr, en).unwrap();
    mem.write_port(&mut c, addr, data, en).unwrap();
    let out = a.input(&mut c, "passthrough", 8).unwrap();
    a.output(&mut c, "o", out).unwrap();
    assert!(generate(&c, a).is_ok());
}

#[test]
fn generate_rejects_a_combinational_loop() {
    let mut c = Context::new();
    let a = c.module("a").unwrap();
    let i = a.input(&mut c, "i", 1).unwrap();
    a.output(&mut c, "o", i).unwrap();

    let b = c.module("b").unwrap();
    let a_inst = b.instance(&mut c, "a_inst", "a").unwrap();
    let a_inst_o = a_inst.output(&mut c, "o").unwrap();
    a_inst.drive_input(&mut c, "i", a_inst_o).unwrap();
    b.output(&mut c, "o", a_inst_o).unwrap();

    let e = generate(&c, b).unwrap_err();
    assert!(matches!(e, Error::CombinationalLoop { .. }));
}
