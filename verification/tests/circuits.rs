use gates::factory::GateFactory;
use gates::gate::{Gate, GateValidationError};
use gates::pins::{PinKey, PinKind, PinValues};

fn one_bit(name: &str, v: bool) -> PinValues {
    let mut p = PinValues::new();
    p.set(name, 0, v);
    p
}

#[test]
fn nand_truth_table() {
    let factory = GateFactory::new();
    for (a, b, expect) in [
        (false, false, true),
        (false, true, true),
        (true, false, true),
        (true, true, false),
    ] {
        let mut gate = factory.build("nand").unwrap();
        let mut inputs = PinValues::new();
        inputs.set("a", 0, a);
        inputs.set("b", 0, b);
        let out = gate.run(inputs);
        assert_eq!(out.get("out", 0), expect);
    }
}

#[test]
fn not_gate_negates() {
    let factory = GateFactory::new();
    for (x, expect) in [(false, true), (true, false)] {
        let mut gate = factory.build("not").unwrap();
        let out = gate.run(one_bit("input", x));
        assert_eq!(out.get("out", 0), expect);
    }
}

#[test]
fn or_truth_table_end_to_end() {
    let factory = GateFactory::new();
    for (a, b, expect) in [("0", "0", false), ("1", "0", true), ("0", "1", true), ("1", "1", true)]
    {
        let mut gate = factory.build("or").unwrap();
        let mut inputs = PinValues::new();
        inputs.set_binary("a", a);
        inputs.set_binary("b", b);
        let out = gate.run(inputs);
        assert_eq!(out.get("out", 0), expect);
    }
}

#[test]
fn repeated_runs_agree() {
    let factory = GateFactory::new();
    let mut gate = factory.build("or").unwrap();
    let mut first: Option<bool> = None;
    for _ in 0..3 {
        let mut inputs = PinValues::new();
        inputs.set_binary("a", "1");
        inputs.set_binary("b", "0");
        let out = gate.run(inputs);
        let bit = out.get("out", 0);
        match first {
            None => first = Some(bit),
            Some(prev) => assert_eq!(bit, prev),
        }
    }
    assert_eq!(first, Some(true));
}

#[test]
fn tick_then_tock_matches_run() {
    let factory = GateFactory::new();
    let mut gate = factory.build("or").unwrap();
    let mut inputs = PinValues::new();
    inputs.set_binary("a", "0");
    inputs.set_binary("b", "1");
    gate.tick(inputs);
    let out = gate.tock();
    assert!(out.get("out", 0));
}

#[test]
fn set_binary_round_trip() {
    let mut values = PinValues::new();
    values.set_binary("name", "101");
    assert!(values.get("name", 0));
    assert!(!values.get("name", 1));
    assert!(values.get("name", 2));
}

#[test]
fn set_binary_overwrites_per_index() {
    let mut values = PinValues::new();
    values.set_binary("x", "111");
    values.set_binary("x", "00");
    assert!(!values.get("x", 0));
    assert!(!values.get("x", 1));
    assert!(values.get("x", 2));
}

#[test]
fn get_or_false_on_missing_key() {
    let values = PinValues::new();
    assert!(!values.get_or_false("ghostly", 7));
    assert!(!values.exists_value("ghostly", 7));
}

#[test]
fn connect_pins_rejects_undeclared_parent_pin() {
    let mut gate = Gate::new("top");
    gate.insert_pin(PinKind::Input, "a", 1, 0);
    let mut child = Gate::new("child");
    child.insert_pin(PinKind::Input, "in", 1, 0);
    let idx = gate.add_gate(child);
    let r = gate.connect_pins(idx, &PinKey::new("never_declared", 0), &PinKey::new("in", 0));
    assert!(matches!(r, Err(GateValidationError::PinNotExists)));
    // the failed call left the wiring untouched: the same gate still
    // compiles as an empty pass-through
    let r2 = gate.connect_pins(idx, &PinKey::new("a", 0), &PinKey::new("in", 0));
    assert!(r2.is_ok());
}

#[test]
fn connect_pins_rejects_out_of_range_child() {
    let mut gate = Gate::new("top");
    gate.insert_pin(PinKind::Input, "a", 1, 0);
    let r = gate.connect_pins(5, &PinKey::new("a", 0), &PinKey::new("in", 0));
    assert!(matches!(r, Err(GateValidationError::PinNotExists)));
}

#[test]
fn connect_pins_rejects_undeclared_child_pin() {
    let mut gate = Gate::new("top");
    gate.insert_pin(PinKind::Input, "a", 1, 0);
    let child = Gate::new("child");
    let idx = gate.add_gate(child);
    let r = gate.connect_pins(idx, &PinKey::new("a", 0), &PinKey::new("missing", 0));
    assert!(matches!(r, Err(GateValidationError::PinNotExists)));
}

fn nand_child() -> Gate {
    GateFactory::new().build("nand").unwrap()
}

#[test]
fn compile_rejects_combinational_cycle() {
    // child 0 writes x and reads y; child 1 writes y and reads x: a
    // two-step loop through internal pins, within one plan
    let mut gate = Gate::new("looped");
    gate.insert_pin(PinKind::Internal, "x", 1, 0);
    gate.insert_pin(PinKind::Internal, "y", 1, 0);
    let c0 = gate.add_gate(nand_child());
    let c1 = gate.add_gate(nand_child());
    gate.connect_pins(c0, &PinKey::new("x", 0), &PinKey::new("out", 0)).unwrap();
    gate.connect_pins(c0, &PinKey::new("y", 0), &PinKey::new("a", 0)).unwrap();
    gate.connect_pins(c1, &PinKey::new("y", 0), &PinKey::new("out", 0)).unwrap();
    gate.connect_pins(c1, &PinKey::new("x", 0), &PinKey::new("b", 0)).unwrap();
    let r = gate.compile();
    assert!(matches!(r, Err(GateValidationError::CombinationalCycle)));
}

#[test]
fn compile_rejects_input_wired_to_parent_output() {
    let mut gate = Gate::new("bad");
    gate.insert_pin(PinKind::Output, "o", 1, 0);
    let c0 = gate.add_gate(nand_child());
    // a child input fed from the parent's own output pin is invalid
    gate.connect_pins(c0, &PinKey::new("o", 0), &PinKey::new("a", 0)).unwrap();
    let r = gate.compile();
    assert!(matches!(r, Err(GateValidationError::InvalidPinConnection)));
}

#[test]
fn compile_rejects_dangling_internal_read() {
    let mut gate = Gate::new("dangling");
    gate.insert_pin(PinKind::Internal, "w", 1, 0);
    let c0 = gate.add_gate(nand_child());
    // child 0 reads internal pin w, but nothing ever writes it
    gate.connect_pins(c0, &PinKey::new("w", 0), &PinKey::new("a", 0)).unwrap();
    let r = gate.compile();
    assert!(matches!(r, Err(GateValidationError::InvalidPinConnection)));
}

#[test]
fn plan_orders_writer_before_reader() {
    // a buffer: two NOT stages chained through an internal pin; the
    // second stage must see the first stage's freshly written value
    let factory = GateFactory::new();
    let mut gate = Gate::new("buffer");
    gate.insert_pin(PinKind::Input, "input", 1, 0);
    gate.insert_pin(PinKind::Internal, "mid", 1, 0);
    gate.insert_pin(PinKind::Output, "out", 1, 0);
    // deliberately add the reader (second stage) first
    let second = gate.add_gate(factory.build("not").unwrap());
    let first = gate.add_gate(factory.build("not").unwrap());
    gate.connect_pins(second, &PinKey::new("mid", 0), &PinKey::new("input", 0)).unwrap();
    gate.connect_pins(second, &PinKey::new("out", 0), &PinKey::new("out", 0)).unwrap();
    gate.connect_pins(first, &PinKey::new("input", 0), &PinKey::new("input", 0)).unwrap();
    gate.connect_pins(first, &PinKey::new("mid", 0), &PinKey::new("out", 0)).unwrap();
    gate.compile().unwrap();
    for x in [false, true] {
        let out = gate.run(one_bit("input", x));
        assert_eq!(out.get("out", 0), x);
    }
}

#[test]
fn factory_rejects_unknown_name() {
    let factory = GateFactory::new();
    assert!(factory.build("xor").is_none());
}

#[test]
fn factory_register_adds_a_name() {
    let mut factory = GateFactory::default();
    assert!(factory.build("nand").is_none());
    factory.register(gates::primitives::gate_nand());
    let mut gate = factory.build("nand").unwrap();
    let mut inputs = PinValues::new();
    inputs.set("a", 0, true);
    inputs.set("b", 0, true);
    assert!(!gate.run(inputs).get("out", 0));
}

#[test]
fn pin_key_accessors() {
    let k = PinKey::new("bus", 3);
    assert_eq!(k.name(), "bus");
    assert_eq!(k.index(), 3);
    let c = k.clone();
    assert_eq!(c.name(), "bus");
    assert_eq!(c.index(), 3);
}

#[test]
fn exists_pin_and_get_pin() {
    let mut gate = Gate::new("g");
    gate.insert_pin(PinKind::Input, "a", 2, 0);
    gate.insert_pin(PinKind::Input, "a", 2, 1);
    assert!(gate.exists_pin("a", 0));
    assert!(gate.exists_pin("a", 1));
    assert!(!gate.exists_pin("a", 2));
    assert!(!gate.exists_pin("b", 0));
    let p = gate.get_pin("a", 1).unwrap();
    assert_eq!(p.size, 2);
    assert_eq!(p.index, 1);
}

#[test]
fn uncompiled_composite_produces_nothing() {
    let mut gate = Gate::new("empty");
    gate.insert_pin(PinKind::Input, "a", 1, 0);
    let out = gate.run(one_bit("a", true));
    assert!(!out.exists_value("out", 0));
}

#[test]
fn dump_reproduces_bit_string() {
    let mut values = PinValues::new();
    values.set_binary("name", "101");
    assert_eq!(values.to_text(), "name:101");
}

#[test]
fn dump_sorts_names_and_splits_lines() {
    let mut values = PinValues::new();
    values.set_binary("b", "01");
    values.set_binary("a", "1");
    values.set("c", 0, false);
    assert_eq!(values.to_text(), "a:1\nb:01\nc:0");
}

#[test]
fn dump_stops_at_first_gap() {
    let mut values = PinValues::new();
    values.set("x", 0, true);
    values.set("x", 2, true);
    assert_eq!(values.to_text(), "x:1");
}

#[test]
fn dump_of_empty_set_is_empty() {
    let values = PinValues::new();
    assert_eq!(values.to_text(), "");
}

#[test]
fn reregistering_a_name_replaces_the_builder() {
    let mut factory = GateFactory::default();
    factory.register(gates::primitives::gate_nand());
    // re-register the same name with the OR builder: the later record wins
    factory.register(gates::factory::GateFactoryFunction {
        name: String::from("nand"),
        generator: gates::factory::GateBuilder::Or,
    });
    let mut gate = factory.build("nand").unwrap();
    let mut inputs = PinValues::new();
    inputs.set_binary("a", "1");
    inputs.set_binary("b", "0");
    assert!(gate.run(inputs).get("out", 0));
}
