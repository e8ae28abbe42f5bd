//! Composite gate types built by wiring NAND primitives together.

use vstd::prelude::*;
use crate::compile::bad_wiring;
use crate::compile::dangling_read;
use crate::compile::pin_bad;
use crate::compile::plan_views;
use crate::compile::cycle_after;
use crate::gate::PlanStepView;
use crate::compile::reads_internal;
use crate::compile::reads_internal_at;
use crate::compile::reads_of;
use crate::compile::step_of;
use crate::compile::wiring_cycle;
use crate::compile::writes_internal;
use crate::compile::writes_internal_at;
use crate::compile::writes_internal_of;
use crate::compile::writes_output_of;
use crate::factory::GateBuilder;
use crate::factory::GateFactoryFunction;
use crate::gate::Gate;
use crate::gate::GateShape;
use crate::gate::eval_gate;
use crate::gate::eval_steps;
use crate::gate::gate_wf;
use crate::gate::gathered;
use crate::gate::lemma_shapes_of_index;
use crate::gate::shape;
use crate::gate::shapes_of;
use crate::gate::written_back;
use crate::pins::ConnectionView;
use crate::pins::PinId;
use crate::pins::PinKey;
use crate::pins::PinKind;
use crate::pins::PinView;
use crate::pins::pin_at;
use crate::pins::pin_has_key;
use crate::pins::pin_index_of;
use crate::pins::pv_key;
use crate::pins::value_or_false;
use crate::primitives::build_nand;
use crate::primitives::nand_output;
use crate::primitives::nand_pins;

verus! {

/// What a NOT produces: `out[0]` is the negation of `input[0]`, an input
/// that was never set reading as false.
pub open spec fn not_output(m: Map<PinId, bool>) -> Map<PinId, bool> {
    Map::empty().insert(
        PinId { name: "out"@, index: 0 },
        !value_or_false(m, PinId { name: "input"@, index: 0 }),
    )
}

/// The declared pins of a built `not` gate, connections included.
pub open spec fn not_pins() -> Seq<PinView> {
    seq![
        PinView {
            name: "input"@,
            index: 0,
            size: 1,
            kind: PinKind::Input,
            clocked: false,
            connection: ConnectionView::ToChild(PinId { name: "b"@, index: 0 }),
        },
        PinView {
            name: "out"@,
            index: 0,
            size: 1,
            kind: PinKind::Output,
            clocked: false,
            connection: ConnectionView::ToChild(PinId { name: "out"@, index: 0 }),
        },
    ]
}

/// The NAND child's pins once it is wired into its `not` parent: both of
/// its inputs read the parent's `input`, its output feeds the parent's
/// `out`.
pub open spec fn not_child_pins() -> Seq<PinView> {
    seq![
        PinView {
            name: "a"@,
            index: 0,
            size: 1,
            kind: PinKind::Input,
            clocked: false,
            connection: ConnectionView::ToParent(PinId { name: "input"@, index: 0 }),
        },
        PinView {
            name: "b"@,
            index: 0,
            size: 1,
            kind: PinKind::Input,
            clocked: false,
            connection: ConnectionView::ToParent(PinId { name: "input"@, index: 0 }),
        },
        PinView {
            name: "out"@,
            index: 0,
            size: 1,
            kind: PinKind::Output,
            clocked: false,
            connection: ConnectionView::ToParent(PinId { name: "out"@, index: 0 }),
        },
    ]
}

/// Builds a `not` gate: one NAND child with both inputs wired to the
/// gate's single input, so the output is the negated input.
#[verifier::rlimit(100)]
pub fn build_not() -> (r: Option<Gate>)
    ensures
        r is Some,
        r matches Some(g) ==> gate_wf(g) && g.name@ == "not"@ && g.pins@ == not_pins()
            && g.gates@.len() == 1 && g.gates@[0].pins@ == not_child_pins()
            && g.gates@[0].name@ == "nand"@ && (forall|v: Map<PinId, bool>|
            #[trigger] eval_gate(shape(g), v) == not_output(v)),
{
    proof {
        reveal_strlit("a");
        reveal_strlit("b");
        reveal_strlit("out");
        reveal_strlit("input");
        assert("a"@ != "b"@) by {
            assert("a"@[0] == 'a' && "b"@[0] == 'b');
        }
        assert("a"@ != "out"@ && "b"@ != "out"@) by {
            assert("a"@.len() == 1 && "b"@.len() == 1 && "out"@.len() == 3);
        }
        assert("input"@ != "out"@ && "input"@ != "a"@ && "input"@ != "b"@) by {
            assert("input"@.len() == 5);
        }
    }
    let mut g = Gate::new("not");
    g.insert_pin(PinKind::Input, "input", 1, 0);
    g.insert_pin(PinKind::Output, "out", 1, 0);
    let ghost input0 = PinId { name: "input"@, index: 0 };
    let ghost out0 = PinId { name: "out"@, index: 0 };
    let ghost a0 = PinId { name: "a"@, index: 0 };
    let ghost b0 = PinId { name: "b"@, index: 0 };
    proof {
        assert(g.pins@.len() == 2 && pv_key(g.pins@[0]) == input0 && pv_key(g.pins@[1]) == out0
            && g.pins@[0].kind is Input && g.pins@[1].kind is Output);
    }
    let child = match build_nand() {
        Some(c) => c,
        None => {
            proof {
                assert(false);
            }
            return None;
        },
    };
    let gi = g.add_gate(child);
    proof {
        assert(g.gates@.len() == 1 && gi == 0);
        assert(g.gates@[0].pins@ == nand_pins());
        assert(pin_has_key(g.pins@, input0)) by {
            assert(pv_key(g.pins@[0]) == input0);
        }
        assert(pin_has_key(g.gates@[0].pins@, a0)) by {
            assert(pv_key(g.gates@[0].pins@[0]) == a0);
        }
        assert(pin_index_of(g.pins@, input0) == 0 && pin_index_of(g.pins@, out0) == 1) by {
            let i = pin_index_of(g.pins@, input0);
            assert(0 <= i < g.pins@.len() && pv_key(g.pins@[i]) == input0);
            let j = pin_index_of(g.pins@, out0);
            assert(0 <= j < g.pins@.len() && pv_key(g.pins@[j]) == out0);
        }
    }
    match g.connect_pins(gi, &PinKey::new("input", 0), &PinKey::new("a", 0)) {
        Ok(()) => {},
        Err(_) => {
            proof {
                assert(false);
            }
            return None;
        },
    }
    proof {
        assert(pin_has_key(g.pins@, input0)) by {
            assert(pv_key(g.pins@[0]) == input0);
        }
        assert(pin_has_key(g.gates@[0].pins@, b0)) by {
            assert(pv_key(g.gates@[0].pins@[1]) == b0);
        }
        assert(pin_index_of(g.gates@[0].pins@, b0) == 1) by {
            let i = pin_index_of(g.gates@[0].pins@, b0);
            assert(0 <= i < g.gates@[0].pins@.len() && pv_key(g.gates@[0].pins@[i]) == b0);
        }
    }
    match g.connect_pins(gi, &PinKey::new("input", 0), &PinKey::new("b", 0)) {
        Ok(()) => {},
        Err(_) => {
            proof {
                assert(false);
            }
            return None;
        },
    }
    proof {
        assert(pin_has_key(g.pins@, out0)) by {
            assert(pv_key(g.pins@[1]) == out0);
        }
        assert(pin_has_key(g.gates@[0].pins@, PinId { name: "out"@, index: 0 })) by {
            assert(pv_key(g.gates@[0].pins@[2]) == (PinId { name: "out"@, index: 0 }));
        }
        assert(pin_index_of(g.gates@[0].pins@, out0) == 2) by {
            let i = pin_index_of(g.gates@[0].pins@, out0);
            assert(0 <= i < g.gates@[0].pins@.len() && pv_key(g.gates@[0].pins@[i]) == out0);
        }
    }
    match g.connect_pins(gi, &PinKey::new("out", 0), &PinKey::new("out", 0)) {
        Ok(()) => {},
        Err(_) => {
            proof {
                assert(false);
            }
            return None;
        },
    }
    let ghost child_final = g.gates@[0];
    proof {
        assert(g.pins@ =~= not_pins());
        assert(g.gates@[0].pins@ =~= not_child_pins());
        assert(pin_at(g.pins@, input0) == g.pins@[0] && pin_at(g.pins@, out0) == g.pins@[1]) by {
            let i = pin_index_of(g.pins@, input0);
            assert(0 <= i < g.pins@.len() && pv_key(g.pins@[i]) == input0);
            let j = pin_index_of(g.pins@, out0);
            assert(0 <= j < g.pins@.len() && pv_key(g.pins@[j]) == out0);
        }
        assert(!bad_wiring(g)) by {
            if bad_wiring(g) {
                let (c, i) = choose|c: int, i: int|
                    0 <= c < g.gates@.len() && 0 <= i < g.gates@[c].pins@.len() && pin_bad(
                        g.pins@,
                        #[trigger] g.gates@[c].pins@[i],
                    );
                assert(c == 0 && 0 <= i < 3);
            }
        }
        assert(!dangling_read(g)) by {
            if dangling_read(g) {
                let (c, k) = choose|c: int, k: PinId|
                    #[trigger] reads_internal(g, c, k) && !(exists|c2: int|
                        writes_internal(g, c2, k));
                let i = choose|i: int| #[trigger] reads_internal_at(g, c, i, k);
                assert(c == 0 && 0 <= i < 3);
                assert(k == input0 || k == out0);
            }
        }
        assert forall|cyc: Seq<int>, keys: Seq<PinId>| !wiring_cycle(g, cyc, keys) by {
            if wiring_cycle(g, cyc, keys) {
                assert(writes_internal(g, cyc[0], keys[0]));
                let i = choose|i: int| #[trigger] writes_internal_at(g, cyc[0], i, keys[0]);
                assert(cyc[0] == 0 && 0 <= i < 3);
                assert(keys[0] == input0 || keys[0] == out0);
            }
        }
    }
    match g.compile() {
        Ok(()) => {
            proof {
                lemma_not_eval(g, child_final);
            }
            Some(g)
        },
        Err(_) => {
            proof {
                assert(false);
            }
            None
        },
    }
}

/// A compiled `not` gate computes the negation: its single NAND child
/// receives the input on both of its own inputs.
proof fn lemma_not_eval(g: Gate, child: Gate)
    requires
        g.primitive_implementor is None,
        g.gates@.len() == 1,
        g.gates@[0] == child,
        g.gates@[0].pins@ == not_child_pins(),
        g.pins@ == not_pins(),
        forall|v: Map<PinId, bool>| #[trigger] eval_gate(shape(child), v) == nand_output(v),
        g.compiled_tock_plans matches Some(p) && crate::compile::plan_complete(g, plan_views(p@)),
    ensures
        forall|v: Map<PinId, bool>| #[trigger] eval_gate(shape(g), v) == not_output(v),
{
    reveal_strlit("a");
    reveal_strlit("b");
    reveal_strlit("out");
    reveal_strlit("input");
    let input0 = PinId { name: "input"@, index: 0 };
    let out0 = PinId { name: "out"@, index: 0 };
    let a0 = PinId { name: "a"@, index: 0 };
    let b0 = PinId { name: "b"@, index: 0 };
    assert(a0 != b0) by {
        assert("a"@[0] == 'a' && "b"@[0] == 'b');
    }
    let p = g.compiled_tock_plans->Some_0;
    let splan = Seq::new(p@.len(), |i: int| p@[i]@);
    assert(splan =~= plan_views(p@));
    let gs = shape(g);
    assert(gs.behavior is None);
    assert(gs.plan == Some(splan));
    assert(splan.len() == 1);
    assert(splan[0].gate_index == 0 && splan[0] == step_of(g, 0));
    lemma_shapes_of_index(g.gates@, 1, 0);
    assert(gs.children.len() == 1 && gs.children[0] == shape(child));
    let ps = not_child_pins();
    assert(splan[0].reads =~= seq![(input0, a0), (input0, b0)]) by {
        assert(reads_of(ps, 0) =~= Seq::<(PinId, PinId)>::empty());
        assert(reads_of(ps, 1) =~= seq![(input0, a0)]);
        assert(reads_of(ps, 2) =~= seq![(input0, a0), (input0, b0)]);
        assert(reads_of(ps, 3) =~= reads_of(ps, 2));
    }
    assert(pin_has_key(g.pins@, out0)) by {
        assert(pv_key(g.pins@[1]) == out0);
    }
    assert(pin_at(g.pins@, out0) == g.pins@[1]) by {
        assert("input"@ != "out"@) by {
            assert("input"@.len() == 5 && "out"@.len() == 3);
        }
        let j = pin_index_of(g.pins@, out0);
        assert(0 <= j < g.pins@.len() && pv_key(g.pins@[j]) == out0);
        assert(pv_key(g.pins@[0]) != out0);
    }
    assert(splan[0].write_internals =~= Seq::<(PinId, PinId)>::empty()) by {
        assert(writes_internal_of(g.pins@, ps, 0) =~= Seq::<(PinId, PinId)>::empty());
        assert(writes_internal_of(g.pins@, ps, 1) =~= writes_internal_of(g.pins@, ps, 0));
        assert(writes_internal_of(g.pins@, ps, 2) =~= writes_internal_of(g.pins@, ps, 1));
        assert(writes_internal_of(g.pins@, ps, 3) =~= writes_internal_of(g.pins@, ps, 2));
    }
    assert(splan[0].write_outputs =~= seq![(out0, out0)]) by {
        assert(writes_output_of(g.pins@, ps, 0) =~= Seq::<(PinId, PinId)>::empty());
        assert(writes_output_of(g.pins@, ps, 1) =~= writes_output_of(g.pins@, ps, 0));
        assert(writes_output_of(g.pins@, ps, 2) =~= writes_output_of(g.pins@, ps, 1));
        assert(writes_output_of(g.pins@, ps, 3) =~= seq![(out0, out0)]);
    }
    assert forall|v: Map<PinId, bool>| #[trigger] eval_gate(shape(g), v) == not_output(v) by {
        let x = value_or_false(v, input0);
        let step = splan[0];
        let xx = gathered(v, step.reads, 2);
        assert(xx =~= Map::<PinId, bool>::empty().insert(a0, x).insert(b0, x)) by {
            assert(gathered(v, step.reads, 0) =~= Map::<PinId, bool>::empty());
            assert(gathered(v, step.reads, 1) =~= Map::<PinId, bool>::empty().insert(a0, x));
        }
        let res = eval_gate(gs.children[0], xx);
        assert(res == nand_output(xx));
        assert(value_or_false(xx, a0) == x && value_or_false(xx, b0) == x);
        assert(value_or_false(res, out0) == !x);
        let w1 = written_back(v, step.write_internals, res, 0);
        assert(w1 == v);
        let o1 = written_back(Map::empty(), step.write_outputs, res, 1);
        assert(o1 =~= Map::<PinId, bool>::empty().insert(out0, !x)) by {
            assert(written_back(Map::empty(), step.write_outputs, res, 0) =~= Map::<
                PinId,
                bool,
            >::empty());
        }
        assert(eval_steps(gs, splan, 1, w1, o1) == (w1, o1));
        assert(eval_gate(shape(g), v) == o1);
        assert(o1 =~= not_output(v));
    }
}

/// The factory registration of the `not` gate type.
pub fn gate_not() -> (r: GateFactoryFunction)
    ensures
        r.name@ == "not"@,
        r.generator == GateBuilder::Not,
{
    GateFactoryFunction { name: "not".to_owned(), generator: GateBuilder::Not }
}

/// What an OR produces: `out[0]` is the disjunction of `a[0]` and `b[0]`,
/// an input that was never set reading as false.
pub open spec fn or_output(m: Map<PinId, bool>) -> Map<PinId, bool> {
    Map::empty().insert(
        PinId { name: "out"@, index: 0 },
        value_or_false(m, PinId { name: "a"@, index: 0 }) || value_or_false(
            m,
            PinId { name: "b"@, index: 0 },
        ),
    )
}

/// A `not` child's pins once it is wired into the `or` parent: it reads
/// the parent pin named `src` and feeds the internal pin named `dst`.
pub open spec fn or_not_child_pins(src: Seq<char>, dst: Seq<char>) -> Seq<PinView> {
    seq![
        PinView {
            name: "input"@,
            index: 0,
            size: 1,
            kind: PinKind::Input,
            clocked: false,
            connection: ConnectionView::ToParent(PinId { name: src, index: 0 }),
        },
        PinView {
            name: "out"@,
            index: 0,
            size: 1,
            kind: PinKind::Output,
            clocked: false,
            connection: ConnectionView::ToParent(PinId { name: dst, index: 0 }),
        },
    ]
}

/// The NAND child's pins once it is wired into the `or` parent: it reads
/// the two internal pins and feeds the parent's output.
pub open spec fn or_nand_child_pins() -> Seq<PinView> {
    seq![
        PinView {
            name: "a"@,
            index: 0,
            size: 1,
            kind: PinKind::Input,
            clocked: false,
            connection: ConnectionView::ToParent(PinId { name: "nota"@, index: 0 }),
        },
        PinView {
            name: "b"@,
            index: 0,
            size: 1,
            kind: PinKind::Input,
            clocked: false,
            connection: ConnectionView::ToParent(PinId { name: "notb"@, index: 0 }),
        },
        PinView {
            name: "out"@,
            index: 0,
            size: 1,
            kind: PinKind::Output,
            clocked: false,
            connection: ConnectionView::ToParent(PinId { name: "out"@, index: 0 }),
        },
    ]
}

/// The `or` parent's own pins once everything is wired.
pub open spec fn or_pins() -> Seq<PinView> {
    seq![
        PinView {
            name: "a"@,
            index: 0,
            size: 1,
            kind: PinKind::Input,
            clocked: false,
            connection: ConnectionView::ToChild(PinId { name: "input"@, index: 0 }),
        },
        PinView {
            name: "b"@,
            index: 0,
            size: 1,
            kind: PinKind::Input,
            clocked: false,
            connection: ConnectionView::ToChild(PinId { name: "input"@, index: 0 }),
        },
        PinView {
            name: "nota"@,
            index: 0,
            size: 1,
            kind: PinKind::Internal,
            clocked: false,
            connection: ConnectionView::ToChild(PinId { name: "a"@, index: 0 }),
        },
        PinView {
            name: "notb"@,
            index: 0,
            size: 1,
            kind: PinKind::Internal,
            clocked: false,
            connection: ConnectionView::ToChild(PinId { name: "b"@, index: 0 }),
        },
        PinView {
            name: "out"@,
            index: 0,
            size: 1,
            kind: PinKind::Output,
            clocked: false,
            connection: ConnectionView::ToChild(PinId { name: "out"@, index: 0 }),
        },
    ]
}

/// The six pin names that appear around an `or` gate are pairwise
/// distinct.
proof fn lemma_or_names_distinct()
    ensures
        "a"@ != "b"@,
        "a"@ != "nota"@ && "a"@ != "notb"@ && "a"@ != "out"@ && "a"@ != "input"@,
        "b"@ != "nota"@ && "b"@ != "notb"@ && "b"@ != "out"@ && "b"@ != "input"@,
        "nota"@ != "notb"@,
        "nota"@ != "out"@ && "nota"@ != "input"@,
        "notb"@ != "out"@ && "notb"@ != "input"@,
        "out"@ != "input"@,
{
    reveal_strlit("a");
    reveal_strlit("b");
    reveal_strlit("out");
    reveal_strlit("input");
    reveal_strlit("nota");
    reveal_strlit("notb");
    assert("a"@[0] == 'a' && "b"@[0] == 'b');
    assert("a"@.len() == 1 && "b"@.len() == 1 && "out"@.len() == 3 && "input"@.len() == 5
        && "nota"@.len() == 4 && "notb"@.len() == 4);
    assert("nota"@[3] == 'a' && "notb"@[3] == 'b');
}

/// Builds an `or` gate as NAND(NOT(a), NOT(b)): two `not` children feed
/// the internal pins `nota` and `notb`, which a NAND child combines into
/// the output.
#[verifier::rlimit(100)]
pub fn build_or() -> (r: Option<Gate>)
    ensures
        r is Some,
        r matches Some(g) ==> gate_wf(g) && g.name@ == "or"@ && g.pins@ == or_pins()
            && g.gates@.len() == 3 && g.gates@[0].pins@ == or_not_child_pins("a"@, "nota"@)
            && g.gates@[1].pins@ == or_not_child_pins("b"@, "notb"@) && g.gates@[2].pins@
            == or_nand_child_pins() && g.gates@[0].name@ == "not"@ && g.gates@[1].name@ == "not"@
            && g.gates@[2].name@ == "nand"@ && (forall|v: Map<PinId, bool>|
            #[trigger] eval_gate(shape(g), v) == or_output(v)),
{
    proof {
        lemma_or_names_distinct();
    }
    let ghost a0 = PinId { name: "a"@, index: 0 };
    let ghost b0 = PinId { name: "b"@, index: 0 };
    let ghost nota0 = PinId { name: "nota"@, index: 0 };
    let ghost notb0 = PinId { name: "notb"@, index: 0 };
    let ghost out0 = PinId { name: "out"@, index: 0 };
    let ghost input0 = PinId { name: "input"@, index: 0 };
    let mut g = Gate::new("or");
    g.insert_pin(PinKind::Input, "a", 1, 0);
    g.insert_pin(PinKind::Input, "b", 1, 0);
    g.insert_pin(PinKind::Internal, "nota", 1, 0);
    g.insert_pin(PinKind::Internal, "notb", 1, 0);
    g.insert_pin(PinKind::Output, "out", 1, 0);
    proof {
        assert(g.pins@.len() == 5 && pv_key(g.pins@[0]) == a0 && pv_key(g.pins@[1]) == b0
            && pv_key(g.pins@[2]) == nota0 && pv_key(g.pins@[3]) == notb0 && pv_key(g.pins@[4])
            == out0);
    }
    let nota_gate = match build_not() {
        Some(c) => c,
        None => {
            proof {
                assert(false);
            }
            return None;
        },
    };
    let notb_gate = match build_not() {
        Some(c) => c,
        None => {
            proof {
                assert(false);
            }
            return None;
        },
    };
    let nand_gate = match build_nand() {
        Some(c) => c,
        None => {
            proof {
                assert(false);
            }
            return None;
        },
    };
    let ghost sh_not0 = shape(nota_gate);
    let ghost sh_not1 = shape(notb_gate);
    let ghost sh_nand = shape(nand_gate);
    let gi_nota = g.add_gate(nota_gate);
    let gi_notb = g.add_gate(notb_gate);
    let gi_nand = g.add_gate(nand_gate);
    proof {
        assert(gi_nota == 0 && gi_notb == 1 && gi_nand == 2 && g.gates@.len() == 3);
        assert(shape(g.gates@[0]) == sh_not0 && shape(g.gates@[1]) == sh_not1 && shape(
            g.gates@[2],
        ) == sh_nand);
        assert(g.gates@[0].pins@ == not_pins() && g.gates@[1].pins@ == not_pins()
            && g.gates@[2].pins@ == nand_pins());
        assert(pin_has_key(g.pins@, a0)) by {
            assert(pv_key(g.pins@[0]) == a0);
        }
        assert(pin_has_key(g.gates@[0].pins@, input0)) by {
            assert(pv_key(g.gates@[0].pins@[0]) == input0);
        }
        assert(pin_index_of(g.pins@, a0) == 0) by {
            let i = pin_index_of(g.pins@, a0);
            assert(0 <= i < g.pins@.len() && pv_key(g.pins@[i]) == a0);
        }
        assert(pin_index_of(g.gates@[0].pins@, input0) == 0) by {
            let i = pin_index_of(g.gates@[0].pins@, input0);
            assert(0 <= i < g.gates@[0].pins@.len() && pv_key(g.gates@[0].pins@[i]) == input0);
        }
    }
    match g.connect_pins(gi_nota, &PinKey::new("a", 0), &PinKey::new("input", 0)) {
        Ok(()) => {},
        Err(_) => {
            proof {
                assert(false);
            }
            return None;
        },
    }
    proof {
        assert(shape(g.gates@[0]) == sh_not0);
        assert(g.pins@.len() == 5 && pv_key(g.pins@[0]) == a0 && pv_key(g.pins@[1]) == b0
            && pv_key(g.pins@[2]) == nota0 && pv_key(g.pins@[3]) == notb0 && pv_key(g.pins@[4])
            == out0);
        assert(pin_has_key(g.pins@, nota0)) by {
            assert(pv_key(g.pins@[2]) == nota0);
        }
        assert(pin_has_key(g.gates@[0].pins@, out0)) by {
            assert(pv_key(g.gates@[0].pins@[1]) == out0);
        }
        assert(pin_index_of(g.pins@, nota0) == 2) by {
            let i = pin_index_of(g.pins@, nota0);
            assert(0 <= i < g.pins@.len() && pv_key(g.pins@[i]) == nota0);
        }
        assert(pin_index_of(g.gates@[0].pins@, out0) == 1) by {
            let i = pin_index_of(g.gates@[0].pins@, out0);
            assert(0 <= i < g.gates@[0].pins@.len() && pv_key(g.gates@[0].pins@[i]) == out0);
        }
    }
    match g.connect_pins(gi_nota, &PinKey::new("nota", 0), &PinKey::new("out", 0)) {
        Ok(()) => {},
        Err(_) => {
            proof {
                assert(false);
            }
            return None;
        },
    }
    proof {
        assert(shape(g.gates@[0]) == sh_not0 && shape(g.gates@[1]) == sh_not1);
        assert(g.gates@[0].pins@ =~= or_not_child_pins("a"@, "nota"@));
        assert(g.pins@.len() == 5 && pv_key(g.pins@[0]) == a0 && pv_key(g.pins@[1]) == b0
            && pv_key(g.pins@[2]) == nota0 && pv_key(g.pins@[3]) == notb0 && pv_key(g.pins@[4])
            == out0);
        assert(pin_has_key(g.pins@, b0)) by {
            assert(pv_key(g.pins@[1]) == b0);
        }
        assert(pin_has_key(g.gates@[1].pins@, input0)) by {
            assert(pv_key(g.gates@[1].pins@[0]) == input0);
        }
        assert(pin_index_of(g.pins@, b0) == 1) by {
            let i = pin_index_of(g.pins@, b0);
            assert(0 <= i < g.pins@.len() && pv_key(g.pins@[i]) == b0);
        }
        assert(pin_index_of(g.gates@[1].pins@, input0) == 0) by {
            let i = pin_index_of(g.gates@[1].pins@, input0);
            assert(0 <= i < g.gates@[1].pins@.len() && pv_key(g.gates@[1].pins@[i]) == input0);
        }
    }
    match g.connect_pins(gi_notb, &PinKey::new("b", 0), &PinKey::new("input", 0)) {
        Ok(()) => {},
        Err(_) => {
            proof {
                assert(false);
            }
            return None;
        },
    }
    proof {
        assert(shape(g.gates@[1]) == sh_not1);
        assert(g.pins@.len() == 5 && pv_key(g.pins@[0]) == a0 && pv_key(g.pins@[1]) == b0
            && pv_key(g.pins@[2]) == nota0 && pv_key(g.pins@[3]) == notb0 && pv_key(g.pins@[4])
            == out0);
        assert(pin_has_key(g.pins@, notb0)) by {
            assert(pv_key(g.pins@[3]) == notb0);
        }
        assert(pin_has_key(g.gates@[1].pins@, out0)) by {
            assert(pv_key(g.gates@[1].pins@[1]) == out0);
        }
        assert(pin_index_of(g.pins@, notb0) == 3) by {
            let i = pin_index_of(g.pins@, notb0);
            assert(0 <= i < g.pins@.len() && pv_key(g.pins@[i]) == notb0);
        }
        assert(pin_index_of(g.gates@[1].pins@, out0) == 1) by {
            let i = pin_index_of(g.gates@[1].pins@, out0);
            assert(0 <= i < g.gates@[1].pins@.len() && pv_key(g.gates@[1].pins@[i]) == out0);
        }
    }
    match g.connect_pins(gi_notb, &PinKey::new("notb", 0), &PinKey::new("out", 0)) {
        Ok(()) => {},
        Err(_) => {
            proof {
                assert(false);
            }
            return None;
        },
    }
    proof {
        assert(shape(g.gates@[1]) == sh_not1 && shape(g.gates@[2]) == sh_nand);
        assert(g.gates@[1].pins@ =~= or_not_child_pins("b"@, "notb"@));
        assert(g.pins@.len() == 5 && pv_key(g.pins@[0]) == a0 && pv_key(g.pins@[1]) == b0
            && pv_key(g.pins@[2]) == nota0 && pv_key(g.pins@[3]) == notb0 && pv_key(g.pins@[4])
            == out0);
        assert(pin_has_key(g.pins@, nota0)) by {
            assert(pv_key(g.pins@[2]) == nota0);
        }
        assert(pin_has_key(g.gates@[2].pins@, a0)) by {
            assert(pv_key(g.gates@[2].pins@[0]) == a0);
        }
        assert(pin_index_of(g.pins@, nota0) == 2) by {
            let i = pin_index_of(g.pins@, nota0);
            assert(0 <= i < g.pins@.len() && pv_key(g.pins@[i]) == nota0);
        }
        assert(pin_index_of(g.gates@[2].pins@, a0) == 0) by {
            let i = pin_index_of(g.gates@[2].pins@, a0);
            assert(0 <= i < g.gates@[2].pins@.len() && pv_key(g.gates@[2].pins@[i]) == a0);
        }
    }
    match g.connect_pins(gi_nand, &PinKey::new("nota", 0), &PinKey::new("a", 0)) {
        Ok(()) => {},
        Err(_) => {
            proof {
                assert(false);
            }
            return None;
        },
    }
    proof {
        assert(shape(g.gates@[2]) == sh_nand);
        assert(g.pins@.len() == 5 && pv_key(g.pins@[0]) == a0 && pv_key(g.pins@[1]) == b0
            && pv_key(g.pins@[2]) == nota0 && pv_key(g.pins@[3]) == notb0 && pv_key(g.pins@[4])
            == out0);
        assert(pin_has_key(g.pins@, notb0)) by {
            assert(pv_key(g.pins@[3]) == notb0);
        }
        assert(pin_has_key(g.gates@[2].pins@, b0)) by {
            assert(pv_key(g.gates@[2].pins@[1]) == b0);
        }
        assert(pin_index_of(g.pins@, notb0) == 3) by {
            let i = pin_index_of(g.pins@, notb0);
            assert(0 <= i < g.pins@.len() && pv_key(g.pins@[i]) == notb0);
        }
        assert(pin_index_of(g.gates@[2].pins@, b0) == 1) by {
            let i = pin_index_of(g.gates@[2].pins@, b0);
            assert(0 <= i < g.gates@[2].pins@.len() && pv_key(g.gates@[2].pins@[i]) == b0);
        }
    }
    match g.connect_pins(gi_nand, &PinKey::new("notb", 0), &PinKey::new("b", 0)) {
        Ok(()) => {},
        Err(_) => {
            proof {
                assert(false);
            }
            return None;
        },
    }
    proof {
        assert(shape(g.gates@[2]) == sh_nand);
        assert(g.pins@.len() == 5 && pv_key(g.pins@[0]) == a0 && pv_key(g.pins@[1]) == b0
            && pv_key(g.pins@[2]) == nota0 && pv_key(g.pins@[3]) == notb0 && pv_key(g.pins@[4])
            == out0);
        assert(pin_has_key(g.pins@, out0)) by {
            assert(pv_key(g.pins@[4]) == out0);
        }
        assert(pin_has_key(g.gates@[2].pins@, out0)) by {
            assert(pv_key(g.gates@[2].pins@[2]) == out0);
        }
        assert(pin_index_of(g.pins@, out0) == 4) by {
            let i = pin_index_of(g.pins@, out0);
            assert(0 <= i < g.pins@.len() && pv_key(g.pins@[i]) == out0);
        }
        assert(pin_index_of(g.gates@[2].pins@, out0) == 2) by {
            let i = pin_index_of(g.gates@[2].pins@, out0);
            assert(0 <= i < g.gates@[2].pins@.len() && pv_key(g.gates@[2].pins@[i]) == out0);
        }
    }
    match g.connect_pins(gi_nand, &PinKey::new("out", 0), &PinKey::new("out", 0)) {
        Ok(()) => {},
        Err(_) => {
            proof {
                assert(false);
            }
            return None;
        },
    }
    proof {
        assert(shape(g.gates@[0]) == sh_not0 && shape(g.gates@[1]) == sh_not1 && shape(
            g.gates@[2],
        ) == sh_nand);
        assert(g.pins@ =~= or_pins());
        assert(g.gates@[0].pins@ =~= or_not_child_pins("a"@, "nota"@));
        assert(g.gates@[1].pins@ =~= or_not_child_pins("b"@, "notb"@));
        assert(g.gates@[2].pins@ =~= or_nand_child_pins());
        lemma_or_compile_premises(g);
    }
    match g.compile() {
        Ok(()) => {
            proof {
                lemma_or_eval(g, sh_not0, sh_not1, sh_nand);
            }
            Some(g)
        },
        Err(_) => {
            proof {
                assert(false);
            }
            None
        },
    }
}


/// Resolves the `or` parent's five pins by identity.
proof fn lemma_or_parent_pin_at(g: Gate)
    requires
        g.pins@ == or_pins(),
    ensures
        pin_has_key(g.pins@, PinId { name: "a"@, index: 0 }),
        pin_has_key(g.pins@, PinId { name: "b"@, index: 0 }),
        pin_has_key(g.pins@, PinId { name: "nota"@, index: 0 }),
        pin_has_key(g.pins@, PinId { name: "notb"@, index: 0 }),
        pin_has_key(g.pins@, PinId { name: "out"@, index: 0 }),
        pin_at(g.pins@, PinId { name: "a"@, index: 0 }) == or_pins()[0],
        pin_at(g.pins@, PinId { name: "b"@, index: 0 }) == or_pins()[1],
        pin_at(g.pins@, PinId { name: "nota"@, index: 0 }) == or_pins()[2],
        pin_at(g.pins@, PinId { name: "notb"@, index: 0 }) == or_pins()[3],
        pin_at(g.pins@, PinId { name: "out"@, index: 0 }) == or_pins()[4],
{
    lemma_or_names_distinct();
    let a0 = PinId { name: "a"@, index: 0 };
    let b0 = PinId { name: "b"@, index: 0 };
    let nota0 = PinId { name: "nota"@, index: 0 };
    let notb0 = PinId { name: "notb"@, index: 0 };
    let out0 = PinId { name: "out"@, index: 0 };
    assert(pv_key(g.pins@[0]) == a0 && pv_key(g.pins@[1]) == b0 && pv_key(g.pins@[2]) == nota0
        && pv_key(g.pins@[3]) == notb0 && pv_key(g.pins@[4]) == out0);
    assert(pin_at(g.pins@, a0) == or_pins()[0]) by {
        let i = pin_index_of(g.pins@, a0);
        assert(0 <= i < g.pins@.len() && pv_key(g.pins@[i]) == a0);
    }
    assert(pin_at(g.pins@, b0) == or_pins()[1]) by {
        let i = pin_index_of(g.pins@, b0);
        assert(0 <= i < g.pins@.len() && pv_key(g.pins@[i]) == b0);
    }
    assert(pin_at(g.pins@, nota0) == or_pins()[2]) by {
        let i = pin_index_of(g.pins@, nota0);
        assert(0 <= i < g.pins@.len() && pv_key(g.pins@[i]) == nota0);
    }
    assert(pin_at(g.pins@, notb0) == or_pins()[3]) by {
        let i = pin_index_of(g.pins@, notb0);
        assert(0 <= i < g.pins@.len() && pv_key(g.pins@[i]) == notb0);
    }
    assert(pin_at(g.pins@, out0) == or_pins()[4]) by {
        let i = pin_index_of(g.pins@, out0);
        assert(0 <= i < g.pins@.len() && pv_key(g.pins@[i]) == out0);
    }
}

/// A fully wired `or` gate has clean wiring, no dangling internal read,
/// and no combinational cycle: only the NAND child reads internal pins,
/// and it writes none.
proof fn lemma_or_compile_premises(g: Gate)
    requires
        g.gates@.len() == 3,
        g.pins@ == or_pins(),
        g.gates@[0].pins@ == or_not_child_pins("a"@, "nota"@),
        g.gates@[1].pins@ == or_not_child_pins("b"@, "notb"@),
        g.gates@[2].pins@ == or_nand_child_pins(),
    ensures
        !bad_wiring(g),
        !dangling_read(g),
        forall|cyc: Seq<int>, keys: Seq<PinId>| !wiring_cycle(g, cyc, keys),
{
    lemma_or_names_distinct();
    lemma_or_parent_pin_at(g);
    let a0 = PinId { name: "a"@, index: 0 };
    let b0 = PinId { name: "b"@, index: 0 };
    let nota0 = PinId { name: "nota"@, index: 0 };
    let notb0 = PinId { name: "notb"@, index: 0 };
    let out0 = PinId { name: "out"@, index: 0 };
    assert(!bad_wiring(g)) by {
        if bad_wiring(g) {
            let (c, i) = choose|c: int, i: int|
                0 <= c < g.gates@.len() && 0 <= i < g.gates@[c].pins@.len() && pin_bad(
                    g.pins@,
                    #[trigger] g.gates@[c].pins@[i],
                );
            assert(0 <= c < 3);
            if c == 0 || c == 1 {
                assert(0 <= i < 2);
            } else {
                assert(0 <= i < 3);
            }
        }
    }
    assert forall|c: int, k: PinId| #[trigger] reads_internal(g, c, k) implies c == 2 && (k
        == nota0 || k == notb0) by {
        let i = choose|i: int| #[trigger] reads_internal_at(g, c, i, k);
        assert(0 <= c < 3);
        if c == 0 || c == 1 {
            assert(0 <= i < 2);
        } else {
            assert(0 <= i < 3);
        }
    }
    assert forall|c: int, k: PinId| #[trigger] writes_internal(g, c, k) implies (c == 0 && k
        == nota0) || (c == 1 && k == notb0) by {
        let i = choose|i: int| #[trigger] writes_internal_at(g, c, i, k);
        assert(0 <= c < 3);
        if c == 0 || c == 1 {
            assert(0 <= i < 2);
        } else {
            assert(0 <= i < 3);
        }
    }
    assert(!dangling_read(g)) by {
        if dangling_read(g) {
            let (c, k) = choose|c: int, k: PinId|
                #[trigger] reads_internal(g, c, k) && !(exists|c2: int| writes_internal(g, c2, k));
            assert(c == 2 && (k == nota0 || k == notb0));
            if k == nota0 {
                assert(writes_internal_at(g, 0, 1, nota0));
                assert(writes_internal(g, 0, nota0));
            } else {
                assert(writes_internal_at(g, 1, 1, notb0));
                assert(writes_internal(g, 1, notb0));
            }
        }
    }
    assert forall|cyc: Seq<int>, keys: Seq<PinId>| !wiring_cycle(g, cyc, keys) by {
        if wiring_cycle(g, cyc, keys) {
            let last = cyc.len() - 1;
            assert(writes_internal(g, cyc[last], keys[last]) && reads_internal(
                g,
                cycle_after(cyc, last),
                keys[last],
            ));
            assert(cycle_after(cyc, last) == cyc[0]);
            assert(cyc[0] == 2);
            assert(writes_internal(g, cyc[0], keys[0]));
        }
    }
}

/// The three run descriptors of a fully wired `or` gate.
proof fn lemma_or_steps(g: Gate)
    requires
        g.gates@.len() == 3,
        g.pins@ == or_pins(),
        g.gates@[0].pins@ == or_not_child_pins("a"@, "nota"@),
        g.gates@[1].pins@ == or_not_child_pins("b"@, "notb"@),
        g.gates@[2].pins@ == or_nand_child_pins(),
    ensures
        step_of(g, 0) == (PlanStepView {
            gate_index: 0,
            reads: seq![
                (PinId { name: "a"@, index: 0 }, PinId { name: "input"@, index: 0 }),
            ],
            write_internals: seq![
                (PinId { name: "nota"@, index: 0 }, PinId { name: "out"@, index: 0 }),
            ],
            write_outputs: Seq::<(PinId, PinId)>::empty(),
        }),
        step_of(g, 1) == (PlanStepView {
            gate_index: 1,
            reads: seq![
                (PinId { name: "b"@, index: 0 }, PinId { name: "input"@, index: 0 }),
            ],
            write_internals: seq![
                (PinId { name: "notb"@, index: 0 }, PinId { name: "out"@, index: 0 }),
            ],
            write_outputs: Seq::<(PinId, PinId)>::empty(),
        }),
        step_of(g, 2) == (PlanStepView {
            gate_index: 2,
            reads: seq![
                (PinId { name: "nota"@, index: 0 }, PinId { name: "a"@, index: 0 }),
                (PinId { name: "notb"@, index: 0 }, PinId { name: "b"@, index: 0 }),
            ],
            write_internals: Seq::<(PinId, PinId)>::empty(),
            write_outputs: seq![
                (PinId { name: "out"@, index: 0 }, PinId { name: "out"@, index: 0 }),
            ],
        }),
{
    lemma_or_names_distinct();
    lemma_or_parent_pin_at(g);
    let ps0 = or_not_child_pins("a"@, "nota"@);
    let ps1 = or_not_child_pins("b"@, "notb"@);
    let ps2 = or_nand_child_pins();
    assert(reads_of(ps0, 0) =~= Seq::<(PinId, PinId)>::empty());
    assert(reads_of(ps1, 0) =~= Seq::<(PinId, PinId)>::empty());
    assert(reads_of(ps2, 0) =~= Seq::<(PinId, PinId)>::empty());
    assert(writes_internal_of(g.pins@, ps0, 0) =~= Seq::<(PinId, PinId)>::empty());
    assert(writes_internal_of(g.pins@, ps1, 0) =~= Seq::<(PinId, PinId)>::empty());
    assert(writes_internal_of(g.pins@, ps2, 0) =~= Seq::<(PinId, PinId)>::empty());
    assert(writes_internal_of(g.pins@, ps2, 1) =~= Seq::<(PinId, PinId)>::empty());
    assert(writes_output_of(g.pins@, ps0, 0) =~= Seq::<(PinId, PinId)>::empty());
    assert(writes_output_of(g.pins@, ps1, 0) =~= Seq::<(PinId, PinId)>::empty());
    assert(writes_output_of(g.pins@, ps2, 0) =~= Seq::<(PinId, PinId)>::empty());
    assert(writes_output_of(g.pins@, ps2, 1) =~= Seq::<(PinId, PinId)>::empty());
    assert(reads_of(ps0, 1) =~= step_of(g, 0).reads);
    assert(reads_of(ps0, 2) =~= reads_of(ps0, 1));
    assert(writes_internal_of(g.pins@, ps0, 1) =~= Seq::<(PinId, PinId)>::empty());
    assert(writes_internal_of(g.pins@, ps0, 2) =~= seq![
        (PinId { name: "nota"@, index: 0 }, PinId { name: "out"@, index: 0 }),
    ]);
    assert(writes_output_of(g.pins@, ps0, 1) =~= Seq::<(PinId, PinId)>::empty());
    assert(writes_output_of(g.pins@, ps0, 2) =~= Seq::<(PinId, PinId)>::empty());
    assert(reads_of(ps1, 1) =~= step_of(g, 1).reads);
    assert(reads_of(ps1, 2) =~= reads_of(ps1, 1));
    assert(writes_internal_of(g.pins@, ps1, 1) =~= Seq::<(PinId, PinId)>::empty());
    assert(writes_internal_of(g.pins@, ps1, 2) =~= seq![
        (PinId { name: "notb"@, index: 0 }, PinId { name: "out"@, index: 0 }),
    ]);
    assert(writes_output_of(g.pins@, ps1, 1) =~= Seq::<(PinId, PinId)>::empty());
    assert(writes_output_of(g.pins@, ps1, 2) =~= Seq::<(PinId, PinId)>::empty());
    assert(reads_of(ps2, 1) =~= seq![
        (PinId { name: "nota"@, index: 0 }, PinId { name: "a"@, index: 0 }),
    ]);
    assert(reads_of(ps2, 2) =~= step_of(g, 2).reads);
    assert(reads_of(ps2, 3) =~= reads_of(ps2, 2));
    assert(writes_internal_of(g.pins@, ps2, 2) =~= Seq::<(PinId, PinId)>::empty());
    assert(writes_internal_of(g.pins@, ps2, 3) =~= Seq::<(PinId, PinId)>::empty());
    assert(writes_output_of(g.pins@, ps2, 2) =~= Seq::<(PinId, PinId)>::empty());
    assert(writes_output_of(g.pins@, ps2, 3) =~= seq![
        (PinId { name: "out"@, index: 0 }, PinId { name: "out"@, index: 0 }),
    ]);
    assert(g.gates@[0].pins@.len() == 2 && g.gates@[1].pins@.len() == 2 && g.gates@[2].pins@.len()
        == 3);
    assert(step_of(g, 0) =~= (PlanStepView {
        gate_index: 0,
        reads: seq![(PinId { name: "a"@, index: 0 }, PinId { name: "input"@, index: 0 })],
        write_internals: seq![
            (PinId { name: "nota"@, index: 0 }, PinId { name: "out"@, index: 0 }),
        ],
        write_outputs: Seq::<(PinId, PinId)>::empty(),
    }));
    assert(step_of(g, 1) =~= (PlanStepView {
        gate_index: 1,
        reads: seq![(PinId { name: "b"@, index: 0 }, PinId { name: "input"@, index: 0 })],
        write_internals: seq![
            (PinId { name: "notb"@, index: 0 }, PinId { name: "out"@, index: 0 }),
        ],
        write_outputs: Seq::<(PinId, PinId)>::empty(),
    }));
    assert(step_of(g, 2) =~= (PlanStepView {
        gate_index: 2,
        reads: seq![
            (PinId { name: "nota"@, index: 0 }, PinId { name: "a"@, index: 0 }),
            (PinId { name: "notb"@, index: 0 }, PinId { name: "b"@, index: 0 }),
        ],
        write_internals: Seq::<(PinId, PinId)>::empty(),
        write_outputs: seq![
            (PinId { name: "out"@, index: 0 }, PinId { name: "out"@, index: 0 }),
        ],
    }));
}


/// A compiled `or` gate computes the disjunction: the two NOT children
/// (in either order the plan chose) fill the internal pins, then the NAND
/// child combines them.
#[verifier::rlimit(100)]
proof fn lemma_or_eval(g: Gate, sh0: GateShape, sh1: GateShape, sh2: GateShape)
    requires
        g.primitive_implementor is None,
        g.gates@.len() == 3,
        shape(g.gates@[0]) == sh0,
        shape(g.gates@[1]) == sh1,
        shape(g.gates@[2]) == sh2,
        g.pins@ == or_pins(),
        g.gates@[0].pins@ == or_not_child_pins("a"@, "nota"@),
        g.gates@[1].pins@ == or_not_child_pins("b"@, "notb"@),
        g.gates@[2].pins@ == or_nand_child_pins(),
        forall|v: Map<PinId, bool>| #[trigger] eval_gate(sh0, v) == not_output(v),
        forall|v: Map<PinId, bool>| #[trigger] eval_gate(sh1, v) == not_output(v),
        forall|v: Map<PinId, bool>| #[trigger] eval_gate(sh2, v) == nand_output(v),
        g.compiled_tock_plans matches Some(p) && crate::compile::plan_complete(g, plan_views(p@))
            && crate::compile::plan_sound(g, plan_views(p@)),
    ensures
        forall|v: Map<PinId, bool>| #[trigger] eval_gate(shape(g), v) == or_output(v),
{
    lemma_or_names_distinct();
    lemma_or_parent_pin_at(g);
    lemma_or_steps(g);
    let a0 = PinId { name: "a"@, index: 0 };
    let b0 = PinId { name: "b"@, index: 0 };
    let nota0 = PinId { name: "nota"@, index: 0 };
    let notb0 = PinId { name: "notb"@, index: 0 };
    let out0 = PinId { name: "out"@, index: 0 };
    let input0 = PinId { name: "input"@, index: 0 };
    let p = g.compiled_tock_plans->Some_0;
    let splan = Seq::new(p@.len(), |i: int| p@[i]@);
    assert(splan =~= plan_views(p@));
    let gs = shape(g);
    assert(gs.behavior is None);
    assert(gs.plan == Some(splan));
    assert(splan.len() == 3);
    lemma_shapes_of_index(g.gates@, 3, 0);
    lemma_shapes_of_index(g.gates@, 3, 1);
    lemma_shapes_of_index(g.gates@, 3, 2);
    assert(gs.children.len() == 3 && gs.children[0] == sh0 && gs.children[1] == sh1
        && gs.children[2] == sh2);
    // the NAND child runs last: both of its internal reads must follow
    // their writers, and only the two NOT children write internal pins
    assert(crate::compile::plan_covers(splan, 2));
    let s2 = choose|s: int| 0 <= s < splan.len() && (#[trigger] splan[s]).gate_index == 2;
    assert(splan[s2] == step_of(g, 2));
    assert(splan[s2].reads[0] == (nota0, PinId { name: "a"@, index: 0 }));
    assert(pin_at(g.pins@, nota0).kind is Internal);
    assert(crate::compile::written_before(splan, s2, nota0));
    let (ta, wa) = choose|t: int, wi: int|
        0 <= t < s2 && t < splan.len() && 0 <= wi < splan[t].write_internals.len() && (
        #[trigger] splan[t].write_internals[wi]).0 == nota0;
    assert(splan[ta] == step_of(g, splan[ta].gate_index));
    assert(splan[ta].gate_index == 0) by {
        if splan[ta].gate_index == 1 {
            assert(splan[ta].write_internals[wa].0 == notb0);
        }
        if splan[ta].gate_index == 2 {
            assert(splan[ta].write_internals.len() == 0);
        }
    }
    assert(splan[s2].reads[1] == (notb0, PinId { name: "b"@, index: 0 }));
    assert(pin_at(g.pins@, notb0).kind is Internal);
    assert(crate::compile::written_before(splan, s2, notb0));
    let (tb, wb) = choose|t: int, wi: int|
        0 <= t < s2 && t < splan.len() && 0 <= wi < splan[t].write_internals.len() && (
        #[trigger] splan[t].write_internals[wi]).0 == notb0;
    assert(splan[tb].gate_index == 1) by {
        assert(splan[tb] == step_of(g, splan[tb].gate_index));
        if splan[tb].gate_index == 0 {
            assert(splan[tb].write_internals[wb].0 == nota0);
        }
        if splan[tb].gate_index == 2 {
            assert(splan[tb].write_internals.len() == 0);
        }
    }
    assert(ta != tb);
    assert(s2 == 2);
    assert((splan[0].gate_index == 0 && splan[1].gate_index == 1) || (splan[0].gate_index == 1
        && splan[1].gate_index == 0)) by {
        assert(ta == 0 || ta == 1);
        assert(tb == 0 || tb == 1);
    }
    assert forall|v: Map<PinId, bool>| #[trigger] eval_gate(shape(g), v) == or_output(v) by {
        let va = value_or_false(v, a0);
        let vb = value_or_false(v, b0);
        let w2: Map<PinId, bool> = if splan[0].gate_index == 0 {
            v.insert(nota0, !va).insert(notb0, !vb)
        } else {
            v.insert(notb0, !vb).insert(nota0, !va)
        };
        if splan[0].gate_index == 0 {
            let st0 = splan[0];
            assert(st0 == step_of(g, 0));
            assert(splan[1].gate_index == 1);
            let st1 = splan[1];
            assert(st1 == step_of(g, 1));
            let xx0 = gathered(v, st0.reads, 1);
            assert(gathered(v, st0.reads, 0) =~= Map::<PinId, bool>::empty());
            assert(xx0 =~= Map::<PinId, bool>::empty().insert(input0, va));
            assert(eval_gate(gs.children[0], xx0) == not_output(xx0));
            assert(value_or_false(not_output(xx0), out0) == !va);
            let w1 = v.insert(nota0, !va);
            assert(written_back(v, st0.write_internals, not_output(xx0), 0) == v);
            assert(written_back(v, st0.write_internals, not_output(xx0), 1) =~= w1);
            assert(written_back(Map::empty(), st0.write_outputs, not_output(xx0), 0) == Map::<
                PinId,
                bool,
            >::empty());
            assert(eval_steps(gs, splan, 0, v, Map::empty()) == eval_steps(
                gs,
                splan,
                1,
                w1,
                Map::empty(),
            ));
            let xx1 = gathered(w1, st1.reads, 1);
            assert(gathered(w1, st1.reads, 0) =~= Map::<PinId, bool>::empty());
            assert(xx1 =~= Map::<PinId, bool>::empty().insert(input0, vb)) by {
                assert(value_or_false(w1, b0) == vb);
            }
            assert(eval_gate(gs.children[1], xx1) == not_output(xx1));
            assert(value_or_false(not_output(xx1), out0) == !vb);
            assert(written_back(w1, st1.write_internals, not_output(xx1), 0) == w1);
            assert(written_back(w1, st1.write_internals, not_output(xx1), 1) =~= w2);
            assert(written_back(Map::empty(), st1.write_outputs, not_output(xx1), 0) == Map::<
                PinId,
                bool,
            >::empty());
            assert(eval_steps(gs, splan, 1, w1, Map::empty()) == eval_steps(
                gs,
                splan,
                2,
                w2,
                Map::empty(),
            ));
        } else {
            let st0 = splan[0];
            assert(st0 == step_of(g, 1));
            assert(splan[1].gate_index == 0);
            let st1 = splan[1];
            assert(st1 == step_of(g, 0));
            let xx0 = gathered(v, st0.reads, 1);
            assert(gathered(v, st0.reads, 0) =~= Map::<PinId, bool>::empty());
            assert(xx0 =~= Map::<PinId, bool>::empty().insert(input0, vb));
            assert(eval_gate(gs.children[1], xx0) == not_output(xx0));
            assert(value_or_false(not_output(xx0), out0) == !vb);
            let w1 = v.insert(notb0, !vb);
            assert(written_back(v, st0.write_internals, not_output(xx0), 0) == v);
            assert(written_back(v, st0.write_internals, not_output(xx0), 1) =~= w1);
            assert(written_back(Map::empty(), st0.write_outputs, not_output(xx0), 0) == Map::<
                PinId,
                bool,
            >::empty());
            assert(eval_steps(gs, splan, 0, v, Map::empty()) == eval_steps(
                gs,
                splan,
                1,
                w1,
                Map::empty(),
            ));
            let xx1 = gathered(w1, st1.reads, 1);
            assert(gathered(w1, st1.reads, 0) =~= Map::<PinId, bool>::empty());
            assert(xx1 =~= Map::<PinId, bool>::empty().insert(input0, va)) by {
                assert(value_or_false(w1, a0) == va);
            }
            assert(eval_gate(gs.children[0], xx1) == not_output(xx1));
            assert(value_or_false(not_output(xx1), out0) == !va);
            assert(written_back(w1, st1.write_internals, not_output(xx1), 0) == w1);
            assert(written_back(w1, st1.write_internals, not_output(xx1), 1) =~= w2);
            assert(written_back(Map::empty(), st1.write_outputs, not_output(xx1), 0) == Map::<
                PinId,
                bool,
            >::empty());
            assert(eval_steps(gs, splan, 1, w1, Map::empty()) == eval_steps(
                gs,
                splan,
                2,
                w2,
                Map::empty(),
            ));
        }
        let st2 = splan[2];
        assert(st2 == step_of(g, 2));
        let xx2 = gathered(w2, st2.reads, 2);
        assert(xx2 =~= Map::<PinId, bool>::empty().insert(a0, !va).insert(b0, !vb)) by {
            assert(value_or_false(w2, nota0) == !va);
            assert(value_or_false(w2, notb0) == !vb);
            assert(gathered(w2, st2.reads, 0) =~= Map::<PinId, bool>::empty());
            assert(gathered(w2, st2.reads, 1) =~= Map::<PinId, bool>::empty().insert(a0, !va));
        }
        let res2 = eval_gate(gs.children[2], xx2);
        assert(res2 == nand_output(xx2));
        assert(value_or_false(xx2, a0) == !va && value_or_false(xx2, b0) == !vb);
        assert(value_or_false(res2, out0) == !(!va && !vb));
        assert(written_back(w2, st2.write_internals, res2, 0) == w2);
        let o2 = written_back(Map::empty(), st2.write_outputs, res2, 1);
        assert(o2 =~= Map::<PinId, bool>::empty().insert(out0, va || vb)) by {
            assert(written_back(Map::empty(), st2.write_outputs, res2, 0) == Map::<
                PinId,
                bool,
            >::empty());
        }
        assert(eval_steps(gs, splan, 2, w2, Map::empty()) == eval_steps(gs, splan, 3, w2, o2));
        assert(eval_steps(gs, splan, 3, w2, o2) == (w2, o2));
        assert(eval_gate(shape(g), v) == o2);
        assert(o2 =~= or_output(v));
    }
}

/// The factory registration of the `or` gate type.
pub fn gate_or() -> (r: GateFactoryFunction)
    ensures
        r.name@ == "or"@,
        r.generator == GateBuilder::Or,
{
    GateFactoryFunction { name: "or".to_owned(), generator: GateBuilder::Or }
}

} // verus!
