//! The primitive ground truth: a two-input NAND implementor and a gate
//! type built around it.

use vstd::prelude::*;
use crate::compile::bad_wiring;
use crate::compile::dangling_read;
use crate::compile::reads_internal_at;
use crate::compile::wiring_cycle;
use crate::compile::writes_internal_at;
use crate::factory::GateBuilder;
use crate::factory::GateFactoryFunction;
use crate::gate::Gate;
use crate::gate::GateShape;
use crate::gate::PrimitiveGateImplementor;
use crate::gate::eval_gate;
use crate::gate::gate_wf;
use crate::gate::shape;
use crate::pins::ConnectionView;
use crate::pins::PinId;
use crate::pins::PinKind;
use crate::pins::PinValues;
use crate::pins::PinView;
use crate::pins::pv_key;
use crate::pins::value_or_false;

verus! {

/// What a NAND produces: `out[0]` is the negated conjunction of `a[0]` and
/// `b[0]`, an input that was never set reading as false.
pub open spec fn nand_output(m: Map<PinId, bool>) -> Map<PinId, bool> {
    Map::empty().insert(
        PinId { name: "out"@, index: 0 },
        !(value_or_false(m, PinId { name: "a"@, index: 0 }) && value_or_false(
            m,
            PinId { name: "b"@, index: 0 },
        )),
    )
}

/// The behaviour behind every primitive `nand` gate.
pub struct NandImplementor {}

impl PrimitiveGateImplementor for NandImplementor {
    open spec fn behavior(&self) -> spec_fn(Map<PinId, bool>) -> Map<PinId, bool> {
        |m: Map<PinId, bool>| nand_output(m)
    }

    fn run(&mut self, inputs: PinValues) -> (r: PinValues) {
        let a = inputs.get_or_false("a", 0);
        let b = inputs.get_or_false("b", 0);
        let mut out = PinValues::new();
        out.set("out", 0, !(a && b));
        proof {
            assert(out@ =~= nand_output(inputs@));
        }
        out
    }
}

/// The declared pins of the primitive `nand` gate, in declaration order.
pub open spec fn nand_pins() -> Seq<PinView> {
    seq![
        PinView {
            name: "a"@,
            index: 0,
            size: 1,
            kind: PinKind::Input,
            clocked: false,
            connection: ConnectionView::Unconnected,
        },
        PinView {
            name: "b"@,
            index: 0,
            size: 1,
            kind: PinKind::Input,
            clocked: false,
            connection: ConnectionView::Unconnected,
        },
        PinView {
            name: "out"@,
            index: 0,
            size: 1,
            kind: PinKind::Output,
            clocked: false,
            connection: ConnectionView::Unconnected,
        },
    ]
}

/// Builds the primitive `nand` gate: pins `a`, `b` and `out`, behaviour
/// supplied by `NandImplementor`.
pub fn build_nand() -> (r: Option<Gate>)
    ensures
        r is Some,
        r matches Some(g) ==> gate_wf(g) && g.name@ == "nand"@ && g.gates@.len() == 0
            && g.pins@ == nand_pins() && (forall|v: Map<PinId, bool>|
            #[trigger] eval_gate(shape(g), v) == nand_output(v)),
{
    let mut g = Gate::new("nand");
    g.insert_pin(PinKind::Input, "a", 1, 0);
    proof {
        reveal_strlit("a");
        reveal_strlit("b");
        reveal_strlit("out");
        assert("a"@ != "b"@) by {
            assert("a"@[0] == 'a' && "b"@[0] == 'b');
        }
        assert("a"@ != "out"@) by {
            assert("a"@.len() == 1 && "out"@.len() == 3);
        }
        assert("b"@ != "out"@) by {
            assert("b"@.len() == 1 && "out"@.len() == 3);
        }
        assert(g.pins@ =~= nand_pins().subrange(0, 1));
    }
    g.insert_pin(PinKind::Input, "b", 1, 0);
    proof {
        assert(g.pins@ =~= nand_pins().subrange(0, 2));
    }
    g.insert_pin(PinKind::Output, "out", 1, 0);
    proof {
        assert(g.pins@ =~= nand_pins());
    }
    g.primitive_implementor = Some(Box::new(NandImplementor {}));
    proof {
        assert(gate_wf(g));
        assert(!bad_wiring(g)) by {
            if bad_wiring(g) {
                let (c, i) = choose|c: int, i: int|
                    0 <= c < g.gates@.len() && 0 <= i < g.gates@[c].pins@.len()
                        && crate::compile::pin_bad(g.pins@, #[trigger] g.gates@[c].pins@[i]);
            }
        }
        assert(!dangling_read(g)) by {
            if dangling_read(g) {
                let (c, k) = choose|c: int, k: PinId|
                    #[trigger] crate::compile::reads_internal(g, c, k) && !(exists|c2: int|
                        crate::compile::writes_internal(g, c2, k));
                let i = choose|i: int| #[trigger] reads_internal_at(g, c, i, k);
            }
        }
        assert forall|cyc: Seq<int>, keys: Seq<PinId>| !wiring_cycle(g, cyc, keys) by {
            if wiring_cycle(g, cyc, keys) {
                assert(crate::compile::writes_internal(g, cyc[0], keys[0]));
                let i = choose|i: int| #[trigger] writes_internal_at(g, cyc[0], i, keys[0]);
            }
        }
    }
    match g.compile() {
        Ok(()) => {
            proof {
                assert(g.primitive_implementor is Some);
                match &g.primitive_implementor {
                    Option::Some(b) => {
                        assert(shape(g).behavior == Option::Some(b.behavior()));
                        assert forall|v: Map<PinId, bool>| #[trigger] eval_gate(shape(g), v)
                            == nand_output(v) by {
                            assert(eval_gate(shape(g), v) == (b.behavior())(v));
                            assert((b.behavior())(v) == nand_output(v));
                        }
                    },
                    Option::None => {
                        assert(false);
                    },
                }
            }
            Some(g)
        },
        Err(_) => {
            proof {
                assert(false);
            }
            None
        },
    }
}

/// The factory registration of the primitive `nand` gate type.
pub fn gate_nand() -> (r: GateFactoryFunction)
    ensures
        r.name@ == "nand"@,
        r.generator == GateBuilder::Nand,
{
    GateFactoryFunction { name: "nand".to_owned(), generator: GateBuilder::Nand }
}

} // verus!
