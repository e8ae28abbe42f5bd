//! A gate: its declared pins, its children and their wiring, the
//! compiled execution plan, and the two-phase executor that walks it.

use vstd::prelude::*;
use crate::pins::Connection;
use crate::pins::ConnectionView;
use crate::pins::Pin;
use crate::pins::PinId;
use crate::pins::PinKey;
use crate::pins::PinKind;
use crate::pins::PinMap;
use crate::pins::PinValues;
use crate::pins::PinView;
use crate::pins::pin_at;
use crate::pins::pin_has_key;
use crate::pins::pv_key;
use crate::pins::value_or_false;

verus! {

/// How building or compiling a gate can fail.
#[derive(Debug)]
pub enum GateValidationError {
    /// A connection breaks the kind rules, or an internal pin is read but
    /// never written.
    InvalidPinConnection,
    /// A referenced pin or child was never declared.
    PinNotExists,
    /// The children form a combinational cycle through internal pins.
    CombinationalCycle,
}

/// Mathematical image of one compiled step.
#[verifier::ext_equal]
pub ghost struct PlanStepView {
    pub gate_index: int,
    pub reads: Seq<(PinId, PinId)>,
    pub write_internals: Seq<(PinId, PinId)>,
    pub write_outputs: Seq<(PinId, PinId)>,
}

/// One step of a compiled plan: which child runs, which of its inputs are
/// sourced from the parent's working values, and where its outputs land.
/// Every pair is `(parent pin, child pin)`.
pub struct GateRunPlan {
    pub gate_index: i64,
    pub reads: Vec<(PinKey, PinKey)>,
    pub write_internals: Vec<(PinKey, PinKey)>,
    pub write_outputs: Vec<(PinKey, PinKey)>,
}

/// The identity pairs a key-pair sequence denotes.
pub open spec fn pairs_view(s: Seq<(PinKey, PinKey)>) -> Seq<(PinId, PinId)> {
    Seq::new(s.len(), |i: int| (s[i].0@, s[i].1@))
}

impl View for GateRunPlan {
    type V = PlanStepView;

    open spec fn view(&self) -> PlanStepView {
        PlanStepView {
            gate_index: self.gate_index as int,
            reads: pairs_view(self.reads@),
            write_internals: pairs_view(self.write_internals@),
            write_outputs: pairs_view(self.write_outputs@),
        }
    }
}

/// A pluggable behaviour for a primitive gate.  An implementor must be a
/// pure function of the input values: the same inputs always produce the
/// same outputs, and running it does not change what it computes.
pub trait PrimitiveGateImplementor {
    /// The function this implementor computes.
    spec fn behavior(&self) -> spec_fn(Map<PinId, bool>) -> Map<PinId, bool>;

    fn run(&mut self, inputs: PinValues) -> (r: PinValues)
        requires
            inputs.wf(),
        ensures
            r.wf(),
            r@ == (old(self).behavior())(inputs@),
            final(self).behavior() == old(self).behavior(),
    ;
}

/// A node of the circuit hierarchy: a named black box of indexed boolean
/// pins, either primitive (behaviour supplied by an implementor) or
/// composite (behaviour derived from owned child gates, their wiring, and
/// a compiled plan).
pub struct Gate {
    pub name: String,
    pub gates: Vec<Gate>,
    pub primitive_implementor: Option<Box<dyn PrimitiveGateImplementor>>,
    pub pins: PinMap,
    pub temp_values: PinValues,
    pub compiled_tock_plans: Option<Vec<GateRunPlan>>,
}

/// Everything that determines a gate's behaviour: its compiled plan, its
/// primitive behaviour if any, and its children's shapes — but not the
/// declared pins (wiring a gate into a parent rewrites their connections
/// without changing what it computes) and not the transient working
/// values.
pub ghost struct GateShape {
    pub name: Seq<char>,
    pub behavior: Option<spec_fn(Map<PinId, bool>) -> Map<PinId, bool>>,
    pub plan: Option<Seq<PlanStepView>>,
    pub children: Seq<GateShape>,
}

/// The shapes of the first `n` gates of `s`.
pub open spec fn shapes_of(s: Seq<Gate>, n: int) -> Seq<GateShape>
    decreases s, n,
{
    if n <= 0 || n > s.len() {
        Seq::empty()
    } else {
        shapes_of(s, n - 1).push(shape(s[n - 1]))
    }
}

/// The behaviour-determining part of a gate.
pub open spec fn shape(g: Gate) -> GateShape
    decreases g, 0int,
{
    GateShape {
        name: g.name@,
        behavior: match g.primitive_implementor {
            Option::Some(b) => Option::Some(b.behavior()),
            Option::None => Option::None,
        },
        plan: match g.compiled_tock_plans {
            Option::Some(p) => Option::Some(Seq::new(p@.len(), |i: int| p@[i]@)),
            Option::None => Option::None,
        },
        children: shapes_of(g.gates@, g.gates@.len() as int),
    }
}

/// Each of the first `n` gates of `s` is well formed.
pub open spec fn gates_wf(s: Seq<Gate>, n: int) -> bool
    decreases s, n,
{
    if n <= 0 || n > s.len() {
        true
    } else {
        gates_wf(s, n - 1) && gate_wf(s[n - 1])
    }
}

/// Validity of a gate: distinct pin identities, coherent value storage,
/// a plan that only names existing children, and well-formed children.
pub open spec fn gate_wf(g: Gate) -> bool
    decreases g, 0int,
{
    &&& g.pins.wf()
    &&& g.temp_values.wf()
    &&& match g.compiled_tock_plans {
        Option::Some(p) => forall|i: int|
            0 <= i < p@.len() ==> 0 <= (#[trigger] p@[i])@.gate_index < g.gates@.len(),
        Option::None => true,
    }
    &&& gates_wf(g.gates@, g.gates@.len() as int)
}

pub proof fn lemma_shapes_of_index(s: Seq<Gate>, n: int, i: int)
    requires
        0 <= i < n <= s.len(),
    ensures
        shapes_of(s, n).len() == n,
        shapes_of(s, n)[i] == shape(s[i]),
    decreases n,
{
    if n > 0 {
        if i < n - 1 {
            lemma_shapes_of_index(s, n - 1, i);
        } else {
            lemma_shapes_of_len(s, n - 1);
        }
    }
}

pub proof fn lemma_shapes_of_len(s: Seq<Gate>, n: int)
    requires
        0 <= n <= s.len(),
    ensures
        shapes_of(s, n).len() == n,
    decreases n,
{
    if n > 0 {
        lemma_shapes_of_len(s, n - 1);
    }
}

pub proof fn lemma_gates_wf_index(s: Seq<Gate>, n: int, i: int)
    requires
        gates_wf(s, n),
        0 <= i < n <= s.len(),
    ensures
        gate_wf(s[i]),
    decreases n,
{
    if i < n - 1 {
        lemma_gates_wf_index(s, n - 1, i);
    }
}

pub proof fn lemma_gates_wf_all(s: Seq<Gate>, n: int)
    requires
        0 <= n <= s.len(),
        forall|i: int| 0 <= i < n ==> gate_wf(#[trigger] s[i]),
    ensures
        gates_wf(s, n),
    decreases n,
{
    if n > 0 {
        lemma_gates_wf_all(s, n - 1);
    }
}

/// Two gate sequences of equal length and pointwise equal shapes have
/// equal shape sequences.
pub proof fn lemma_shapes_of_congruence(a: Seq<Gate>, b: Seq<Gate>, n: int)
    requires
        0 <= n <= a.len(),
        n <= b.len(),
        forall|i: int| 0 <= i < n ==> shape(#[trigger] a[i]) == shape(b[i]),
    ensures
        shapes_of(a, n) == shapes_of(b, n),
    decreases n,
{
    if n > 0 {
        lemma_shapes_of_congruence(a, b, n - 1);
    }
}

impl Gate {
    pub fn new(name: &str) -> (r: Gate)
        ensures
            gate_wf(r),
            r.name@ == name@,
            r.pins@ == Seq::<PinView>::empty(),
            r.gates@.len() == 0,
            r.primitive_implementor is None,
            r.compiled_tock_plans is None,
            r.temp_values@ == Map::<PinId, bool>::empty(),
    {
        let r = Gate {
            name: name.to_owned(),
            gates: Vec::new(),
            primitive_implementor: Option::None,
            pins: PinMap::new(),
            temp_values: PinValues::new(),
            compiled_tock_plans: Option::None,
        };
        r
    }

    /// Takes ownership of a child gate, appends it, and returns its stable
    /// position in the child list.
    pub fn add_gate(&mut self, gate: Gate) -> (r: usize)
        ensures
            r == old(self).gates@.len(),
            final(self).gates@ == old(self).gates@.push(gate),
            final(self).name == old(self).name,
            final(self).pins == old(self).pins,
            final(self).temp_values == old(self).temp_values,
            final(self).primitive_implementor == old(self).primitive_implementor,
            final(self).compiled_tock_plans == old(self).compiled_tock_plans,
            gate_wf(*old(self)) && gate_wf(gate) && old(self).compiled_tock_plans is None
                ==> gate_wf(*final(self)),
    {
        self.gates.push(gate);
        let r = self.gates.len() - 1;
        proof {
            if gate_wf(*old(self)) && gate_wf(gate) && old(self).compiled_tock_plans is None {
                assert forall|i: int|
                    0 <= i < self.gates@.len() implies gate_wf(#[trigger] self.gates@[i]) by {
                    if i < old(self).gates@.len() {
                        lemma_gates_wf_index(old(self).gates@, old(self).gates@.len() as int, i);
                        assert(self.gates@[i] == old(self).gates@[i]);
                    }
                }
                lemma_gates_wf_all(self.gates@, self.gates@.len() as int);
            }
        }
        r
    }

    /// Declares one indexed slot of a named pin group; repeated calls with
    /// rising indices build up a multi-bit bus.  Redeclaring a slot
    /// replaces it: last write wins.
    pub fn insert_pin(&mut self, kind: PinKind, name: &str, size: i64, index: i64)
        requires
            old(self).pins.wf(),
        ensures
            final(self).pins.wf(),
            ({
                let pv = PinView {
                    name: name@,
                    index: index as int,
                    size: size as int,
                    kind: kind,
                    clocked: false,
                    connection: ConnectionView::Unconnected,
                };
                let k = PinId { name: name@, index: index as int };
                if pin_has_key(old(self).pins@, k) {
                    final(self).pins@ == old(self).pins@.update(
                        crate::pins::pin_index_of(old(self).pins@, k),
                        pv,
                    )
                } else {
                    final(self).pins@ == old(self).pins@.push(pv)
                }
            }),
            final(self).name == old(self).name,
            final(self).gates == old(self).gates,
            final(self).temp_values == old(self).temp_values,
            final(self).primitive_implementor == old(self).primitive_implementor,
            final(self).compiled_tock_plans == old(self).compiled_tock_plans,
            gate_wf(*old(self)) ==> gate_wf(*final(self)),
    {
        self.pins.insert(kind, name, size, index);
    }

    /// Looks one of this gate's own pins up by identity.
    pub fn get_pin(&self, name: &str, index: i64) -> (r: Option<&Pin>)
        ensures
            match r {
                Some(p) => pin_has_key(self.pins@, PinId { name: name@, index: index as int })
                    && pv_key(p@) == (PinId { name: name@, index: index as int }) && (
                self.pins.wf() ==> p@ == pin_at(
                    self.pins@,
                    PinId { name: name@, index: index as int },
                )),
                None => !pin_has_key(self.pins@, PinId { name: name@, index: index as int }),
            },
    {
        self.pins.get(name, index)
    }

    /// Whether this gate declares a pin with this identity.
    pub fn exists_pin(&self, name: &str, index: i64) -> (r: bool)
        ensures
            r == pin_has_key(self.pins@, PinId { name: name@, index: index as int }),
    {
        self.get_pin(name, index).is_some()
    }

    /// Records the mutual connection between one of this gate's own pins
    /// and a pin of the child at `gate_index`: the parent pin points
    /// `ToChild`, the child pin points back `ToParent`.  Fails with
    /// `PinNotExists` — mutating nothing — exactly when either pin was
    /// never declared or the child index is out of range.
    pub fn connect_pins(&mut self, gate_index: usize, pin: &PinKey, child_pin: &PinKey) -> (r:
        Result<(), GateValidationError>)
        requires
            gate_wf(*old(self)),
        ensures
            gate_wf(*final(self)),
            final(self).name == old(self).name,
            final(self).temp_values == old(self).temp_values,
            final(self).primitive_implementor == old(self).primitive_implementor,
            final(self).compiled_tock_plans == old(self).compiled_tock_plans,
            final(self).gates@.len() == old(self).gates@.len(),
            match r {
                Ok(()) => {
                    &&& pin_has_key(old(self).pins@, pin@)
                    &&& gate_index < old(self).gates@.len()
                    &&& pin_has_key(old(self).gates@[gate_index as int].pins@, child_pin@)
                    &&& final(self).pins@ == old(self).pins@.update(
                        crate::pins::pin_index_of(old(self).pins@, pin@),
                        PinView {
                            connection: ConnectionView::ToChild(child_pin@),
                            ..pin_at(old(self).pins@, pin@)
                        },
                    )
                    &&& final(self).gates@[gate_index as int].pins@ == old(
                        self,
                    ).gates@[gate_index as int].pins@.update(
                        crate::pins::pin_index_of(
                            old(self).gates@[gate_index as int].pins@,
                            child_pin@,
                        ),
                        PinView {
                            connection: ConnectionView::ToParent(pin@),
                            ..pin_at(old(self).gates@[gate_index as int].pins@, child_pin@)
                        },
                    )
                    &&& (forall|i: int|
                        0 <= i < old(self).gates@.len() && i != gate_index
                            ==> #[trigger] final(self).gates@[i] == old(self).gates@[i])
                    &&& final(self).gates@[gate_index as int].name == old(
                        self,
                    ).gates@[gate_index as int].name
                    &&& final(self).gates@[gate_index as int].gates == old(
                        self,
                    ).gates@[gate_index as int].gates
                    &&& final(self).gates@[gate_index as int].temp_values == old(
                        self,
                    ).gates@[gate_index as int].temp_values
                    &&& final(self).gates@[gate_index as int].primitive_implementor == old(
                        self,
                    ).gates@[gate_index as int].primitive_implementor
                    &&& final(self).gates@[gate_index as int].compiled_tock_plans == old(
                        self,
                    ).gates@[gate_index as int].compiled_tock_plans
                },
                Err(e) => {
                    &&& e is PinNotExists
                    &&& *final(self) == *old(self)
                    &&& !(pin_has_key(old(self).pins@, pin@) && gate_index < old(
                        self,
                    ).gates@.len() && pin_has_key(
                        old(self).gates@[gate_index as int].pins@,
                        child_pin@,
                    ))
                },
            },
    {
        if !self.exists_pin(pin.name(), pin.index()) {
            return Err(GateValidationError::PinNotExists);
        }
        if gate_index >= self.gates.len() {
            return Err(GateValidationError::PinNotExists);
        }
        if !self.gates[gate_index].exists_pin(child_pin.name(), child_pin.index()) {
            return Err(GateValidationError::PinNotExists);
        }
        let parent_conn = Connection::ToChild(child_pin.name().to_owned(), child_pin.index());
        let child_conn = Connection::ToParent(pin.name().to_owned(), pin.index());
        let ok = self.pins.set_connection(pin.name(), pin.index(), parent_conn);
        proof {
            lemma_gates_wf_index(
                old(self).gates@,
                old(self).gates@.len() as int,
                gate_index as int,
            );
        }
        let mut child = self.gates.remove(gate_index);
        let ghost child0 = child;
        let ok2 = child.pins.set_connection(child_pin.name(), child_pin.index(), child_conn);
        self.gates.insert(gate_index, child);
        proof {
            assert(ok && ok2);
            assert(self.gates@ =~= old(self).gates@.update(
                gate_index as int,
                self.gates@[gate_index as int],
            ));
            assert(gate_wf(child0));
            assert(gate_wf(self.gates@[gate_index as int]));
            assert forall|i: int|
                0 <= i < self.gates@.len() implies gate_wf(#[trigger] self.gates@[i]) by {
                if i != gate_index {
                    lemma_gates_wf_index(old(self).gates@, old(self).gates@.len() as int, i);
                    assert(self.gates@[i] == old(self).gates@[i]);
                }
            }
            lemma_gates_wf_all(self.gates@, self.gates@.len() as int);
            assert(child_pin@ == (PinId { name: child_pin@.name, index: child_pin@.index }));
            assert(pin@ == (PinId { name: pin@.name, index: pin@.index }));
        }
        Ok(())
    }
}

/// The value under each child pin gathered for one step: for the first `n`
/// read pairs, the child pin is given the parent-side working value.
pub open spec fn gathered(
    working: Map<PinId, bool>,
    reads: Seq<(PinId, PinId)>,
    n: int,
) -> Map<PinId, bool>
    decreases n,
{
    if n <= 0 {
        Map::empty()
    } else {
        gathered(working, reads, n - 1).insert(
            reads[n - 1].1,
            value_or_false(working, reads[n - 1].0),
        )
    }
}

/// The destination map after copying, for the first `n` pairs, the child
/// result under the child pin into the parent pin.
pub open spec fn written_back(
    dst: Map<PinId, bool>,
    pairs: Seq<(PinId, PinId)>,
    res: Map<PinId, bool>,
    n: int,
) -> Map<PinId, bool>
    decreases n,
{
    if n <= 0 {
        dst
    } else {
        written_back(dst, pairs, res, n - 1).insert(
            pairs[n - 1].0,
            value_or_false(res, pairs[n - 1].1),
        )
    }
}

/// The output a gate of shape `g` produces for `inputs`: a primitive
/// applies its behaviour; a composite walks its compiled plan, a gate
/// without a plan produces nothing.
pub open spec fn eval_gate(g: GateShape, inputs: Map<PinId, bool>) -> Map<PinId, bool>
    decreases g, 1int, 0int,
{
    match g.behavior {
        Option::Some(f) => f(inputs),
        Option::None => match g.plan {
            Option::Some(plan) => eval_steps(g, plan, 0, inputs, Map::empty()).1,
            Option::None => Map::empty(),
        },
    }
}

/// One pass over the plan steps `k..`, threading the working value set and
/// the accumulated outputs: each step gathers its child's inputs from the
/// working set, evaluates the child, folds internal writes back into the
/// working set and output writes into the result.
pub open spec fn eval_steps(
    g: GateShape,
    plan: Seq<PlanStepView>,
    k: int,
    working: Map<PinId, bool>,
    out: Map<PinId, bool>,
) -> (Map<PinId, bool>, Map<PinId, bool>)
    decreases g, 0int, plan.len() - k,
{
    if k < 0 || k >= plan.len() {
        (working, out)
    } else {
        let step = plan[k];
        if 0 <= step.gate_index < g.children.len() {
            let xx = gathered(working, step.reads, step.reads.len() as int);
            let res = eval_gate(g.children[step.gate_index], xx);
            eval_steps(
                g,
                plan,
                k + 1,
                written_back(working, step.write_internals, res, step.write_internals.len() as int),
                written_back(out, step.write_outputs, res, step.write_outputs.len() as int),
            )
        } else {
            eval_steps(g, plan, k + 1, working, out)
        }
    }
}

/// Nesting depth of a shape: one more than the deepest child.
pub open spec fn shape_depth(g: GateShape) -> nat
    decreases g, 1int,
{
    1 + children_depth(g.children, g.children.len() as int)
}

/// The deepest depth among the first `n` shapes of `s`.
pub open spec fn children_depth(s: Seq<GateShape>, n: int) -> nat
    decreases s, n, 0int,
{
    if n <= 0 || n > s.len() {
        0
    } else if shape_depth(s[n - 1]) > children_depth(s, n - 1) {
        shape_depth(s[n - 1])
    } else {
        children_depth(s, n - 1)
    }
}

pub proof fn lemma_child_depth_le(s: Seq<GateShape>, n: int, i: int)
    requires
        0 <= i < n <= s.len(),
    ensures
        shape_depth(s[i]) <= children_depth(s, n),
    decreases n,
{
    if i < n - 1 {
        lemma_child_depth_le(s, n - 1, i);
    }
}

impl Gate {
    /// Begins a time step: captures the externally supplied input values
    /// as this gate's working set.  The compiler emits no clocked steps (no
    /// state-holding primitive is part of this library), so a tick only
    /// latches the inputs; the following `tock` runs the compiled plan.
    pub fn tick(&mut self, inputs: PinValues)
        requires
            inputs.wf(),
        ensures
            final(self).temp_values@ == inputs@,
            final(self).temp_values.wf(),
            shape(*final(self)) == shape(*old(self)),
            final(self).name == old(self).name,
            final(self).gates == old(self).gates,
            final(self).pins == old(self).pins,
            final(self).primitive_implementor == old(self).primitive_implementor,
            final(self).compiled_tock_plans == old(self).compiled_tock_plans,
            gate_wf(*old(self)) ==> gate_wf(*final(self)),
    {
        self.temp_values = inputs;
    }

    /// Finishes a time step: a primitive gate hands its working values to
    /// its implementor; a composite gate walks its compiled plan in order,
    /// pushing gathered inputs into each child, folding the child's
    /// internal writes back into the working set and collecting its output
    /// writes as the result.  An uncompiled composite produces nothing.
    #[verifier::loop_isolation(false)]
    pub fn tock(&mut self) -> (r: PinValues)
        requires
            gate_wf(*old(self)),
        ensures
            gate_wf(*final(self)),
            shape(*final(self)) == shape(*old(self)),
            final(self).name == old(self).name,
            final(self).pins == old(self).pins,
            r.wf(),
            r@ == eval_gate(shape(*old(self)), old(self).temp_values@),
        decreases shape_depth(shape(*old(self))),
    {
        let ghost g0 = *old(self);
        if self.primitive_implementor.is_some() {
            let mut tmp = PinValues::new();
            core::mem::swap(&mut tmp, &mut self.temp_values);
            let r = match &mut self.primitive_implementor {
                Option::Some(x) => x.run(tmp),
                Option::None => {
                    proof {
                        assert(false);
                    }
                    PinValues::new()
                },
            };
            proof {
                assert(shape(*final(self)) == shape(g0));
            }
            r
        } else {
            let mut plans_opt: Option<Vec<GateRunPlan>> = Option::None;
            core::mem::swap(&mut plans_opt, &mut self.compiled_tock_plans);
            match plans_opt {
                Option::None => {
                    let r = PinValues::new();
                    proof {
                        assert(shape(*final(self)) == shape(g0));
                    }
                    r
                },
                Option::Some(plans) => {
                    let ghost plans0 = plans@;
                    let ghost gs = shape(g0);
                    let ghost splan = Seq::new(plans@.len(), |k: int| plans@[k]@);
                    let ghost w0 = g0.temp_values@;
                    proof {
                        assert(gs.plan == Option::Some(splan));
                        assert(gs.behavior is None);
                        lemma_shapes_of_len(g0.gates@, g0.gates@.len() as int);
                        assert forall|j: int|
                            0 <= j < g0.gates@.len() implies gate_wf(#[trigger] g0.gates@[j]) by {
                            lemma_gates_wf_index(g0.gates@, g0.gates@.len() as int, j);
                        }
                        assert forall|j: int|
                            0 <= j < g0.gates@.len() implies gs.children[j] == shape(
                            #[trigger] g0.gates@[j],
                        ) by {
                            lemma_shapes_of_index(g0.gates@, g0.gates@.len() as int, j);
                        }
                    }
                    let mut out = PinValues::new();
                    let n = plans.len();
                    let mut i: usize = 0;
                    let ng = self.gates.len();
                    while i < n
                        invariant
                            g0 == *old(self),
                            n == plans@.len(),
                            plans@ == plans0,
                            i <= n,
                            ng == g0.gates@.len(),
                            gs == shape(g0),
                            splan == Seq::new(plans0.len(), |k: int| plans0[k]@),
                            gs.plan == Option::Some(splan),
                            gs.behavior is None,
                            gs.children.len() == g0.gates@.len(),
                            w0 == g0.temp_values@,
                            g0.pins.wf(),
                            forall|k: int|
                                0 <= k < plans0.len() ==> 0 <= (#[trigger] plans0[k])@.gate_index
                                    < g0.gates@.len(),
                            self.gates@.len() == g0.gates@.len(),
                            forall|j: int|
                                0 <= j < self.gates@.len() ==> shape(#[trigger] self.gates@[j])
                                    == shape(g0.gates@[j]),
                            forall|j: int|
                                0 <= j < self.gates@.len() ==> gate_wf(#[trigger] self.gates@[j]),
                            forall|j: int|
                                0 <= j < g0.gates@.len() ==> gs.children[j] == shape(
                                    #[trigger] g0.gates@[j],
                                ),
                            self.name == g0.name,
                            self.pins == g0.pins,
                            self.primitive_implementor is None,
                            self.compiled_tock_plans is None,
                            self.temp_values.wf(),
                            out.wf(),
                            eval_steps(gs, splan, 0, w0, Map::empty()) == eval_steps(
                                gs,
                                splan,
                                i as int,
                                self.temp_values@,
                                out@,
                            ),
                        decreases n - i,
                    {
                        let ghost step_v = splan[i as int];
                        let ghost temp_in = self.temp_values@;
                        let ghost out_in = out@;
                        proof {
                            assert(0 <= plans0[i as int]@.gate_index < g0.gates@.len());
                            assert(step_v == plans0[i as int]@);
                        }
                        let idx = plans[i].gate_index as usize;
                        proof {
                            assert(idx as int == step_v.gate_index);
                            assert(idx < self.gates@.len());
                        }
                        let mut xx = PinValues::new();
                        let nr = plans[i].reads.len();
                        let mut rj: usize = 0;
                        while rj < nr
                            invariant
                                rj <= nr,
                                nr == plans[i as int].reads@.len(),
                                i < plans@.len(),
                                step_v == plans@[i as int]@,
                                temp_in == self.temp_values@,
                                self.temp_values.wf(),
                                xx.wf(),
                                xx@ == gathered(temp_in, step_v.reads, rj as int),
                            decreases nr - rj,
                        {
                            let v = self.temp_values.get_or_false(
                                plans[i].reads[rj].0.name(),
                                plans[i].reads[rj].0.index(),
                            );
                            xx.set(plans[i].reads[rj].1.name(), plans[i].reads[rj].1.index(), v);
                            rj = rj + 1;
                        }
                        proof {
                            assert(xx@ == gathered(temp_in, step_v.reads, step_v.reads.len() as int));
                        }
                        let ghost gates_before = self.gates@;
                        let mut child = self.gates.remove(idx);
                        proof {
                            assert(shape(child) == gs.children[idx as int]);
                            lemma_child_depth_le(gs.children, gs.children.len() as int, idx as int);
                        }
                        child.tick(xx);
                        proof {
                            assert(shape(child) == gs.children[idx as int]);
                            assert(shape_depth(shape(child)) < shape_depth(shape(g0))) by {
                                lemma_child_depth_le(
                                    gs.children,
                                    gs.children.len() as int,
                                    idx as int,
                                );
                            }
                        }
                        let res = child.tock();
                        self.gates.insert(idx, child);
                        proof {
                            assert(self.gates@ =~= gates_before.update(
                                idx as int,
                                self.gates@[idx as int],
                            ));
                            assert(shape(self.gates@[idx as int]) == shape(g0.gates@[idx as int]));
                            assert(res@ == eval_gate(gs.children[idx as int], xx@));
                        }
                        let ghost gates_now = self.gates@;
                        let nwi = plans[i].write_internals.len();
                        let mut wj: usize = 0;
                        while wj < nwi
                            invariant
                                wj <= nwi,
                                res.wf(),
                                self.gates@ == gates_now,
                                self.name == g0.name,
                                self.pins == g0.pins,
                                self.primitive_implementor is None,
                                self.compiled_tock_plans is None,
                                self.temp_values.wf(),
                                self.temp_values@ == written_back(
                                    temp_in,
                                    step_v.write_internals,
                                    res@,
                                    wj as int,
                                ),
                            decreases nwi - wj,
                        {
                            let v = res.get_or_false(
                                plans[i].write_internals[wj].1.name(),
                                plans[i].write_internals[wj].1.index(),
                            );
                            self.temp_values.set(
                                plans[i].write_internals[wj].0.name(),
                                plans[i].write_internals[wj].0.index(),
                                v,
                            );
                            wj = wj + 1;
                        }
                        let nwo = plans[i].write_outputs.len();
                        let mut oj: usize = 0;
                        while oj < nwo
                            invariant
                                oj <= nwo,
                                res.wf(),
                                out.wf(),
                                out@ == written_back(out_in, step_v.write_outputs, res@, oj as int),
                            decreases nwo - oj,
                        {
                            let v = res.get_or_false(
                                plans[i].write_outputs[oj].1.name(),
                                plans[i].write_outputs[oj].1.index(),
                            );
                            out.set(
                                plans[i].write_outputs[oj].0.name(),
                                plans[i].write_outputs[oj].0.index(),
                                v,
                            );
                            oj = oj + 1;
                        }
                        proof {
                            assert(eval_steps(gs, splan, i as int, temp_in, out_in) == eval_steps(
                                gs,
                                splan,
                                i as int + 1,
                                self.temp_values@,
                                out@,
                            ));
                        }
                        i = i + 1;
                    }
                    self.compiled_tock_plans = Option::Some(plans);
                    proof {
                        assert(eval_steps(gs, splan, n as int, self.temp_values@, out@) == (
                        self.temp_values@,
                        out@,
                        ));
                        assert(out@ == eval_gate(gs, w0));
                        assert(shape(*final(self)).plan == Option::Some(
                            Seq::new(plans0.len(), |k: int| plans0[k]@),
                        ));
                        lemma_shapes_of_congruence(
                            final(self).gates@,
                            g0.gates@,
                            g0.gates@.len() as int,
                        );
                        assert(shape(*final(self)) == shape(g0));
                        lemma_gates_wf_all(final(self).gates@, final(self).gates@.len() as int);
                        assert(gate_wf(*final(self)));
                    }
                    out
                },
            }
        }
    }

    /// Determinism: what a gate produces is a mathematical function of its
    /// shape and the input values alone.  Together with `run`'s contract —
    /// the result equals `eval_gate` of a gate's shape, and running
    /// preserves the shape — this says a compiled gate yields the same
    /// output set on every invocation against the same inputs.
    pub proof fn lemma_run_deterministic(g1: Gate, g2: Gate, inputs: Map<PinId, bool>)
        requires
            shape(g1) == shape(g2),
        ensures
            eval_gate(shape(g1), inputs) == eval_gate(shape(g2), inputs),
    {
    }

    /// One whole evaluation against fresh inputs: a tick that captures
    /// them followed by the tock that runs the compiled plan.
    pub fn run(&mut self, inputs: PinValues) -> (r: PinValues)
        requires
            gate_wf(*old(self)),
            inputs.wf(),
        ensures
            gate_wf(*final(self)),
            shape(*final(self)) == shape(*old(self)),
            final(self).name == old(self).name,
            final(self).pins == old(self).pins,
            r.wf(),
            r@ == eval_gate(shape(*old(self)), inputs@),
    {
        self.tick(inputs);
        self.tock()
    }
}

} // verus!
