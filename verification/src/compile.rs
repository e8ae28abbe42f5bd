//! The compiler: turns a composite gate's child wiring into a flat,
//! dependency-ordered execution plan, rejecting invalid connections and
//! combinational cycles.

use vstd::prelude::*;
use crate::gate::Gate;
use crate::gate::gate_wf;
use crate::gate::GateRunPlan;
use crate::gate::GateValidationError;
use crate::gate::PlanStepView;
use crate::gate::pairs_view;
use crate::graph::Graph;
use crate::graph::cycle_next;
use crate::graph::is_cycle;
use crate::pins::Connection;
use crate::pins::ConnectionView;
use crate::pins::PinId;
use crate::pins::PinKey;
use crate::pins::PinKind;
use crate::pins::PinView;
use crate::pins::pin_at;
use crate::pins::pin_has_key;
use crate::pins::pv_key;
use crate::pins::str_eq;

verus! {

/// The read pairs the first `n` pins of a child induce: every Input pin
/// wired to a parent pin contributes `(parent key, child key)`, in pin
/// order.
pub open spec fn reads_of(ps: Seq<PinView>, n: int) -> Seq<(PinId, PinId)>
    decreases n,
{
    if n <= 0 || n > ps.len() {
        Seq::empty()
    } else {
        let rest = reads_of(ps, n - 1);
        let p = ps[n - 1];
        match p.connection {
            ConnectionView::ToParent(k) => if p.kind is Input {
                rest.push((k, pv_key(p)))
            } else {
                rest
            },
            _ => rest,
        }
    }
}

/// The internal-write pairs of the first `n` pins: every Output pin wired
/// to an Internal parent pin contributes `(parent key, child key)`.
pub open spec fn writes_internal_of(parent: Seq<PinView>, ps: Seq<PinView>, n: int) -> Seq<
    (PinId, PinId),
>
    decreases n,
{
    if n <= 0 || n > ps.len() {
        Seq::empty()
    } else {
        let rest = writes_internal_of(parent, ps, n - 1);
        let p = ps[n - 1];
        match p.connection {
            ConnectionView::ToParent(k) => if p.kind is Output && pin_has_key(parent, k) && pin_at(
                parent,
                k,
            ).kind is Internal {
                rest.push((k, pv_key(p)))
            } else {
                rest
            },
            _ => rest,
        }
    }
}

/// The output-write pairs of the first `n` pins: every Output pin wired to
/// an Output parent pin contributes `(parent key, child key)`.
pub open spec fn writes_output_of(parent: Seq<PinView>, ps: Seq<PinView>, n: int) -> Seq<
    (PinId, PinId),
>
    decreases n,
{
    if n <= 0 || n > ps.len() {
        Seq::empty()
    } else {
        let rest = writes_output_of(parent, ps, n - 1);
        let p = ps[n - 1];
        match p.connection {
            ConnectionView::ToParent(k) => if p.kind is Output && pin_has_key(parent, k) && pin_at(
                parent,
                k,
            ).kind is Output {
                rest.push((k, pv_key(p)))
            } else {
                rest
            },
            _ => rest,
        }
    }
}

/// The run descriptor compilation derives for child `c` of `g`.
pub open spec fn step_of(g: Gate, c: int) -> PlanStepView {
    PlanStepView {
        gate_index: c,
        reads: reads_of(g.gates@[c].pins@, g.gates@[c].pins@.len() as int),
        write_internals: writes_internal_of(
            g.pins@,
            g.gates@[c].pins@,
            g.gates@[c].pins@.len() as int,
        ),
        write_outputs: writes_output_of(
            g.pins@,
            g.gates@[c].pins@,
            g.gates@[c].pins@.len() as int,
        ),
    }
}

/// A child pin that breaks the connection rules: it points to a parent pin
/// that does not exist, an Input pin points to a write-only Output parent
/// pin, or an Output pin points to a read-only Input parent pin.
pub open spec fn pin_bad(parent: Seq<PinView>, p: PinView) -> bool {
    match p.connection {
        ConnectionView::ToParent(k) => !pin_has_key(parent, k) || (p.kind is Input && pin_at(
            parent,
            k,
        ).kind is Output) || (p.kind is Output && pin_at(parent, k).kind is Input),
        _ => false,
    }
}

/// Some child pin of `g` breaks the connection rules.
pub open spec fn bad_wiring(g: Gate) -> bool {
    exists|c: int, i: int|
        0 <= c < g.gates@.len() && 0 <= i < g.gates@[c].pins@.len() && pin_bad(
            g.pins@,
            #[trigger] g.gates@[c].pins@[i],
        )
}

/// Pin `i` of child `c` reads the internal parent pin `k`.
pub open spec fn reads_internal_at(g: Gate, c: int, i: int, k: PinId) -> bool {
    &&& 0 <= c < g.gates@.len()
    &&& 0 <= i < g.gates@[c].pins@.len()
    &&& g.gates@[c].pins@[i].kind is Input
    &&& g.gates@[c].pins@[i].connection == ConnectionView::ToParent(k)
    &&& pin_has_key(g.pins@, k)
    &&& pin_at(g.pins@, k).kind is Internal
}

/// Pin `i` of child `c` writes the internal parent pin `k`.
pub open spec fn writes_internal_at(g: Gate, c: int, i: int, k: PinId) -> bool {
    &&& 0 <= c < g.gates@.len()
    &&& 0 <= i < g.gates@[c].pins@.len()
    &&& g.gates@[c].pins@[i].kind is Output
    &&& g.gates@[c].pins@[i].connection == ConnectionView::ToParent(k)
    &&& pin_has_key(g.pins@, k)
    &&& pin_at(g.pins@, k).kind is Internal
}

/// Child `c` reads the internal parent pin `k` through some of its pins.
pub open spec fn reads_internal(g: Gate, c: int, k: PinId) -> bool {
    exists|i: int| #[trigger] reads_internal_at(g, c, i, k)
}

/// Child `c` writes the internal parent pin `k` through some of its pins.
pub open spec fn writes_internal(g: Gate, c: int, k: PinId) -> bool {
    exists|i: int| #[trigger] writes_internal_at(g, c, i, k)
}

/// Some child reads an internal pin that no child writes: the value would
/// never be produced.
pub open spec fn dangling_read(g: Gate) -> bool {
    exists|c: int, k: PinId|
        #[trigger] reads_internal(g, c, k) && !(exists|c2: int| writes_internal(g, c2, k))
}

/// A directed loop among the children through internal pins: each child
/// on the loop writes some internal pin that the next child on the loop
/// reads, the last wrapping to the first.
pub open spec fn wiring_cycle(g: Gate, cyc: Seq<int>, keys: Seq<PinId>) -> bool {
    &&& cyc.len() >= 1
    &&& keys.len() == cyc.len()
    &&& forall|j: int|
        0 <= j < cyc.len() ==> #[trigger] writes_internal(g, cyc[j], keys[j]) && reads_internal(
            g,
            cycle_after(cyc, j),
            keys[j],
        )
}

/// Some step of the plan runs child `c`.
pub open spec fn plan_covers(plan: Seq<PlanStepView>, c: int) -> bool {
    exists|s: int| 0 <= s < plan.len() && (#[trigger] plan[s]).gate_index == c
}

/// A plan covers exactly the children of `g`, one descriptor each.
pub open spec fn plan_complete(g: Gate, plan: Seq<PlanStepView>) -> bool {
    &&& plan.len() == g.gates@.len()
    &&& (forall|s: int|
        0 <= s < plan.len() ==> 0 <= (#[trigger] plan[s]).gate_index < g.gates@.len() && plan[s]
            == step_of(g, plan[s].gate_index))
    &&& (forall|c: int| 0 <= c < g.gates@.len() ==> #[trigger] plan_covers(plan, c))
    &&& (forall|s1: int, s2: int|
        0 <= s1 < plan.len() && 0 <= s2 < plan.len() && (#[trigger] plan[s1]).gate_index == (
        #[trigger] plan[s2]).gate_index ==> s1 == s2)
}

/// Some step strictly before position `s` writes the internal pin `k`.
pub open spec fn written_before(plan: Seq<PlanStepView>, s: int, k: PinId) -> bool {
    exists|t: int, wi: int|
        0 <= t < s && t < plan.len() && 0 <= wi < plan[t].write_internals.len() && (
        #[trigger] plan[t].write_internals[wi]).0 == k
}

/// Topological soundness of a plan: every read whose source is an internal
/// parent pin comes strictly after a step that writes that same pin.
pub open spec fn plan_sound(g: Gate, plan: Seq<PlanStepView>) -> bool {
    forall|s: int, ri: int|
        0 <= s < plan.len() && 0 <= ri < plan[s].reads.len() && pin_has_key(
            g.pins@,
            (#[trigger] plan[s].reads[ri]).0,
        ) && pin_at(g.pins@, plan[s].reads[ri].0).kind is Internal ==> written_before(
            plan,
            s,
            plan[s].reads[ri].0,
        )
}

fn clone_pairs(v: &Vec<(PinKey, PinKey)>) -> (r: Vec<(PinKey, PinKey)>)
    ensures
        pairs_view(r@) == pairs_view(v@),
{
    let n = v.len();
    let mut out: Vec<(PinKey, PinKey)> = Vec::new();
    let mut i: usize = 0;
    while i < n
        invariant
            i <= n,
            n == v@.len(),
            out@.len() == i,
            forall|j: int|
                0 <= j < i ==> (#[trigger] out@[j]).0@ == v@[j].0@ && out@[j].1@ == v@[j].1@,
        decreases n - i,
    {
        let e = &v[i];
        out.push((e.0.clone(), e.1.clone()));
        i = i + 1;
    }
    proof {
        assert(pairs_view(out@) =~= pairs_view(v@));
    }
    out
}

impl Clone for GateRunPlan {
    fn clone(&self) -> (r: Self)
        ensures
            r@ == self@,
    {
        GateRunPlan {
            gate_index: self.gate_index,
            reads: clone_pairs(&self.reads),
            write_internals: clone_pairs(&self.write_internals),
            write_outputs: clone_pairs(&self.write_outputs),
        }
    }
}


/// The views of a compiled plan's steps, in order.
pub open spec fn plan_views(p: Seq<GateRunPlan>) -> Seq<PlanStepView> {
    Seq::new(p.len(), |i: int| p[i]@)
}

/// The graph holds an edge from some in-range writer of the entry's pin to
/// the entry's reader.
pub open spec fn entry_edge(gr: Graph, g0: Gate, ent: (PinKey, i64), n: int) -> bool {
    exists|w: i64|
        #[trigger] gr.edge(w, ent.1) && writes_internal(g0, w as int, ent.0@) && 0 <= w < n
}

fn find_writer(wt: &Vec<(PinKey, i64)>, name: &str, index: i64) -> (r: Option<i64>)
    ensures
        match r {
            Some(w) => exists|e: int|
                0 <= e < wt@.len() && (#[trigger] wt@[e]).0@ == (PinId {
                    name: name@,
                    index: index as int,
                }) && wt@[e].1 == w,
            None => forall|e: int|
                0 <= e < wt@.len() ==> (#[trigger] wt@[e]).0@ != (PinId {
                    name: name@,
                    index: index as int,
                }),
        },
{
    let ghost k = PinId { name: name@, index: index as int };
    let n = wt.len();
    let mut i: usize = 0;
    while i < n
        invariant
            i <= n,
            n == wt@.len(),
            k == (PinId { name: name@, index: index as int }),
            forall|e: int| 0 <= e < i ==> (#[trigger] wt@[e]).0@ != k,
        decreases n - i,
    {
        let e = &wt[i];
        if e.0.index() == index && str_eq(e.0.name(), name) {
            return Some(e.1);
        }
        i = i + 1;
    }
    None
}

proof fn lemma_reads_of_elem(ps: Seq<PinView>, n: int, ri: int)
    requires
        0 <= ri < reads_of(ps, n).len(),
        n <= ps.len(),
    ensures
        exists|i: int|
            0 <= i < n && (#[trigger] ps[i]).kind is Input && ps[i].connection
                == ConnectionView::ToParent(reads_of(ps, n)[ri].0) && reads_of(ps, n)[ri].1
                == pv_key(ps[i]),
    decreases n,
{
    if n > 0 {
        if ri < reads_of(ps, n - 1).len() {
            lemma_reads_of_elem(ps, n - 1, ri);
            let i = choose|i: int|
                0 <= i < n - 1 && (#[trigger] ps[i]).kind is Input && ps[i].connection
                    == ConnectionView::ToParent(reads_of(ps, n - 1)[ri].0) && reads_of(
                    ps,
                    n - 1,
                )[ri].1 == pv_key(ps[i]);
            assert(reads_of(ps, n)[ri] == reads_of(ps, n - 1)[ri]);
            assert(0 <= i < n && ps[i].kind is Input);
        } else {
            assert(ps[n - 1].kind is Input);
        }
    }
}

proof fn lemma_writes_internal_of_contains(
    parent: Seq<PinView>,
    ps: Seq<PinView>,
    n: int,
    i: int,
    k: PinId,
)
    requires
        0 <= i < n <= ps.len(),
        ps[i].kind is Output,
        ps[i].connection == ConnectionView::ToParent(k),
        pin_has_key(parent, k),
        pin_at(parent, k).kind is Internal,
    ensures
        exists|wi: int|
            0 <= wi < writes_internal_of(parent, ps, n).len() && (
            #[trigger] writes_internal_of(parent, ps, n)[wi]).0 == k,
    decreases n,
{
    if i < n - 1 {
        lemma_writes_internal_of_contains(parent, ps, n - 1, i, k);
        let wi = choose|wi: int|
            0 <= wi < writes_internal_of(parent, ps, n - 1).len() && (
            #[trigger] writes_internal_of(parent, ps, n - 1)[wi]).0 == k;
        assert(writes_internal_of(parent, ps, n)[wi] == writes_internal_of(parent, ps, n - 1)[wi]);
    } else {
        let w = writes_internal_of(parent, ps, n);
        assert(w[w.len() - 1].0 == k);
    }
}

impl Gate {
    /// Analyzes the children's connections, orders them so that every
    /// internal value is produced before it is consumed, and stores the
    /// resulting plan.  Fails with `InvalidPinConnection` exactly when some
    /// connection breaks the kind rules or an internal pin is read but
    /// never written, and with `CombinationalCycle` when the wiring is
    /// sound but the children depend on each other in a loop; a failed
    /// compilation changes nothing.
    #[verifier::loop_isolation(false)]
    #[verifier::rlimit(60)]
    pub fn compile(&mut self) -> (r: Result<(), GateValidationError>)
        requires
            gate_wf(*old(self)),
            old(self).gates@.len() <= 0x7fff_ffff_ffff_ffff,
        ensures
            gate_wf(*final(self)),
            final(self).name == old(self).name,
            final(self).gates == old(self).gates,
            final(self).pins == old(self).pins,
            final(self).temp_values == old(self).temp_values,
            final(self).primitive_implementor == old(self).primitive_implementor,
            match r {
                Ok(()) => {
                    &&& !bad_wiring(*old(self))
                    &&& !dangling_read(*old(self))
                    &&& match final(self).compiled_tock_plans {
                        Option::Some(p) => plan_complete(*old(self), plan_views(p@))
                            && plan_sound(*old(self), plan_views(p@)),
                        Option::None => false,
                    }
                },
                Err(e) => {
                    &&& *final(self) == *old(self)
                    &&& (e is InvalidPinConnection <==> (bad_wiring(*old(self)) || dangling_read(
                        *old(self),
                    )))
                    &&& (e is CombinationalCycle ==> exists|cyc: Seq<int>, keys: Seq<PinId>|
                        wiring_cycle(*old(self), cyc, keys))
                    &&& !(e is PinNotExists)
                },
            },
            !bad_wiring(*old(self)) && !dangling_read(*old(self)) && (forall|
                cyc: Seq<int>,
                keys: Seq<PinId>,
            |
                !wiring_cycle(*old(self), cyc, keys)) ==> r is Ok,
    {
        let ghost g0 = *old(self);
        let n = self.gates.len();
        let mut graph = Graph::new();
        let ghost idseq = Seq::new(n as nat, |j: int| j as i64);
        let mut t: usize = 0;
        while t < n
            invariant
                t <= n,
                *self == g0,
                graph.wf(),
                graph.node_ids() == idseq.subrange(0, t as int),
                forall|a: i64, b: i64| !graph.edge(a, b),
            decreases n - t,
        {
            graph.add_node(t as i64);
            proof {
                assert(graph.node_ids() =~= idseq.subrange(0, t as int + 1));
            }
            t = t + 1;
        }
        proof {
            assert(graph.node_ids() == idseq);
            assert forall|x: i64| graph.node_ids().contains(x) implies 0 <= x < n by {
                let j = choose|j: int| 0 <= j < idseq.len() && idseq[j] == x;
            }
        }
        let mut runs: Vec<GateRunPlan> = Vec::new();
        let mut rd: Vec<(PinKey, i64)> = Vec::new();
        let mut wt: Vec<(PinKey, i64)> = Vec::new();
        let mut c: usize = 0;
        while c < n
            invariant
                c <= n,
                *self == g0,
                runs@.len() == c,
                forall|j: int| 0 <= j < c ==> (#[trigger] runs@[j])@ == step_of(g0, j),
                forall|cc: int, ii: int|
                    0 <= cc < c && 0 <= ii < g0.gates@[cc].pins@.len() ==> !pin_bad(
                        g0.pins@,
                        #[trigger] g0.gates@[cc].pins@[ii],
                    ),
                forall|e: int|
                    0 <= e < rd@.len() ==> reads_internal(
                        g0,
                        (#[trigger] rd@[e]).1 as int,
                        rd@[e].0@,
                    ) && 0 <= rd@[e].1 < n,
                forall|e: int|
                    0 <= e < wt@.len() ==> writes_internal(
                        g0,
                        (#[trigger] wt@[e]).1 as int,
                        wt@[e].0@,
                    ) && 0 <= wt@[e].1 < n,
                forall|cc: int, ii: int, k: PinId|
                    #[trigger] reads_internal_at(g0, cc, ii, k) && cc < c ==> exists|e: int|
                        0 <= e < rd@.len() && (#[trigger] rd@[e]).0@ == k && rd@[e].1 == cc as i64,
                forall|cc: int, ii: int, k: PinId|
                    #[trigger] writes_internal_at(g0, cc, ii, k) && cc < c ==> exists|e: int|
                        0 <= e < wt@.len() && (#[trigger] wt@[e]).0@ == k,
            decreases n - c,
        {
            let np = self.gates[c].pins.len();
            let mut reads: Vec<(PinKey, PinKey)> = Vec::new();
            let mut write_internals: Vec<(PinKey, PinKey)> = Vec::new();
            let mut write_outputs: Vec<(PinKey, PinKey)> = Vec::new();
            let ghost cpins = g0.gates@[c as int].pins@;
            let mut p: usize = 0;
            while p < np
                invariant
                    p <= np,
                    c < n,
                    *self == g0,
                    np == cpins.len(),
                    cpins == g0.gates@[c as int].pins@,
                    pairs_view(reads@) == reads_of(cpins, p as int),
                    pairs_view(write_internals@) == writes_internal_of(
                        g0.pins@,
                        cpins,
                        p as int,
                    ),
                    pairs_view(write_outputs@) == writes_output_of(g0.pins@, cpins, p as int),
                    forall|ii: int|
                        0 <= ii < p ==> !pin_bad(g0.pins@, #[trigger] cpins[ii]),
                    forall|e: int|
                        0 <= e < rd@.len() ==> reads_internal(
                            g0,
                            (#[trigger] rd@[e]).1 as int,
                            rd@[e].0@,
                        ) && 0 <= rd@[e].1 < n,
                    forall|e: int|
                        0 <= e < wt@.len() ==> writes_internal(
                            g0,
                            (#[trigger] wt@[e]).1 as int,
                            wt@[e].0@,
                        ) && 0 <= wt@[e].1 < n,
                    forall|cc: int, ii: int, k: PinId|
                        #[trigger] reads_internal_at(g0, cc, ii, k) && (cc < c || (cc == c && ii
                            < p)) ==> exists|e: int|
                            0 <= e < rd@.len() && (#[trigger] rd@[e]).0@ == k && rd@[e].1
                                == cc as i64,
                    forall|cc: int, ii: int, k: PinId|
                        #[trigger] writes_internal_at(g0, cc, ii, k) && (cc < c || (cc == c && ii
                            < p)) ==> exists|e: int|
                            0 <= e < wt@.len() && (#[trigger] wt@[e]).0@ == k,
                decreases np - p,
            {
                let pin = self.gates[c].pins.at(p);
                let ghost pv = cpins[p as int];
                proof {
                    assert(pin@ == pv);
                }
                match &pin.connection {
                    Connection::ToParent(nm, ix) => {
                        let parent = match self.pins.get(nm.as_str(), *ix) {
                            Some(x) => x,
                            None => {
                                proof {
                                    assert(pin_bad(g0.pins@, g0.gates@[c as int].pins@[p as int]));
                                    assert(bad_wiring(g0));
                                }
                                return Err(GateValidationError::InvalidPinConnection);
                            },
                        };
                        let parent_key = PinKey::new(nm.as_str(), *ix);
                        let child_key = PinKey::new(pin.name.as_str(), pin.index);
                        proof {
                            assert(pv.connection == ConnectionView::ToParent(parent_key@));
                            assert(parent@ == pin_at(g0.pins@, parent_key@));
                            assert(child_key@ == pv_key(pv));
                        }
                        match pin.kind {
                            PinKind::Input => {
                                match parent.kind {
                                    PinKind::Internal => {
                                        let ghost rd0 = rd@;
                                        rd.push((parent_key.clone(), c as i64));
                                        proof {
                                            assert(reads_internal_at(
                                                g0,
                                                c as int,
                                                p as int,
                                                parent_key@,
                                            ));
                                            assert(rd@[rd@.len() - 1].0@ == parent_key@
                                                && rd@[rd@.len() - 1].1 == c as i64);
                                            assert(forall|e: int|
                                                0 <= e < rd0.len() ==> rd@[e] == rd0[e]);
                                        }
                                    },
                                    PinKind::Input => {},
                                    PinKind::Output => {
                                        proof {
                                            assert(pin_bad(
                                                g0.pins@,
                                                g0.gates@[c as int].pins@[p as int],
                                            ));
                                            assert(bad_wiring(g0));
                                        }
                                        return Err(GateValidationError::InvalidPinConnection);
                                    },
                                }
                                reads.push((parent_key, child_key));
                                proof {
                                    assert(pairs_view(reads@) =~= reads_of(cpins, p as int + 1));
                                }
                            },
                            PinKind::Output => {
                                match parent.kind {
                                    PinKind::Internal => {
                                        let ghost wt0 = wt@;
                                        wt.push((parent_key.clone(), c as i64));
                                        write_internals.push((parent_key, child_key));
                                        proof {
                                            assert(wt@[wt@.len() - 1].0@ == parent_key@);
                                            assert(writes_internal_at(
                                                g0,
                                                c as int,
                                                p as int,
                                                wt@[wt@.len() - 1].0@,
                                            ));
                                            assert(forall|e: int|
                                                0 <= e < wt0.len() ==> wt@[e] == wt0[e]);
                                            assert(pairs_view(write_internals@)
                                                =~= writes_internal_of(
                                                g0.pins@,
                                                cpins,
                                                p as int + 1,
                                            ));
                                        }
                                    },
                                    PinKind::Output => {
                                        write_outputs.push((parent_key, child_key));
                                        proof {
                                            assert(pairs_view(write_outputs@)
                                                =~= writes_output_of(
                                                g0.pins@,
                                                cpins,
                                                p as int + 1,
                                            ));
                                        }
                                    },
                                    PinKind::Input => {
                                        proof {
                                            assert(pin_bad(
                                                g0.pins@,
                                                g0.gates@[c as int].pins@[p as int],
                                            ));
                                            assert(bad_wiring(g0));
                                        }
                                        return Err(GateValidationError::InvalidPinConnection);
                                    },
                                }
                            },
                            PinKind::Internal => {},
                        }
                    },
                    _ => {},
                }
                proof {
                    assert(pairs_view(reads@) =~= reads_of(cpins, p as int + 1));
                    assert(pairs_view(write_internals@) =~= writes_internal_of(
                        g0.pins@,
                        cpins,
                        p as int + 1,
                    ));
                    assert(pairs_view(write_outputs@) =~= writes_output_of(
                        g0.pins@,
                        cpins,
                        p as int + 1,
                    ));
                    assert forall|cc: int, ii: int, k: PinId|
                        #[trigger] reads_internal_at(g0, cc, ii, k) && (cc < c || (cc == c && ii
                            < p + 1)) implies exists|e: int|
                        0 <= e < rd@.len() && (#[trigger] rd@[e]).0@ == k && rd@[e].1
                            == cc as i64 by {
                        if cc == c as int && ii == p as int {
                            assert(g0.gates@[cc].pins@[ii] == pv);
                            assert(pv.connection == ConnectionView::ToParent(k));
                        }
                    }
                    assert forall|cc: int, ii: int, k: PinId|
                        #[trigger] writes_internal_at(g0, cc, ii, k) && (cc < c || (cc == c && ii
                            < p + 1)) implies exists|e: int|
                        0 <= e < wt@.len() && (#[trigger] wt@[e]).0@ == k by {
                        if cc == c as int && ii == p as int {
                            assert(g0.gates@[cc].pins@[ii] == pv);
                            assert(pv.connection == ConnectionView::ToParent(k));
                        }
                    }
                }
                p = p + 1;
            }
            runs.push(
                GateRunPlan { gate_index: c as i64, reads, write_internals, write_outputs },
            );
            proof {
                assert(runs@[c as int]@ == step_of(g0, c as int));
            }
            c = c + 1;
        }
        let nrd = rd.len();
        let mut t2: usize = 0;
        while t2 < nrd
            invariant
                t2 <= nrd,
                *self == g0,
                nrd == rd@.len(),
                graph.wf(),
                graph.node_ids() == idseq,
                forall|e: int| 0 <= e < t2 ==> #[trigger] entry_edge(graph, g0, rd@[e], n as int),
                forall|a: i64, b: i64|
                    #[trigger] graph.edge(a, b) ==> exists|k: PinId|
                        writes_internal(g0, a as int, k) && reads_internal(g0, b as int, k),
            decreases nrd - t2,
        {
            let key_name_owned = rd[t2].0.clone();
            let reader = rd[t2].1;
            let writer = match find_writer(&wt, key_name_owned.name(), key_name_owned.index()) {
                Some(w) => w,
                None => {
                    proof {
                        let e0 = t2 as int;
                        assert(reads_internal(g0, rd@[e0].1 as int, rd@[e0].0@));
                        assert forall|c2: int| !writes_internal(g0, c2, rd@[e0].0@) by {
                            if writes_internal(g0, c2, rd@[e0].0@) {
                                let ii = choose|ii: int|
                                    #[trigger] writes_internal_at(g0, c2, ii, rd@[e0].0@);
                                assert(exists|e: int|
                                    0 <= e < wt@.len() && (#[trigger] wt@[e]).0@ == rd@[e0].0@);
                            }
                        }
                        assert(dangling_read(g0));
                    }
                    return Err(GateValidationError::InvalidPinConnection);
                },
            };
            proof {
                let e = choose|e: int|
                    0 <= e < wt@.len() && (#[trigger] wt@[e]).0@ == key_name_owned@ && wt@[e].1
                        == writer;
                assert(writes_internal(g0, writer as int, rd@[t2 as int].0@));
                assert(graph.node_ids().contains(writer)) by {
                    assert(idseq[writer as int] == writer);
                }
                assert(graph.node_ids().contains(reader)) by {
                    assert(idseq[reader as int] == reader);
                }
            }
            let ghost graph0 = graph;
            graph.add_edge(writer, reader);
            proof {
                assert(graph.edge(writer, reader));
                assert forall|e: int|
                    0 <= e < t2 + 1 implies #[trigger] entry_edge(graph, g0, rd@[e], n as int) by {
                    if e < t2 {
                        assert(entry_edge(graph0, g0, rd@[e], n as int));
                        let w = choose|w: i64|
                            #[trigger] graph0.edge(w, rd@[e].1) && writes_internal(
                                g0,
                                w as int,
                                rd@[e].0@,
                            ) && 0 <= w < n;
                        assert(graph.edge(w, rd@[e].1));
                    } else {
                        assert(graph.edge(writer, rd@[e].1) && writes_internal(
                            g0,
                            writer as int,
                            rd@[e].0@,
                        ) && 0 <= writer < n);
                    }
                }
                assert forall|a: i64, b: i64| #[trigger] graph.edge(a, b) implies exists|k: PinId|
                    writes_internal(g0, a as int, k) && reads_internal(g0, b as int, k) by {
                    if graph0.edge(a, b) {
                        let k = choose|k: PinId|
                            writes_internal(g0, a as int, k) && reads_internal(g0, b as int, k);
                    } else {
                        assert(a == writer && b == reader);
                        assert(writes_internal(g0, writer as int, rd@[t2 as int].0@)
                            && reads_internal(g0, reader as int, rd@[t2 as int].0@));
                    }
                }
            }
            t2 = t2 + 1;
        }
        let order = match graph.topological_sort_with_cycle_detection() {
            Ok(x) => x,
            Err(_) => {
                proof {
                    assert(!bad_wiring(g0)) by {
                        if bad_wiring(g0) {
                            let (cc, ii) = choose|cc: int, ii: int|
                                0 <= cc < g0.gates@.len() && 0 <= ii < g0.gates@[cc].pins@.len()
                                    && pin_bad(g0.pins@, #[trigger] g0.gates@[cc].pins@[ii]);
                        }
                    }
                    assert(!dangling_read(g0)) by {
                        if dangling_read(g0) {
                            let (cc, k) = choose|cc: int, k: PinId|
                                #[trigger] reads_internal(g0, cc, k) && !(exists|c2: int|
                                    writes_internal(g0, c2, k));
                            let ii = choose|ii: int| #[trigger] reads_internal_at(g0, cc, ii, k);
                            let e = choose|e: int|
                                0 <= e < rd@.len() && (#[trigger] rd@[e]).0@ == k && rd@[e].1
                                    == cc as i64;
                            assert(entry_edge(graph, g0, rd@[e], n as int));
                            let w = choose|w: i64|
                                #[trigger] graph.edge(w, rd@[e].1) && writes_internal(
                                    g0,
                                    w as int,
                                    rd@[e].0@,
                                ) && 0 <= w < n;
                        }
                    }
                }
                proof {
                    let gcyc = choose|cyc: Seq<i64>| is_cycle(&graph, cyc);
                    let cygi = Seq::new(gcyc.len(), |j: int| gcyc[j] as int);
                    let keys = Seq::new(
                        gcyc.len(),
                        |j: int|
                            choose|k: PinId|
                                writes_internal(g0, gcyc[j] as int, k) && reads_internal(
                                    g0,
                                    cycle_next(gcyc, j) as int,
                                    k,
                                ),
                    );
                    assert(wiring_cycle(g0, cygi, keys)) by {
                        assert forall|j: int|
                            0 <= j < cygi.len() implies #[trigger] writes_internal(
                            g0,
                            cygi[j],
                            keys[j],
                        ) && reads_internal(g0, cycle_after(cygi, j), keys[j]) by {
                            assert(graph.edge(gcyc[j], cycle_next(gcyc, j)));
                            assert(exists|k: PinId|
                                writes_internal(g0, gcyc[j] as int, k) && reads_internal(
                                    g0,
                                    cycle_next(gcyc, j) as int,
                                    k,
                                ));
                            assert(cycle_after(cygi, j) == cycle_next(gcyc, j) as int);
                        }
                    }
                }
                return Err(GateValidationError::CombinationalCycle);
            },
        };
        let no = order.len();
        let mut plan: Vec<GateRunPlan> = Vec::new();
        let mut s: usize = 0;
        while s < no
            invariant
                s <= no,
                *self == g0,
                no == order@.len(),
                no == n,
                runs@.len() == n,
                forall|j: int| 0 <= j < n ==> (#[trigger] runs@[j])@ == step_of(g0, j),
                forall|x: i64| order@.contains(x) ==> 0 <= x < n,
                plan@.len() == s,
                forall|j: int|
                    0 <= j < s ==> (#[trigger] plan@[j])@ == step_of(g0, order@[j] as int)
                        && plan@[j]@.gate_index == order@[j] as int,
            decreases no - s,
        {
            proof {
                assert(order@.contains(order@[s as int]));
            }
            let ci = order[s] as usize;
            plan.push(runs[ci].clone());
            s = s + 1;
        }
        self.compiled_tock_plans = Some(plan);
        proof {
            let pv = plan_views(final(self).compiled_tock_plans->Some_0@);
            assert(!bad_wiring(g0)) by {
                if bad_wiring(g0) {
                    let (cc, ii) = choose|cc: int, ii: int|
                        0 <= cc < g0.gates@.len() && 0 <= ii < g0.gates@[cc].pins@.len() && pin_bad(
                            g0.pins@,
                            #[trigger] g0.gates@[cc].pins@[ii],
                        );
                }
            }
            assert(!dangling_read(g0)) by {
                if dangling_read(g0) {
                    let (cc, k) = choose|cc: int, k: PinId|
                        #[trigger] reads_internal(g0, cc, k) && !(exists|c2: int|
                            writes_internal(g0, c2, k));
                    let ii = choose|ii: int| #[trigger] reads_internal_at(g0, cc, ii, k);
                    let e = choose|e: int|
                        0 <= e < rd@.len() && (#[trigger] rd@[e]).0@ == k && rd@[e].1 == cc as i64;
                    assert(entry_edge(graph, g0, rd@[e], n as int));
                    let w = choose|w: i64|
                        #[trigger] graph.edge(w, rd@[e].1) && writes_internal(
                            g0,
                            w as int,
                            rd@[e].0@,
                        ) && 0 <= w < n;
                }
            }
            assert(plan_complete(g0, pv)) by {
                assert(pv.len() == n);
                assert forall|st: int|
                    0 <= st < pv.len() implies 0 <= (#[trigger] pv[st]).gate_index < n && pv[st]
                    == step_of(g0, pv[st].gate_index) by {
                    assert(order@.contains(order@[st]));
                }
                assert forall|cc: int| 0 <= cc < n implies #[trigger] plan_covers(pv, cc) by {
                    assert(idseq[cc] == cc as i64);
                    assert(graph.node_ids().contains(cc as i64));
                    assert(order@.contains(cc as i64));
                    let st = choose|st: int|
                        0 <= st < order@.len() && order@[st] == cc as i64;
                    assert(pv[st].gate_index == cc);
                }
                assert forall|s1: int, s2: int|
                    0 <= s1 < pv.len() && 0 <= s2 < pv.len() && (#[trigger] pv[s1]).gate_index == (
                    #[trigger] pv[s2]).gate_index implies s1 == s2 by {
                    assert(order@[s1] == order@[s2]);
                    if s1 != s2 {
                        assert(order@[s1] != order@[s2]);
                    }
                }
            }
            assert(plan_sound(g0, pv)) by {
                assert forall|st: int, ri: int|
                    0 <= st < pv.len() && 0 <= ri < pv[st].reads.len() && pin_has_key(
                        g0.pins@,
                        (#[trigger] pv[st].reads[ri]).0,
                    ) && pin_at(g0.pins@, pv[st].reads[ri].0).kind is Internal implies
                    written_before(pv, st, pv[st].reads[ri].0) by {
                    let cc = order@[st] as int;
                    assert(order@.contains(order@[st]));
                    assert(pv[st] == step_of(g0, cc));
                    let cpins = g0.gates@[cc].pins@;
                    let pk = pv[st].reads[ri].0;
                    lemma_reads_of_elem(cpins, cpins.len() as int, ri);
                    let ii = choose|ii: int|
                        0 <= ii < cpins.len() && (#[trigger] cpins[ii]).kind is Input
                            && cpins[ii].connection == ConnectionView::ToParent(pk)
                            && reads_of(cpins, cpins.len() as int)[ri].1 == pv_key(cpins[ii]);
                    assert(reads_internal_at(g0, cc, ii, pk));
                    let e = choose|e: int|
                        0 <= e < rd@.len() && (#[trigger] rd@[e]).0@ == pk && rd@[e].1
                            == cc as i64;
                    assert(entry_edge(graph, g0, rd@[e], n as int));
                    let w = choose|w: i64|
                        #[trigger] graph.edge(w, rd@[e].1) && writes_internal(
                            g0,
                            w as int,
                            rd@[e].0@,
                        ) && 0 <= w < n;
                    assert(graph.edge(w, cc as i64));
                    assert(order@.contains(w)) by {
                        assert(idseq[w as int] == w);
                        assert(graph.node_ids().contains(w));
                    }
                    let tw = choose|tw: int| 0 <= tw < order@.len() && order@[tw] == w;
                    assert(tw < st) by {
                        if st <= tw {
                            assert(!graph.edge(order@[tw], order@[st]));
                        }
                    }
                    assert(pv[tw] == step_of(g0, w as int));
                    let wii = choose|wii: int| #[trigger] writes_internal_at(g0, w as int, wii, pk);
                    lemma_writes_internal_of_contains(
                        g0.pins@,
                        g0.gates@[w as int].pins@,
                        g0.gates@[w as int].pins@.len() as int,
                        wii,
                        pk,
                    );
                    let widx = choose|wi: int|
                        0 <= wi < writes_internal_of(
                            g0.pins@,
                            g0.gates@[w as int].pins@,
                            g0.gates@[w as int].pins@.len() as int,
                        ).len() && (#[trigger] writes_internal_of(
                            g0.pins@,
                            g0.gates@[w as int].pins@,
                            g0.gates@[w as int].pins@.len() as int,
                        )[wi]).0 == pk;
                    assert(0 <= tw < st && 0 <= widx < pv[tw].write_internals.len() && (
                    pv[tw].write_internals[widx]).0 == pk);
                }
            }
            assert(gate_wf(*final(self))) by {
                let fplan = final(self).compiled_tock_plans->Some_0@;
                let glen = final(self).gates@.len();
                assert forall|j: int|
                    0 <= j < fplan.len() implies 0 <= (#[trigger] fplan[j])@.gate_index
                        < glen by {
                    assert(pv[j].gate_index == fplan[j]@.gate_index);
                    assert(order@.contains(order@[j]));
                }
            }
        }
        Ok(())
    }
}


proof fn lemma_reads_of_contains(ps: Seq<PinView>, n: int, i: int, k: PinId)
    requires
        0 <= i < n <= ps.len(),
        ps[i].kind is Input,
        ps[i].connection == ConnectionView::ToParent(k),
    ensures
        exists|ri: int|
            0 <= ri < reads_of(ps, n).len() && (#[trigger] reads_of(ps, n)[ri]).0 == k,
    decreases n,
{
    if i < n - 1 {
        lemma_reads_of_contains(ps, n - 1, i, k);
        let ri = choose|ri: int|
            0 <= ri < reads_of(ps, n - 1).len() && (#[trigger] reads_of(ps, n - 1)[ri]).0 == k;
        assert(reads_of(ps, n)[ri] == reads_of(ps, n - 1)[ri]);
    } else {
        let r = reads_of(ps, n);
        assert(r[r.len() - 1].0 == k);
    }
}

pub proof fn lemma_writes_internal_of_elem(parent: Seq<PinView>, ps: Seq<PinView>, n: int, wi: int)
    requires
        n <= ps.len(),
        0 <= wi < writes_internal_of(parent, ps, n).len(),
    ensures
        exists|i: int|
            0 <= i < n && (#[trigger] ps[i]).kind is Output && ps[i].connection
                == ConnectionView::ToParent(writes_internal_of(parent, ps, n)[wi].0)
                && pin_has_key(parent, writes_internal_of(parent, ps, n)[wi].0) && pin_at(
                parent,
                writes_internal_of(parent, ps, n)[wi].0,
            ).kind is Internal,
    decreases n,
{
    if n > 0 {
        if wi < writes_internal_of(parent, ps, n - 1).len() {
            lemma_writes_internal_of_elem(parent, ps, n - 1, wi);
            let i = choose|i: int|
                0 <= i < n - 1 && (#[trigger] ps[i]).kind is Output && ps[i].connection
                    == ConnectionView::ToParent(writes_internal_of(parent, ps, n - 1)[wi].0)
                    && pin_has_key(parent, writes_internal_of(parent, ps, n - 1)[wi].0) && pin_at(
                    parent,
                    writes_internal_of(parent, ps, n - 1)[wi].0,
                ).kind is Internal;
            assert(writes_internal_of(parent, ps, n)[wi] == writes_internal_of(
                parent,
                ps,
                n - 1,
            )[wi]);
            assert(0 <= i < n && ps[i].kind is Output);
        } else {
            assert(ps[n - 1].kind is Output);
        }
    }
}

/// The child after position `j` on a cycle, wrapping at the end.
pub open spec fn cycle_after(cyc: Seq<int>, j: int) -> int {
    if j + 1 == cyc.len() {
        cyc[0]
    } else {
        cyc[j + 1]
    }
}

/// A combinational cycle among the children of `g`: each child on the
/// cycle is the only writer of some internal pin that the next child on
/// the cycle reads, all within one plan.
pub open spec fn children_cycle(g: Gate, cyc: Seq<int>, keys: Seq<PinId>) -> bool {
    &&& cyc.len() >= 1
    &&& keys.len() == cyc.len()
    &&& forall|j: int|
        0 <= j < cyc.len() ==> #[trigger] writes_internal(g, cyc[j], keys[j]) && (forall|c2: int|
            writes_internal(g, c2, keys[j]) ==> c2 == cyc[j]) && reads_internal(
            g,
            cycle_after(cyc, j),
            keys[j],
        )
}

/// The position of child `c` in the plan.
pub open spec fn plan_position(plan: Seq<PlanStepView>, c: int) -> int {
    choose|s: int| 0 <= s < plan.len() && (#[trigger] plan[s]).gate_index == c
}

proof fn lemma_plan_position(g: Gate, plan: Seq<PlanStepView>, c: int)
    requires
        plan_complete(g, plan),
        0 <= c < g.gates@.len(),
    ensures
        0 <= plan_position(plan, c) < plan.len(),
        plan[plan_position(plan, c)].gate_index == c,
{
    assert(plan_covers(plan, c));
}

proof fn lemma_cycle_step(g: Gate, plan: Seq<PlanStepView>, cyc: Seq<int>, keys: Seq<PinId>, j: int)
    requires
        plan_complete(g, plan),
        plan_sound(g, plan),
        children_cycle(g, cyc, keys),
        0 <= j < cyc.len(),
    ensures
        0 <= cyc[j] < g.gates@.len(),
        0 <= cycle_after(cyc, j) < g.gates@.len(),
        plan_position(plan, cyc[j]) < plan_position(plan, cycle_after(cyc, j)),
{
    let wj = cyc[j];
    let nj = cycle_after(cyc, j);
    let k = keys[j];
    assert(writes_internal(g, wj, k) && reads_internal(g, nj, k));
    let wi = choose|i: int| #[trigger] writes_internal_at(g, wj, i, k);
    let ri = choose|i: int| #[trigger] reads_internal_at(g, nj, i, k);
    lemma_plan_position(g, plan, wj);
    lemma_plan_position(g, plan, nj);
    let ps = plan_position(plan, wj);
    let pn = plan_position(plan, nj);
    assert(plan[pn] == step_of(g, nj));
    lemma_reads_of_contains(g.gates@[nj].pins@, g.gates@[nj].pins@.len() as int, ri, k);
    let rri = choose|rri: int|
        0 <= rri < reads_of(g.gates@[nj].pins@, g.gates@[nj].pins@.len() as int).len() && (
        #[trigger] reads_of(g.gates@[nj].pins@, g.gates@[nj].pins@.len() as int)[rri]).0 == k;
    assert(plan[pn].reads[rri].0 == k);
    assert(written_before(plan, pn, k));
    let (t, twi) = choose|t: int, twi: int|
        0 <= t < pn && t < plan.len() && 0 <= twi < plan[t].write_internals.len() && (
        #[trigger] plan[t].write_internals[twi]).0 == k;
    let ct = plan[t].gate_index;
    assert(plan[t] == step_of(g, ct));
    lemma_writes_internal_of_elem(
        g.pins@,
        g.gates@[ct].pins@,
        g.gates@[ct].pins@.len() as int,
        twi,
    );
    let i2 = choose|i2: int|
        0 <= i2 < g.gates@[ct].pins@.len() && (#[trigger] g.gates@[ct].pins@[i2]).kind is Output
            && g.gates@[ct].pins@[i2].connection == ConnectionView::ToParent(k) && pin_has_key(
            g.pins@,
            k,
        ) && pin_at(g.pins@, k).kind is Internal;
    assert(writes_internal_at(g, ct, i2, k));
    assert(writes_internal(g, ct, k));
    assert(ct == wj);
    assert(t == ps);
}

proof fn lemma_cycle_chain(g: Gate, plan: Seq<PlanStepView>, cyc: Seq<int>, keys: Seq<PinId>, j: int)
    requires
        plan_complete(g, plan),
        plan_sound(g, plan),
        children_cycle(g, cyc, keys),
        0 <= j < cyc.len(),
    ensures
        plan_position(plan, cyc[0]) <= plan_position(plan, cyc[j]),
    decreases j,
{
    if j > 0 {
        lemma_cycle_chain(g, plan, cyc, keys, j - 1);
        lemma_cycle_step(g, plan, cyc, keys, j - 1);
        assert(cycle_after(cyc, j - 1) == cyc[j]);
    }
}

/// Cycle rejection: a gate that holds a complete, topologically sound
/// plan has no combinational cycle among its children — so a gate whose
/// children do form such a cycle can never compile successfully, by
/// `compile`'s contract.
pub proof fn lemma_cycle_never_planned(
    g: Gate,
    plan: Seq<PlanStepView>,
    cyc: Seq<int>,
    keys: Seq<PinId>,
)
    requires
        plan_complete(g, plan),
        plan_sound(g, plan),
    ensures
        !children_cycle(g, cyc, keys),
{
    if children_cycle(g, cyc, keys) {
        let last = cyc.len() - 1;
        lemma_cycle_chain(g, plan, cyc, keys, last);
        lemma_cycle_step(g, plan, cyc, keys, last);
        assert(cycle_after(cyc, last) == cyc[0]);
    }
}

} // verus!
