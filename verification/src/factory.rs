//! A registry of gate types: names mapped to builders, so that circuits can
//! instantiate children by name.

use vstd::prelude::*;
use crate::gate::Gate;
use crate::gate::eval_gate;
use crate::gate::gate_wf;
use crate::gate::shape;
use crate::logics::build_not;
use crate::logics::build_or;
use crate::logics::gate_not;
use crate::logics::gate_or;
use crate::logics::not_output;
use crate::logics::or_output;
use crate::pins::PinId;
use crate::pins::str_eq;
use crate::primitives::build_nand;
use crate::primitives::gate_nand;
use crate::primitives::nand_output;

verus! {

/// Which builder produces a gate type.  Builders form a closed set: the
/// verifier cannot follow calls through function pointers, so dispatch
/// goes through this enum instead.
#[derive(Clone, Copy, PartialEq, Eq, Structural)]
pub enum GateBuilder {
    Nand,
    Not,
    Or,
}

/// A registration record: a gate type's name and its builder.
pub struct GateFactoryFunction {
    pub name: String,
    pub generator: GateBuilder,
}

/// The builder the registration list assigns to `nm`: the latest record
/// under that name wins.
pub open spec fn builder_lookup(s: Seq<(String, GateBuilder)>, nm: Seq<char>) -> Option<GateBuilder>
    decreases s.len(),
{
    if s.len() == 0 {
        Option::None
    } else if s.last().0@ == nm {
        Option::Some(s.last().1)
    } else {
        builder_lookup(s.drop_last(), nm)
    }
}

proof fn lemma_builder_lookup_at(s: Seq<(String, GateBuilder)>, nm: Seq<char>, i: int)
    requires
        0 <= i < s.len(),
        s[i].0@ == nm,
        forall|j: int| i < j < s.len() ==> (#[trigger] s[j]).0@ != nm,
    ensures
        builder_lookup(s, nm) == Option::Some(s[i].1),
    decreases s.len(),
{
    if i == s.len() - 1 {
        assert(s.last() == s[i]);
    } else {
        assert(s.last() == s[s.len() - 1]);
        assert(s.last().0@ != nm);
        assert(s.drop_last()[i] == s[i]);
        assert forall|j: int| i < j < s.drop_last().len() implies (#[trigger] s.drop_last()[j]).0@
            != nm by {
            assert(s.drop_last()[j] == s[j]);
        }
        lemma_builder_lookup_at(s.drop_last(), nm, i);
    }
}

proof fn lemma_builder_lookup_none(s: Seq<(String, GateBuilder)>, nm: Seq<char>)
    requires
        forall|j: int| 0 <= j < s.len() ==> (#[trigger] s[j]).0@ != nm,
    ensures
        builder_lookup(s, nm) is None,
    decreases s.len(),
{
    if s.len() > 0 {
        assert(s.last() == s[s.len() - 1]);
        assert forall|j: int| 0 <= j < s.drop_last().len() implies (#[trigger] s.drop_last()[j]).0@
            != nm by {
            assert(s.drop_last()[j] == s[j]);
        }
        lemma_builder_lookup_none(s.drop_last(), nm);
    }
}

/// A registry from gate-type names to builders.
pub struct GateFactory {
    factory_funcs: Vec<(String, GateBuilder)>,
}

impl GateFactory {
    /// The builder registered under `name`, re-registration replacing the
    /// earlier record.
    pub closed spec fn builder_of(&self, name: Seq<char>) -> Option<GateBuilder> {
        builder_lookup(self.factory_funcs@, name)
    }

    /// Whether a gate type of this name was registered.
    pub open spec fn registered(&self, name: Seq<char>) -> bool {
        self.builder_of(name) is Some
    }

    /// An empty registry.
    pub fn default() -> (r: GateFactory)
        ensures
            forall|nm: Seq<char>| #[trigger] r.builder_of(nm) is None,
    {
        GateFactory { factory_funcs: Vec::new() }
    }

    /// Records one gate type under its name; re-registering a name
    /// replaces its builder (last write wins).
    pub fn register(&mut self, func: GateFactoryFunction)
        ensures
            forall|nm: Seq<char>|
                #[trigger] final(self).builder_of(nm) == if nm == func.name@ {
                    Option::Some(func.generator)
                } else {
                    old(self).builder_of(nm)
                },
    {
        let ghost v0 = self.factory_funcs@;
        let ghost nm0 = func.name@;
        let ghost gen0 = func.generator;
        self.factory_funcs.push((func.name, func.generator));
        proof {
            assert(self.factory_funcs@.drop_last() =~= v0);
            assert forall|nm: Seq<char>|
                #[trigger] final(self).builder_of(nm) == (if nm == nm0 {
                    Option::Some(gen0)
                } else {
                    old(self).builder_of(nm)
                }) by {
                assert(self.factory_funcs@.last().0@ == nm0);
            }
        }
    }

    /// Builds a fresh gate of the named type: the registered builder's
    /// product, carrying that type's name and behaviour.  Nothing comes
    /// back exactly when the name was never registered.
    pub fn build(&self, name: &str) -> (r: Option<Gate>)
        ensures
            r is Some <==> self.registered(name@),
            r matches Some(g) ==> gate_wf(g) && match self.builder_of(name@) {
                Option::Some(GateBuilder::Nand) => g.name@ == "nand"@ && forall|
                    v: Map<PinId, bool>,
                | #[trigger] eval_gate(shape(g), v) == nand_output(v),
                Option::Some(GateBuilder::Not) => g.name@ == "not"@ && forall|v: Map<PinId, bool>|
                    #[trigger] eval_gate(shape(g), v) == not_output(v),
                Option::Some(GateBuilder::Or) => g.name@ == "or"@ && forall|v: Map<PinId, bool>|
                    #[trigger] eval_gate(shape(g), v) == or_output(v),
                Option::None => false,
            },
    {
        let n = self.factory_funcs.len();
        let mut i: usize = n;
        while i > 0
            invariant
                i <= n,
                n == self.factory_funcs@.len(),
                forall|j: int| i <= j < n ==> (#[trigger] self.factory_funcs@[j]).0@ != name@,
            decreases i,
        {
            i = i - 1;
            let entry = &self.factory_funcs[i];
            if str_eq(entry.0.as_str(), name) {
                proof {
                    lemma_builder_lookup_at(self.factory_funcs@, name@, i as int);
                }
                return match entry.1 {
                    GateBuilder::Nand => build_nand(),
                    GateBuilder::Not => build_not(),
                    GateBuilder::Or => build_or(),
                };
            }
        }
        proof {
            lemma_builder_lookup_none(self.factory_funcs@, name@);
        }
        None
    }

    /// The standard registry: the primitive `nand` and the composites
    /// `not` and `or` built from it.
    pub fn new() -> (r: GateFactory)
        ensures
            r.builder_of("nand"@) == Option::Some(GateBuilder::Nand),
            r.builder_of("not"@) == Option::Some(GateBuilder::Not),
            r.builder_of("or"@) == Option::Some(GateBuilder::Or),
            forall|nm: Seq<char>|
                nm != "nand"@ && nm != "not"@ && nm != "or"@ ==> #[trigger] r.builder_of(
                    nm,
                ) is None,
    {
        let mut out = GateFactory::default();
        out.register(gate_not());
        out.register(gate_nand());
        out.register(gate_or());
        proof {
            assert("nand"@ != "not"@ && "nand"@ != "or"@ && "not"@ != "or"@) by {
                reveal_strlit("nand");
                reveal_strlit("not");
                reveal_strlit("or");
                assert("nand"@.len() == 4 && "not"@.len() == 3 && "or"@.len() == 2);
            }
        }
        out
    }
}

} // verus!
