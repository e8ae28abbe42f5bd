//! Pin identity and value storage: keys, descriptors and sparse boolean
//! value sets, the data model every other module builds on.

use vstd::prelude::*;

verus! {

/// Mathematical identity of a pin: a name together with a bit index.
pub ghost struct PinId {
    pub name: Seq<char>,
    pub index: int,
}

/// Executable identity of a pin, `(name, index)`.
pub struct PinKey {
    name: String,
    index: i64,
}

impl View for PinKey {
    type V = PinId;

    closed spec fn view(&self) -> PinId {
        PinId { name: self.name@, index: self.index as int }
    }
}

impl PinKey {
    pub fn new(name: &str, index: i64) -> (r: PinKey)
        ensures
            r@ == (PinId { name: name@, index: index as int }),
    {
        PinKey { name: name.to_owned(), index }
    }

    pub fn name(&self) -> (r: &str)
        ensures
            r@ == self@.name,
    {
        self.name.as_str()
    }

    pub fn index(&self) -> (r: i64)
        ensures
            r as int == self@.index,
    {
        self.index
    }
}

impl Clone for PinKey {
    fn clone(&self) -> (r: Self)
        ensures
            r@ == self@,
    {
        PinKey { name: self.name.clone(), index: self.index }
    }
}

/// Compares two string slices character by character.
pub fn str_eq(a: &str, b: &str) -> (r: bool)
    ensures
        r == (a@ == b@),
{
    let la: usize = a.unicode_len();
    let lb: usize = b.unicode_len();
    if la != lb {
        return false;
    }
    let mut i: usize = 0;
    while i < la
        invariant
            i <= la,
            la == a@.len(),
            la == b@.len(),
            forall|j: int| 0 <= j < i ==> a@[j] == b@[j],
        decreases la - i,
    {
        if a.get_char(i) != b.get_char(i) {
            return false;
        }
        i = i + 1;
    }
    proof {
        assert(a@ =~= b@);
    }
    true
}

/// Whether some entry of `s` carries the key `k`.
pub open spec fn has_key(s: Seq<(PinKey, bool)>, k: PinId) -> bool {
    exists|i: int| 0 <= i < s.len() && (#[trigger] s[i]).0@ == k
}

/// The value stored beside the key `k` (meaningful only when the keys of
/// `s` are distinct and `k` occurs).
pub open spec fn val_of(s: Seq<(PinKey, bool)>, k: PinId) -> bool {
    s[choose|i: int| 0 <= i < s.len() && (#[trigger] s[i]).0@ == k].1
}

/// The mapping an entry sequence denotes.
pub open spec fn map_of(s: Seq<(PinKey, bool)>) -> Map<PinId, bool> {
    Map::new(|k: PinId| has_key(s, k), |k: PinId| val_of(s, k))
}

/// No two entries of `s` carry the same key.
pub open spec fn unique_keys(s: Seq<(PinKey, bool)>) -> bool {
    forall|i: int, j: int|
        0 <= i < s.len() && 0 <= j < s.len() && (#[trigger] s[i]).0@ == (#[trigger] s[j]).0@ ==> i
            == j
}

proof fn lemma_val_of_at(s: Seq<(PinKey, bool)>, k: PinId, i: int)
    requires
        unique_keys(s),
        0 <= i < s.len(),
        s[i].0@ == k,
    ensures
        val_of(s, k) == s[i].1,
{
    let j = choose|j: int| 0 <= j < s.len() && (#[trigger] s[j]).0@ == k;
    assert(0 <= j < s.len() && s[j].0@ == k);
    assert(j == i);
}

proof fn lemma_map_of_push(s: Seq<(PinKey, bool)>, key: PinKey, v: bool)
    requires
        unique_keys(s),
        !has_key(s, key@),
    ensures
        unique_keys(s.push((key, v))),
        map_of(s.push((key, v))) == map_of(s).insert(key@, v),
{
    let t = s.push((key, v));
    assert forall|i: int, j: int|
        0 <= i < t.len() && 0 <= j < t.len() && (#[trigger] t[i]).0@ == (#[trigger] t[j]).0@
        implies i == j by {
        if i < s.len() && j < s.len() {
            assert(s[i] == t[i] && s[j] == t[j]);
        } else if i < s.len() && j == s.len() {
            assert(s[i].0@ == key@);
        } else if j < s.len() && i == s.len() {
            assert(s[j].0@ == key@);
        }
    }
    assert forall|k: PinId| #[trigger] map_of(t).contains_key(k) <==> map_of(s).insert(
        key@,
        v,
    ).contains_key(k) by {
        if k == key@ {
            assert(t[s.len() as int].0@ == k);
        } else {
            if has_key(t, k) {
                let i = choose|i: int| 0 <= i < t.len() && (#[trigger] t[i]).0@ == k;
                assert(i < s.len() && s[i] == t[i]);
            }
            if has_key(s, k) {
                let i = choose|i: int| 0 <= i < s.len() && (#[trigger] s[i]).0@ == k;
                assert(t[i] == s[i]);
            }
        }
    }
    assert forall|k: PinId| map_of(t).contains_key(k) implies #[trigger] map_of(t)[k] == map_of(
        s,
    ).insert(key@, v)[k] by {
        if k == key@ {
            lemma_val_of_at(t, k, s.len() as int);
        } else {
            let i = choose|i: int| 0 <= i < t.len() && (#[trigger] t[i]).0@ == k;
            assert(i < s.len() && t[i] == s[i]);
            lemma_val_of_at(t, k, i);
            lemma_val_of_at(s, k, i);
        }
    }
    assert(map_of(t) =~= map_of(s).insert(key@, v));
}

proof fn lemma_map_of_remove(s: Seq<(PinKey, bool)>, p: int)
    requires
        unique_keys(s),
        0 <= p < s.len(),
    ensures
        unique_keys(s.remove(p)),
        map_of(s.remove(p)) == map_of(s).remove(s[p].0@),
{
    let t = s.remove(p);
    let sk = s[p].0@;
    assert forall|i: int, j: int|
        0 <= i < t.len() && 0 <= j < t.len() && (#[trigger] t[i]).0@ == (#[trigger] t[j]).0@
        implies i == j by {
        let i0: int = if i < p { i } else { i + 1 };
        let j0: int = if j < p { j } else { j + 1 };
        assert(t[i] == s[i0] && t[j] == s[j0]);
    }
    assert forall|k: PinId| #[trigger] map_of(t).contains_key(k) <==> map_of(s).remove(
        sk,
    ).contains_key(k) by {
        if has_key(t, k) {
            let i = choose|i: int| 0 <= i < t.len() && (#[trigger] t[i]).0@ == k;
            let i0: int = if i < p { i } else { i + 1 };
            assert(s[i0] == t[i]);
            assert(has_key(s, k));
            if k == sk {
                assert(s[i0].0@ == s[p].0@);
            }
        }
        if has_key(s, k) && k != sk {
            let i = choose|i: int| 0 <= i < s.len() && (#[trigger] s[i]).0@ == k;
            assert(i != p);
            let i1: int = if i < p { i } else { i - 1 };
            assert(t[i1] == s[i]);
            assert(has_key(t, k));
        }
    }
    assert forall|k: PinId| map_of(t).contains_key(k) implies #[trigger] map_of(t)[k] == map_of(
        s,
    ).remove(sk)[k] by {
        let i = choose|i: int| 0 <= i < t.len() && (#[trigger] t[i]).0@ == k;
        let i0: int = if i < p { i } else { i + 1 };
        assert(s[i0] == t[i]);
        lemma_val_of_at(t, k, i);
        lemma_val_of_at(s, k, i0);
    }
    assert(map_of(t) =~= map_of(s).remove(sk));
}

/// The role a pin plays in its gate's contract.  Input and Output pins are
/// a gate's external interface; Internal pins only carry values between
/// a gate's children and are invisible to its own parent.
#[derive(Clone, Copy, PartialEq, Eq, Structural)]
pub enum PinKind {
    Input,
    Internal,
    Output,
}

/// The single counterpart a pin may be wired to, on the other side of the
/// ownership boundary: a child's pin points to a pin of its parent, and the
/// parent's pin back to a pin of one of its children.
pub enum Connection {
    Unconnected,
    ToParent(String, i64),
    ToChild(String, i64),
}

/// Mathematical image of a `Connection`.
pub ghost enum ConnectionView {
    Unconnected,
    ToParent(PinId),
    ToChild(PinId),
}

impl View for Connection {
    type V = ConnectionView;

    open spec fn view(&self) -> ConnectionView {
        match self {
            Connection::Unconnected => ConnectionView::Unconnected,
            Connection::ToParent(n, i) => ConnectionView::ToParent(
                PinId { name: n@, index: *i as int },
            ),
            Connection::ToChild(n, i) => ConnectionView::ToChild(
                PinId { name: n@, index: *i as int },
            ),
        }
    }
}

/// Mathematical image of a `Pin`.
pub ghost struct PinView {
    pub name: Seq<char>,
    pub index: int,
    pub size: int,
    pub kind: PinKind,
    pub clocked: bool,
    pub connection: ConnectionView,
}

/// One declared bit slot of a named pin group: its identity, the declared
/// width of the whole group, its kind, and at most one connection.
pub struct Pin {
    pub name: String,
    pub index: i64,
    pub size: i64,
    pub kind: PinKind,
    pub clocked: bool,
    pub connection: Connection,
}

impl View for Pin {
    type V = PinView;

    open spec fn view(&self) -> PinView {
        PinView {
            name: self.name@,
            index: self.index as int,
            size: self.size as int,
            kind: self.kind,
            clocked: self.clocked,
            connection: self.connection@,
        }
    }
}

/// The identity of a pin descriptor.
pub open spec fn pv_key(p: PinView) -> PinId {
    PinId { name: p.name, index: p.index }
}

/// Whether some descriptor of `s` has the identity `k`.
pub open spec fn pin_has_key(s: Seq<PinView>, k: PinId) -> bool {
    exists|i: int| 0 <= i < s.len() && pv_key(#[trigger] s[i]) == k
}

/// The position of the descriptor with identity `k` (meaningful only when
/// present and unique).
pub open spec fn pin_index_of(s: Seq<PinView>, k: PinId) -> int {
    choose|i: int| 0 <= i < s.len() && pv_key(#[trigger] s[i]) == k
}

/// The descriptor with identity `k`.
pub open spec fn pin_at(s: Seq<PinView>, k: PinId) -> PinView {
    s[pin_index_of(s, k)]
}

/// No two descriptors of `s` share an identity.
pub open spec fn unique_pins(s: Seq<PinView>) -> bool {
    forall|i: int, j: int|
        0 <= i < s.len() && 0 <= j < s.len() && pv_key(#[trigger] s[i]) == pv_key(
            #[trigger] s[j],
        ) ==> i == j
}

/// A gate's declared pins, keyed by `(name, index)`.
pub struct PinMap {
    entries: Vec<Pin>,
}

impl View for PinMap {
    type V = Seq<PinView>;

    closed spec fn view(&self) -> Seq<PinView> {
        Seq::new(self.entries@.len(), |i: int| self.entries@[i]@)
    }
}

impl PinMap {
    /// One descriptor per pin identity.
    pub open spec fn wf(&self) -> bool {
        unique_pins(self@)
    }

    pub(crate) fn new() -> (r: Self)
        ensures
            r.wf(),
            r@ == Seq::<PinView>::empty(),
    {
        let r = PinMap { entries: Vec::new() };
        proof {
            assert(r@ =~= Seq::<PinView>::empty());
        }
        r
    }

    pub(crate) fn len(&self) -> (r: usize)
        ensures
            r == self@.len(),
    {
        self.entries.len()
    }

    pub(crate) fn at(&self, i: usize) -> (r: &Pin)
        requires
            i < self@.len(),
        ensures
            r@ == self@[i as int],
    {
        &self.entries[i]
    }

    fn position_of(&self, name: &str, index: i64) -> (r: Option<usize>)
        ensures
            match r {
                Some(p) => p < self@.len() && pv_key(self@[p as int]) == (PinId {
                    name: name@,
                    index: index as int,
                }),
                None => !pin_has_key(self@, PinId { name: name@, index: index as int }),
            },
    {
        let ghost k = PinId { name: name@, index: index as int };
        let n = self.entries.len();
        let mut i: usize = 0;
        while i < n
            invariant
                i <= n,
                n == self@.len(),
                n == self.entries@.len(),
                k == (PinId { name: name@, index: index as int }),
                forall|j: int| 0 <= j < i ==> pv_key(#[trigger] self@[j]) != k,
            decreases n - i,
        {
            let e = &self.entries[i];
            proof {
                assert(e@ == self@[i as int]);
            }
            if e.index == index && str_eq(e.name.as_str(), name) {
                return Some(i);
            }
            i = i + 1;
        }
        None
    }

    /// Looks a pin up by identity.
    pub(crate) fn get(&self, name: &str, index: i64) -> (r: Option<&Pin>)
        ensures
            match r {
                Some(p) => pin_has_key(self@, PinId { name: name@, index: index as int })
                    && pv_key(p@) == (PinId { name: name@, index: index as int }) && (self.wf()
                    ==> p@ == pin_at(self@, PinId { name: name@, index: index as int })),
                None => !pin_has_key(self@, PinId { name: name@, index: index as int }),
            },
    {
        let ghost k = PinId { name: name@, index: index as int };
        match self.position_of(name, index) {
            Some(p) => {
                proof {
                    if self.wf() {
                        let j = pin_index_of(self@, k);
                        assert(0 <= j < self@.len() && pv_key(self@[j]) == k);
                        assert(j == p as int);
                    }
                }
                Some(&self.entries[p])
            },
            None => None,
        }
    }

    /// Declares (or redeclares) one slot: last write wins per identity.
    pub(crate) fn insert(&mut self, kind: PinKind, name: &str, size: i64, index: i64)
        requires
            old(self).wf(),
        ensures
            final(self).wf(),
            ({
                let pv = PinView {
                    name: name@,
                    index: index as int,
                    size: size as int,
                    kind: kind,
                    clocked: false,
                    connection: ConnectionView::Unconnected,
                };
                let k = PinId { name: name@, index: index as int };
                if pin_has_key(old(self)@, k) {
                    final(self)@ == old(self)@.update(pin_index_of(old(self)@, k), pv)
                } else {
                    final(self)@ == old(self)@.push(pv)
                }
            }),
    {
        let ghost k = PinId { name: name@, index: index as int };
        let ghost v0 = self@;
        let pin = Pin {
            name: name.to_owned(),
            index,
            size,
            kind,
            clocked: false,
            connection: Connection::Unconnected,
        };
        match self.position_of(name, index) {
            Some(p) => {
                let _ = self.entries.remove(p);
                self.entries.insert(p, pin);
                proof {
                    let j = pin_index_of(v0, k);
                    assert(0 <= j < v0.len() && pv_key(v0[j]) == k);
                    assert(j == p as int);
                    assert(final(self)@ =~= v0.update(p as int, pin@));
                    assert forall|i: int, jj: int|
                        0 <= i < final(self)@.len() && 0 <= jj < final(self)@.len() && pv_key(
                            #[trigger] final(self)@[i],
                        ) == pv_key(#[trigger] final(self)@[jj]) implies i == jj by {
                        assert(pv_key(final(self)@[i]) == pv_key(v0[i]));
                        assert(pv_key(final(self)@[jj]) == pv_key(v0[jj]));
                    }
                }
            },
            None => {
                self.entries.push(pin);
                proof {
                    assert(final(self)@ =~= v0.push(pin@));
                    assert forall|i: int, jj: int|
                        0 <= i < final(self)@.len() && 0 <= jj < final(self)@.len() && pv_key(
                            #[trigger] final(self)@[i],
                        ) == pv_key(#[trigger] final(self)@[jj]) implies i == jj by {
                        if i < v0.len() && jj < v0.len() {
                            assert(pv_key(final(self)@[i]) == pv_key(v0[i]));
                            assert(pv_key(final(self)@[jj]) == pv_key(v0[jj]));
                        } else if i < v0.len() && jj == v0.len() {
                            assert(pv_key(v0[i]) == k);
                        } else if jj < v0.len() && i == v0.len() {
                            assert(pv_key(v0[jj]) == k);
                        }
                    }
                }
            },
        }
    }

    /// Records the one connection of a declared pin; answers whether the
    /// pin exists (nothing changes when it does not).
    pub(crate) fn set_connection(&mut self, name: &str, index: i64, connection: Connection) -> (r:
        bool)
        requires
            old(self).wf(),
        ensures
            final(self).wf(),
            ({
                let k = PinId { name: name@, index: index as int };
                if pin_has_key(old(self)@, k) {
                    let j = pin_index_of(old(self)@, k);
                    r == true && final(self)@ == old(self)@.update(
                        j,
                        PinView { connection: connection@, ..old(self)@[j] },
                    )
                } else {
                    r == false && final(self)@ == old(self)@
                }
            }),
    {
        let ghost k = PinId { name: name@, index: index as int };
        let ghost v0 = self@;
        match self.position_of(name, index) {
            Some(p) => {
                let mut pin = self.entries.remove(p);
                pin.connection = connection;
                self.entries.insert(p, pin);
                proof {
                    let j = pin_index_of(v0, k);
                    assert(0 <= j < v0.len() && pv_key(v0[j]) == k);
                    assert(j == p as int);
                    assert(final(self)@ =~= v0.update(
                        p as int,
                        PinView { connection: connection@, ..v0[p as int] },
                    ));
                    assert forall|i: int, jj: int|
                        0 <= i < final(self)@.len() && 0 <= jj < final(self)@.len() && pv_key(
                            #[trigger] final(self)@[i],
                        ) == pv_key(#[trigger] final(self)@[jj]) implies i == jj by {
                        assert(pv_key(final(self)@[i]) == pv_key(v0[i]));
                        assert(pv_key(final(self)@[jj]) == pv_key(v0[jj]));
                    }
                }
                true
            },
            None => false,
        }
    }
}

/// A sparse mapping from pin identity to a boolean value.
pub struct PinValues {
    entries: Vec<(PinKey, bool)>,
}

impl View for PinValues {
    type V = Map<PinId, bool>;

    closed spec fn view(&self) -> Map<PinId, bool> {
        map_of(self.entries@)
    }
}

impl Clone for PinValues {
    fn clone(&self) -> (r: Self)
        ensures
            self.wf() ==> r.wf() && r@ == self@,
    {
        let n = self.entries.len();
        let mut out: Vec<(PinKey, bool)> = Vec::new();
        let mut i: usize = 0;
        while i < n
            invariant
                i <= n,
                n == self.entries@.len(),
                out@.len() == i,
                forall|j: int|
                    0 <= j < i ==> (#[trigger] out@[j]).0@ == self.entries@[j].0@ && out@[j].1
                        == self.entries@[j].1,
            decreases n - i,
        {
            let e = &self.entries[i];
            out.push((e.0.clone(), e.1));
            i = i + 1;
        }
        let r = PinValues { entries: out };
        proof {
            if self.wf() {
                assert forall|k: PinId| #[trigger] map_of(r.entries@).contains_key(k) <==> map_of(
                    self.entries@,
                ).contains_key(k) by {
                    if has_key(r.entries@, k) {
                        let j = choose|j: int|
                            0 <= j < r.entries@.len() && (#[trigger] r.entries@[j]).0@ == k;
                        assert(self.entries@[j].0@ == k);
                    }
                    if has_key(self.entries@, k) {
                        let j = choose|j: int|
                            0 <= j < self.entries@.len() && (#[trigger] self.entries@[j]).0@ == k;
                        assert(r.entries@[j].0@ == k);
                    }
                }
                assert forall|k: PinId| map_of(r.entries@).contains_key(k) implies #[trigger] map_of(
                    r.entries@,
                )[k] == map_of(self.entries@)[k] by {
                    let j = choose|j: int|
                        0 <= j < r.entries@.len() && (#[trigger] r.entries@[j]).0@ == k;
                    lemma_val_of_at(r.entries@, k, j);
                    lemma_val_of_at(self.entries@, k, j);
                }
                assert(r@ =~= self@);
            }
        }
        r
    }
}

impl PinValues {
    /// The internal representation keeps one entry per pin identity.
    pub closed spec fn wf(&self) -> bool {
        unique_keys(self.entries@)
    }

    pub fn new() -> (r: Self)
        ensures
            r.wf(),
            r@ == Map::<PinId, bool>::empty(),
    {
        let r = PinValues { entries: Vec::new() };
        proof {
            assert(r@ =~= Map::<PinId, bool>::empty());
        }
        r
    }

    fn position_of(&self, name: &str, index: i64) -> (r: Option<usize>)
        ensures
            match r {
                Some(p) => p < self.entries@.len() && self.entries@[p as int].0@ == (PinId {
                    name: name@,
                    index: index as int,
                }),
                None => !has_key(self.entries@, PinId { name: name@, index: index as int }),
            },
    {
        let ghost k = PinId { name: name@, index: index as int };
        let n = self.entries.len();
        let mut i: usize = 0;
        while i < n
            invariant
                i <= n,
                n == self.entries@.len(),
                k == (PinId { name: name@, index: index as int }),
                forall|j: int| 0 <= j < i ==> (#[trigger] self.entries@[j]).0@ != k,
            decreases n - i,
        {
            let e = &self.entries[i];
            if e.0.index() == index && str_eq(e.0.name(), name) {
                return Some(i);
            }
            i = i + 1;
        }
        None
    }

    /// Whether a value is recorded for `(name, index)`.
    pub fn exists_value(&self, name: &str, index: i64) -> (r: bool)
        ensures
            r == self@.contains_key(PinId { name: name@, index: index as int }),
    {
        self.position_of(name, index).is_some()
    }

    /// Reads the value recorded for `(name, index)`.  Reading an unset key
    /// is a programming error: the plan an executor walks guarantees every
    /// key it reads was written first.
    pub fn get(&self, name: &str, index: i64) -> (r: bool)
        requires
            self.wf(),
            self@.contains_key(PinId { name: name@, index: index as int }),
        ensures
            r == self@[PinId { name: name@, index: index as int }],
    {
        let ghost k = PinId { name: name@, index: index as int };
        match self.position_of(name, index) {
            Some(p) => {
                proof {
                    lemma_val_of_at(self.entries@, k, p as int);
                }
                self.entries[p].1
            },
            None => false,
        }
    }

    /// Records `value` for `(name, index)`, replacing any earlier value.
    pub fn set(&mut self, name: &str, index: i64, value: bool) -> (r: ())
        requires
            old(self).wf(),
        ensures
            final(self).wf(),
            final(self)@ == old(self)@.insert(
                PinId { name: name@, index: index as int },
                value,
            ),
    {
        let ghost k = PinId { name: name@, index: index as int };
        let ghost s0 = self.entries@;
        match self.position_of(name, index) {
            Some(p) => {
                proof {
                    lemma_map_of_remove(s0, p as int);
                }
                let _ = self.entries.remove(p);
            },
            None => {},
        }
        let ghost s1 = self.entries@;
        let key = PinKey::new(name, index);
        proof {
            assert(!has_key(s1, k));
            lemma_map_of_push(s1, key, value);
            assert(map_of(s1.push((key, value))) =~= map_of(s0).insert(k, value));
        }
        self.entries.push((key, value));
    }

    /// Reads the value recorded for `(name, index)`, or false when the key
    /// was never written.
    pub fn get_or_false(&self, name: &str, index: i64) -> (r: bool)
        requires
            self.wf(),
        ensures
            r == value_or_false(self@, PinId { name: name@, index: index as int }),
    {
        let ghost k = PinId { name: name@, index: index as int };
        match self.position_of(name, index) {
            Some(p) => {
                proof {
                    lemma_val_of_at(self.entries@, k, p as int);
                }
                self.entries[p].1
            },
            None => false,
        }
    }

    /// Bulk-loads the pin group `name` from a literal bit string: the
    /// character at position `i` sets index `i`, `'0'` meaning false and
    /// any other character true.
    pub fn set_binary(&mut self, name: &str, value: &str)
        requires
            old(self).wf(),
            value@.len() <= 0x7fff_ffff_ffff_ffff,
        ensures
            final(self).wf(),
            final(self)@ == loaded_group(old(self)@, name@, value@, value@.len() as int),
    {
        let n: usize = value.unicode_len();
        let mut i: usize = 0;
        while i < n
            invariant
                i <= n,
                n == value@.len(),
                n <= 0x7fff_ffff_ffff_ffff,
                self.wf(),
                self@ == loaded_group(old(self)@, name@, value@, i as int),
            decreases n - i,
        {
            let c = value.get_char(i);
            self.set(name, i as i64, c != '0');
            i = i + 1;
        }
    }
}

/// The value under `k`, or false where `m` leaves it unset.
pub open spec fn value_or_false(m: Map<PinId, bool>, k: PinId) -> bool {
    if m.contains_key(k) {
        m[k]
    } else {
        false
    }
}

/// The value set `m` after loading the first `k` characters of `bits` into
/// the pin group `name`, one index per character.
pub open spec fn loaded_group(
    m: Map<PinId, bool>,
    name: Seq<char>,
    bits: Seq<char>,
    k: int,
) -> Map<PinId, bool>
    decreases k,
{
    if k <= 0 {
        m
    } else {
        loaded_group(m, name, bits, k - 1).insert(
            PinId { name: name, index: k - 1 },
            bits[k - 1] != '0',
        )
    }
}

/// Loading a bit string touches exactly the keys `(name, 0)` through
/// `(name, len - 1)`: each of those reads back as its character, and every
/// other key keeps the value it had.
pub proof fn lemma_loaded_group_at(
    m: Map<PinId, bool>,
    name: Seq<char>,
    bits: Seq<char>,
    k: int,
    p: PinId,
)
    requires
        0 <= k <= bits.len(),
    ensures
        p.name == name && 0 <= p.index < k ==> loaded_group(m, name, bits, k).contains_key(p)
            && loaded_group(m, name, bits, k)[p] == (bits[p.index] != '0'),
        !(p.name == name && 0 <= p.index < k) ==> loaded_group(m, name, bits, k).contains_key(p)
            == m.contains_key(p) && (m.contains_key(p) ==> loaded_group(m, name, bits, k)[p]
            == m[p]),
    decreases k,
{
    if k > 0 {
        lemma_loaded_group_at(m, name, bits, k - 1, p);
    }
}


/// Strict lexicographic order on character sequences.
pub open spec fn seq_char_lt(a: Seq<char>, b: Seq<char>) -> bool
    decreases a.len(),
{
    if b.len() == 0 {
        false
    } else if a.len() == 0 {
        true
    } else if a[0] != b[0] {
        a[0] < b[0]
    } else {
        seq_char_lt(a.skip(1), b.skip(1))
    }
}

/// The order is total: two distinct sequences compare one way or the other.
pub proof fn lemma_seq_char_lt_total(a: Seq<char>, b: Seq<char>)
    requires
        a != b,
    ensures
        seq_char_lt(a, b) || seq_char_lt(b, a),
    decreases a.len(),
{
    if b.len() == 0 && a.len() == 0 {
        assert(a =~= b);
    } else if b.len() == 0 || a.len() == 0 {
    } else if a[0] != b[0] {
    } else {
        assert(a.skip(1) != b.skip(1)) by {
            if a.skip(1) == b.skip(1) {
                assert(a.skip(1).len() == b.skip(1).len());
                assert(a.skip(1).len() == a.len() - 1);
                assert(b.skip(1).len() == b.len() - 1);
                assert(a.len() == b.len());
                assert forall|i: int| 0 <= i < a.len() implies a[i] == b[i] by {
                    if i > 0 {
                        assert(a.skip(1)[i - 1] == a[i]);
                        assert(b.skip(1)[i - 1] == b[i]);
                    }
                }
                assert(a =~= b);
            }
        }
        lemma_seq_char_lt_total(a.skip(1), b.skip(1));
    }
}

/// The order rules out equality.
pub proof fn lemma_seq_char_lt_irreflexive(a: Seq<char>, b: Seq<char>)
    requires
        seq_char_lt(a, b),
    ensures
        a != b,
    decreases a.len(),
{
    if b.len() == 0 {
    } else if a.len() == 0 {
    } else if a[0] != b[0] {
    } else {
        lemma_seq_char_lt_irreflexive(a.skip(1), b.skip(1));
    }
}

/// The order is transitive.
pub proof fn lemma_seq_char_lt_trans(a: Seq<char>, b: Seq<char>, c: Seq<char>)
    requires
        seq_char_lt(a, b),
        seq_char_lt(b, c),
    ensures
        seq_char_lt(a, c),
    decreases a.len() + b.len() + c.len(),
{
    if c.len() == 0 {
    } else if b.len() == 0 {
    } else if a.len() == 0 {
    } else if a[0] == b[0] && b[0] == c[0] {
        lemma_seq_char_lt_trans(a.skip(1), b.skip(1), c.skip(1));
    }
}

/// Compares two string slices lexicographically, character by character.
pub fn str_lt(a: &str, b: &str) -> (r: bool)
    ensures
        r == seq_char_lt(a@, b@),
{
    let la: usize = a.unicode_len();
    let lb: usize = b.unicode_len();
    let mut i: usize = 0;
    proof {
        assert(a@.skip(0) =~= a@);
        assert(b@.skip(0) =~= b@);
    }
    loop
        invariant
            i <= la,
            i <= lb,
            la == a@.len(),
            lb == b@.len(),
            seq_char_lt(a@, b@) == seq_char_lt(a@.skip(i as int), b@.skip(i as int)),
        decreases la - i,
    {
        if i >= lb {
            proof {
                assert(b@.skip(i as int).len() == 0);
            }
            return false;
        }
        if i >= la {
            proof {
                assert(a@.skip(i as int).len() == 0 && b@.skip(i as int).len() > 0);
            }
            return true;
        }
        let ca = a.get_char(i);
        let cb = b.get_char(i);
        proof {
            assert(a@.skip(i as int)[0] == ca && b@.skip(i as int)[0] == cb);
        }
        if ca != cb {
            return ca < cb;
        }
        proof {
            assert(a@.skip(i as int).skip(1) =~= a@.skip(i as int + 1));
            assert(b@.skip(i as int).skip(1) =~= b@.skip(i as int + 1));
        }
        i = i + 1;
    }
}

proof fn lemma_group_prefix_bound(s: Seq<(PinKey, bool)>, name: Seq<char>, w: int)
    requires
        unique_keys(s),
        w >= 0,
        forall|i: int| 0 <= i < w ==> has_key(s, PinId { name: name, index: i }),
    ensures
        w <= s.len(),
    decreases w,
{
    if w > 0 {
        assert(has_key(s, PinId { name: name, index: w - 1 }));
        let p = choose|p: int|
            0 <= p < s.len() && (#[trigger] s[p]).0@ == (PinId { name: name, index: w - 1 });
        lemma_map_of_remove(s, p);
        let t = s.remove(p);
        assert forall|i: int| 0 <= i < w - 1 implies has_key(
            t,
            PinId { name: name, index: i },
        ) by {
            assert(has_key(s, PinId { name: name, index: i }));
            let q = choose|q: int|
                0 <= q < s.len() && (#[trigger] s[q]).0@ == (PinId { name: name, index: i });
            assert(q != p);
            let q1: int = if q < p { q } else { q - 1 };
            assert(t[q1] == s[q]);
        }
        lemma_group_prefix_bound(t, name, w - 1);
    }
}


/// Strictly ascending name order.
pub open spec fn names_sorted(names: Seq<Seq<char>>) -> bool {
    forall|i: int, j: int|
        0 <= i < j < names.len() ==> seq_char_lt(#[trigger] names[i], #[trigger] names[j])
}

/// Some value is recorded under the name `nm`.
pub open spec fn name_used(m: Map<PinId, bool>, nm: Seq<char>) -> bool {
    exists|idx: int| #[trigger] m.contains_key(PinId { name: nm, index: idx })
}

/// `names` lists exactly the distinct names of `m`'s keys.
pub open spec fn names_cover(m: Map<PinId, bool>, names: Seq<Seq<char>>) -> bool {
    &&& (forall|p: PinId| #[trigger] m.contains_key(p) ==> names.contains(p.name))
    &&& (forall|j: int| 0 <= j < names.len() ==> name_used(m, #[trigger] names[j]))
}

/// `w` is the width of the group `nm`: indices `0..w` are set and, as far
/// as a machine index reaches, index `w` is not.
pub open spec fn group_width(m: Map<PinId, bool>, nm: Seq<char>, w: int) -> bool {
    &&& w >= 0
    &&& (forall|i: int| 0 <= i < w ==> #[trigger] m.contains_key(PinId { name: nm, index: i }))
    &&& (w <= 0x7fff_ffff_ffff_ffff ==> !m.contains_key(PinId { name: nm, index: w }))
}

/// Each width marks its group's first unset index.
pub open spec fn widths_match(m: Map<PinId, bool>, names: Seq<Seq<char>>, widths: Seq<int>) -> bool {
    &&& widths.len() == names.len()
    &&& (forall|j: int| 0 <= j < names.len() ==> group_width(m, #[trigger] names[j], widths[j]))
}

/// The bit characters of the group `nm` at indices `0..w`.
pub open spec fn group_text(m: Map<PinId, bool>, nm: Seq<char>, w: int) -> Seq<char> {
    Seq::new(
        if w >= 0 {
            w as nat
        } else {
            0
        },
        |i: int|
            if i <= 0x7fff_ffff_ffff_ffff && value_or_false(m, PinId { name: nm, index: i }) {
                '1'
            } else {
                '0'
            },
    )
}

/// The first `j` dump lines, `name:bits` each, separated by newlines.
pub open spec fn dump_upto(
    m: Map<PinId, bool>,
    names: Seq<Seq<char>>,
    widths: Seq<int>,
    j: int,
) -> Seq<char>
    decreases j,
{
    if j <= 0 || j > names.len() || j > widths.len() {
        Seq::empty()
    } else {
        dump_upto(m, names, widths, j - 1) + (if j == 1 {
            Seq::empty()
        } else {
            seq!['\n']
        }) + names[j - 1] + seq![':'] + group_text(m, names[j - 1], widths[j - 1])
    }
}

/// The name `nm` occurs in the list.
pub open spec fn name_listed(names: Seq<String>, nm: Seq<char>) -> bool {
    exists|j: int| 0 <= j < names.len() && (#[trigger] names[j])@ == nm
}

/// Some stored entry carries a key with the name `nm`.
pub open spec fn entry_named(s: Seq<(PinKey, bool)>, nm: Seq<char>) -> bool {
    exists|q: int| 0 <= q < s.len() && (#[trigger] s[q]).0@.name == nm
}

impl PinValues {
    fn has_index_usize(&self, name: &str, index: usize) -> (r: bool)
        ensures
            r == (index <= 0x7fff_ffff_ffff_ffff && self@.contains_key(
                PinId { name: name@, index: index as int },
            )),
    {
        if (index as u64) > 0x7fff_ffff_ffff_ffffu64 {
            false
        } else {
            self.exists_value(name, index as i64)
        }
    }

    fn bit_at_usize(&self, name: &str, index: usize) -> (r: bool)
        requires
            self.wf(),
        ensures
            r == (index <= 0x7fff_ffff_ffff_ffff && value_or_false(
                self@,
                PinId { name: name@, index: index as int },
            )),
    {
        if (index as u64) > 0x7fff_ffff_ffff_ffffu64 {
            false
        } else {
            self.get_or_false(name, index as i64)
        }
    }

    /// The distinct names among the stored keys, in ascending order.
    #[verifier::loop_isolation(false)]
    #[verifier::rlimit(100)]
    fn sorted_names(&self) -> (names: Vec<String>)
        ensures
            forall|i: int, j: int|
                0 <= i < j < names@.len() ==> seq_char_lt(
                    (#[trigger] names@[i])@,
                    (#[trigger] names@[j])@,
                ),
            forall|q: int|
                0 <= q < self.entries@.len() ==> #[trigger] name_listed(
                    names@,
                    self.entries@[q].0@.name,
                ),
            forall|j: int|
                0 <= j < names@.len() ==> #[trigger] entry_named(self.entries@, names@[j]@),
    {
        let ne = self.entries.len();
        let mut names: Vec<String> = Vec::new();
        let mut e: usize = 0;
        while e < ne
            invariant
                e <= ne,
                forall|i: int, j: int|
                    0 <= i < j < names@.len() ==> seq_char_lt(
                        (#[trigger] names@[i])@,
                        (#[trigger] names@[j])@,
                    ),
                forall|q: int|
                    0 <= q < e ==> #[trigger] name_listed(names@, self.entries@[q].0@.name),
                forall|j: int|
                    0 <= j < names@.len() ==> #[trigger] entry_named(self.entries@, names@[j]@),
            decreases ne - e,
        {
            let nm = self.entries[e].0.name();
            let ln = names.len();
            let mut q: usize = 0;
            while q < ln && str_lt(names[q].as_str(), nm)
                invariant
                    q <= ln,
                    forall|j: int| 0 <= j < q ==> seq_char_lt((#[trigger] names@[j])@, nm@),
                decreases ln - q,
            {
                q = q + 1;
            }
            let present = q < ln && str_eq(names[q].as_str(), nm);
            if !present {
                let ghost names0 = names@;
                proof {
                    if q < ln {
                        lemma_seq_char_lt_total(nm@, names0[q as int]@);
                    }
                }
                names.insert(q, nm.to_owned());
                proof {
                    assert forall|i: int, j: int|
                        0 <= i < j < names@.len() implies seq_char_lt(
                        (#[trigger] names@[i])@,
                        (#[trigger] names@[j])@,
                    ) by {
                        let i0: int = if i < q { i } else { i - 1 };
                        let j0: int = if j < q { j } else { j - 1 };
                        if i == q && j > q {
                            assert(names@[j] == names0[j0]);
                            if j0 > q {
                                lemma_seq_char_lt_trans(nm@, names0[q as int]@, names0[j0]@);
                            }
                        } else if j == q && i < q {
                            assert(names@[i] == names0[i]);
                        } else if i != q && j != q {
                            assert(names@[i] == names0[i0] && names@[j] == names0[j0]);
                            if i0 < q <= j0 {
                                if j0 > q {
                                    lemma_seq_char_lt_trans(nm@, names0[q as int]@, names0[j0]@);
                                }
                                lemma_seq_char_lt_trans(names0[i0]@, nm@, names0[j0]@);
                            }
                        }
                    }
                    assert forall|q2: int|
                        0 <= q2 < e + 1 implies #[trigger] name_listed(
                        names@,
                        self.entries@[q2].0@.name,
                    ) by {
                        if q2 == e {
                            assert(names@[q as int]@ == self.entries@[q2].0@.name);
                        } else {
                            assert(name_listed(names0, self.entries@[q2].0@.name));
                            let j = choose|j: int|
                                0 <= j < names0.len() && (#[trigger] names0[j])@ == (
                                self.entries@[q2]).0@.name;
                            let j1: int = if j < q {
                                j
                            } else {
                                j + 1
                            };
                            assert(names@[j1] == names0[j]);
                        }
                    }
                    assert forall|j: int|
                        0 <= j < names@.len() implies #[trigger] entry_named(
                        self.entries@,
                        names@[j]@,
                    ) by {
                        if j == q {
                            assert(self.entries@[e as int].0@.name == names@[j]@);
                        } else {
                            let j0: int = if j < q {
                                j
                            } else {
                                j - 1
                            };
                            assert(names@[j] == names0[j0]);
                            assert(entry_named(self.entries@, names0[j0]@));
                        }
                    }
                }
            } else {
                proof {
                    assert forall|q2: int|
                        0 <= q2 < e + 1 implies #[trigger] name_listed(
                        names@,
                        self.entries@[q2].0@.name,
                    ) by {
                        if q2 == e {
                            assert(names@[q as int]@ == self.entries@[q2].0@.name);
                        }
                    }
                }
            }
            e = e + 1;
        }
        names
    }

    /// Appends `name:bits` to `res` and answers the group's width.
    #[verifier::loop_isolation(false)]
    #[verifier::rlimit(100)]
    fn append_group(&self, res: &mut String, name: &str) -> (w: usize)
        requires
            self.wf(),
        ensures
            group_width(self@, name@, w as int),
            final(res)@ == old(res)@ + name@ + seq![':'] + group_text(self@, name@, w as int),
    {
        let ghost m = self@;
        let ghost base = res@;
        res.append(name);
        res.append(":");
        let ne = self.entries.len();
        let mut w: usize = 0;
        while w < ne && self.has_index_usize(name, w)
            invariant
                w <= ne,
                forall|i: int|
                    0 <= i < w ==> #[trigger] m.contains_key(PinId { name: name@, index: i }),
            decreases ne - w,
        {
            w = w + 1;
        }
        proof {
            assert(group_width(m, name@, w as int)) by {
                if w as int <= 0x7fff_ffff_ffff_ffff && m.contains_key(
                    PinId { name: name@, index: w as int },
                ) {
                    assert(w == ne);
                    assert forall|i: int| 0 <= i < w + 1 implies has_key(
                        self.entries@,
                        PinId { name: name@, index: i },
                    ) by {
                        assert(m.contains_key(PinId { name: name@, index: i }));
                    }
                    lemma_group_prefix_bound(self.entries@, name@, w as int + 1);
                }
            }
            reveal_strlit(":");
            assert(res@ =~= base + name@ + seq![':'] + group_text(m, name@, 0));
        }
        let ghost line0 = res@;
        let mut i: usize = 0;
        while i < w
            invariant
                i <= w,
                res@ == line0 + group_text(m, name@, i as int),
            decreases w - i,
        {
            if self.bit_at_usize(name, i) {
                res.append("1");
            } else {
                res.append("0");
            }
            proof {
                reveal_strlit("1");
                reveal_strlit("0");
                assert(res@ =~= line0 + group_text(m, name@, i as int + 1));
            }
            i = i + 1;
        }
        proof {
            assert(final(res)@ =~= base + name@ + seq![':'] + group_text(m, name@, w as int));
        }
        w
    }

    /// Renders the value set as text: one line per distinct pin name, in
    /// ascending name order, each line `name:bits` with one `1` or `0`
    /// per index from zero up to the first unset index.
    #[verifier::loop_isolation(false)]
    #[verifier::rlimit(100)]
    pub fn to_text(&self) -> (r: String)
        requires
            self.wf(),
        ensures
            exists|names: Seq<Seq<char>>, widths: Seq<int>|
                names_sorted(names) && names_cover(self@, names) && #[trigger] widths_match(
                    self@,
                    names,
                    widths,
                ) && r@ == dump_upto(self@, names, widths, names.len() as int),
    {
        let ghost m = self@;
        let names = self.sorted_names();
        let ghost namesv = Seq::new(names@.len(), |j: int| names@[j]@);
        let nn = names.len();
        let mut res = String::new();
        let mut widths: Vec<usize> = Vec::new();
        let mut j: usize = 0;
        while j < nn
            invariant
                j <= nn,
                widths@.len() == j,
                forall|jj: int|
                    0 <= jj < j ==> group_width(m, namesv[jj], (#[trigger] widths@[jj]) as int),
                res@ == dump_upto(
                    m,
                    namesv,
                    Seq::new(widths@.len(), |jj: int| widths@[jj] as int),
                    j as int,
                ),
            decreases nn - j,
        {
            let ghost res0 = res@;
            let ghost widthsv0 = Seq::new(widths@.len(), |jj: int| widths@[jj] as int);
            if j > 0 {
                res.append("\n");
            }
            let w = self.append_group(&mut res, names[j].as_str());
            widths.push(w);
            proof {
                reveal_strlit("\n");
                let widthsv = Seq::new(widths@.len(), |jj: int| widths@[jj] as int);
                lemma_dump_upto_widths(m, namesv, widthsv0, widthsv, j as int);
                assert(res@ =~= dump_upto(m, namesv, widthsv, j as int + 1));
            }
            j = j + 1;
        }
        proof {
            let widthsv = Seq::new(widths@.len(), |jj: int| widths@[jj] as int);
            assert(names_sorted(namesv));
            assert(names_cover(m, namesv)) by {
                assert forall|p: PinId| #[trigger] m.contains_key(p) implies namesv.contains(
                    p.name,
                ) by {
                    let q = choose|q: int|
                        0 <= q < self.entries@.len() && (#[trigger] self.entries@[q]).0@ == p;
                    assert(name_listed(names@, self.entries@[q].0@.name));
                    let jj = choose|jj: int|
                        0 <= jj < names@.len() && (#[trigger] names@[jj])@ == (
                        self.entries@[q]).0@.name;
                    assert(namesv[jj] == p.name);
                }
                assert forall|jj: int| 0 <= jj < namesv.len() implies name_used(
                    m,
                    #[trigger] namesv[jj],
                ) by {
                    assert(entry_named(self.entries@, names@[jj]@));
                    let q = choose|q: int|
                        0 <= q < self.entries@.len() && (#[trigger] self.entries@[q]).0@.name == (
                        names@[jj])@;
                    assert(m.contains_key(PinId {
                        name: namesv[jj],
                        index: self.entries@[q].0@.index,
                    })) by {
                        assert(self.entries@[q].0@ == (PinId {
                            name: self.entries@[q].0@.name,
                            index: self.entries@[q].0@.index,
                        }));
                    }
                }
            }
            assert(widths_match(m, namesv, widthsv));
        }
        res
    }
}

proof fn lemma_dump_upto_widths(
    m: Map<PinId, bool>,
    names: Seq<Seq<char>>,
    wa: Seq<int>,
    wb: Seq<int>,
    j: int,
)
    requires
        forall|k: int| 0 <= k < j ==> k < wa.len() && k < wb.len() && (#[trigger] wa[k]) == wb[k],
    ensures
        dump_upto(m, names, wa, j) == dump_upto(m, names, wb, j),
    decreases j,
{
    if j > 0 {
        assert(0 <= j - 1 < j);
        assert(wa[j - 1] == wb[j - 1]);
        assert forall|k: int|
            0 <= k < j - 1 implies k < wa.len() && k < wb.len() && (#[trigger] wa[k])
            == wb[k] by {
            assert(0 <= k < j);
        }
        lemma_dump_upto_widths(m, names, wa, wb, j - 1);
    }
}

} // verus!
