use vstd::prelude::*;

use crate::graph::Graph;
use crate::net;
use crate::relay;
use crate::relay::Relay;

verus! {

/// Index of one switch state in a circuit's switch-state vector.
#[derive(Debug, Clone, Copy, PartialEq, Eq, Structural)]
pub struct SRef(pub usize);

impl SRef {
    pub fn new(idx: usize) -> (r: Self)
        ensures
            r.0 == idx,
    {
        SRef(idx)
    }

    pub fn idx(&self) -> (r: usize)
        ensures
            r == self.0,
    {
        self.0
    }

    pub fn set(&self, state: &mut Vec<bool>, value: bool)
        requires
            self.0 < old(state).len(),
        ensures
            final(state)@ == old(state)@.update(self.0 as int, value),
    {
        state[self.0] = value;
    }

    pub fn get(&self, state: &Vec<bool>) -> (r: bool)
        requires
            self.0 < state.len(),
        ensures
            r == state@[self.0 as int],
    {
        state[self.0]
    }
}

/// Index of one net in a circuit's net vector; index 0 is the power rail.
#[derive(Debug, Clone, Copy, PartialEq, Eq, Structural)]
pub struct NRef(pub usize);

impl NRef {
    pub fn new(idx: usize) -> (r: Self)
        ensures
            r.0 == idx,
    {
        NRef(idx)
    }

    pub fn idx(&self) -> (r: usize)
        ensures
            r == self.0,
    {
        self.0
    }

    pub fn get(&self, net_v: &Vec<bool>) -> (r: bool)
        requires
            self.0 < net_v.len(),
        ensures
            r == net_v@[self.0 as int],
    {
        net_v[self.0]
    }
}

/// Position of the first occurrence of `name` in `names`, or `names.len()`
/// if it does not occur: the index the interner has given, or gives next,
/// to `name`.
pub open spec fn name_index(names: Seq<Seq<char>>, name: Seq<char>) -> int
    decreases names.len(),
{
    if names.len() == 0 {
        0
    } else if names[0] == name {
        0
    } else {
        1 + name_index(names.drop_first(), name)
    }
}

/// `name_index` points at the first occurrence of a recorded name, and past
/// the end for a name never recorded.
pub proof fn lemma_name_index(names: Seq<Seq<char>>, name: Seq<char>)
    ensures
        names.contains(name) ==> {
            &&& 0 <= name_index(names, name) < names.len()
            &&& names[name_index(names, name)] == name
            &&& forall|j: int| 0 <= j < name_index(names, name) ==> names[j] != name
        },
        !names.contains(name) ==> name_index(names, name) == names.len(),
    decreases names.len(),
{
    if names.len() == 0 {
    } else if names[0] == name {
        assert(names.contains(name));
    } else {
        let tail = names.drop_first();
        lemma_name_index(tail, name);
        assert(forall|j: int| 0 < j < names.len() ==> #[trigger] names[j] == tail[j - 1]);
        if names.contains(name) {
            let k = choose|k: int| 0 <= k < names.len() && names[k] == name;
            assert(tail[k - 1] == name);
            assert(tail.contains(name));
            let ti = name_index(tail, name);
            assert(names[1 + ti] == tail[ti]);
            assert forall|j: int| 0 <= j < 1 + ti implies names[j] != name by {
                if j > 0 {
                    assert(tail[j - 1] != name);
                }
            }
        } else {
            assert(!tail.contains(name)) by {
                if tail.contains(name) {
                    let k = choose|k: int| 0 <= k < tail.len() && tail[k] == name;
                    assert(names[k + 1] == name);
                }
            }
        }
    }
}

/// Extending the interner never changes the index of a name already
/// recorded.
pub proof fn lemma_name_index_prefix(names: Seq<Seq<char>>, longer: Seq<Seq<char>>, name: Seq<char>)
    requires
        names.is_prefix_of(longer),
        names.contains(name),
    ensures
        longer.contains(name),
        name_index(longer, name) == name_index(names, name),
    decreases names.len(),
{
    assert(forall|j: int| 0 <= j < names.len() ==> names[j] == longer[j]);
    let k = choose|k: int| 0 <= k < names.len() && names[k] == name;
    assert(longer[k] == name);
    assert(longer.contains(name));
    if names[0] == name {
    } else {
        let ntail = names.drop_first();
        let ltail = longer.drop_first();
        assert(ntail.is_prefix_of(ltail)) by {
            assert(ntail =~= ltail.subrange(0, ntail.len() as int));
        }
        assert(ntail[k - 1] == name);
        assert(ntail.contains(name));
        lemma_name_index_prefix(ntail, ltail, name);
    }
}

/// Interner for switch-state names: the name at position `i` owns index `i`.
#[derive(Debug)]
pub struct StateMap {
    pub names: Vec<String>,
}

impl View for StateMap {
    type V = Seq<Seq<char>>;

    open spec fn view(&self) -> Seq<Seq<char>> {
        self.names@.map_values(|s: String| s@)
    }
}

impl Default for StateMap {
    fn default() -> (r: Self)
        ensures
            r@ == Seq::<Seq<char>>::empty(),
            r.wf(),
    {
        let r = StateMap { names: Vec::new() };
        proof {
            assert(r@ =~= Seq::<Seq<char>>::empty());
        }
        r
    }
}

impl StateMap {
    /// No name is ever recorded twice.
    pub open spec fn wf(&self) -> bool {
        forall|i: int, j: int| 0 <= i < j < self@.len() ==> self@[i] != self@[j]
    }

    /// Returns the index already held by `name`, or records `name` under the
    /// next sequential index.
    pub fn by_name(&mut self, name: &str) -> (r: SRef)
        ensures
            r.0 == name_index(old(self)@, name@),
            final(self)@ == if old(self)@.contains(name@) {
                old(self)@
            } else {
                old(self)@.push(name@)
            },
            old(self)@.is_prefix_of(final(self)@),
            final(self)@.contains(name@),
            r.0 < final(self)@.len(),
            old(self).wf() ==> final(self).wf(),
    {
        let owned: String = name.to_owned();
        let n: usize = self.names.len();
        let mut i: usize = 0;
        while i < n
            invariant
                n == self.names.len(),
                i <= n,
                owned@ == name@,
                forall|j: int| 0 <= j < i ==> self@[j] != name@,
            decreases n - i,
        {
            let cur: &String = &self.names[i];
            if cur.eq(&owned) {
                proof {
                    assert(self@[i as int] == name@);
                    assert(self@.contains(name@));
                    lemma_name_index(self@, name@);
                    let idx = name_index(self@, name@);
                    assert(idx == i as int) by {
                        if idx < i as int {
                            assert(self@[idx] != name@);
                        }
                        if idx > i as int {
                            assert(self@[i as int] != name@);
                        }
                    }
                    assert(self@.is_prefix_of(self@)) by {
                        assert(self@ =~= self@.subrange(0, self@.len() as int));
                    }
                }
                return SRef(i);
            }
            i += 1;
        }
        proof {
            assert(!self@.contains(name@)) by {
                if self@.contains(name@) {
                    let k = choose|k: int| 0 <= k < self@.len() && self@[k] == name@;
                    assert(self@[k] != name@);
                }
            }
            lemma_name_index(self@, name@);
        }
        let idx: usize = self.names.len();
        self.names.push(owned);
        proof {
            assert(self@ =~= old(self)@.push(name@));
            assert(old(self)@.is_prefix_of(self@)) by {
                assert(old(self)@ =~= self@.subrange(0, old(self)@.len() as int));
            }
            assert(self@[idx as int] == name@);
            assert(self@.contains(name@));
            if old(self).wf() {
                assert forall|i2: int, j2: int| 0 <= i2 < j2 < self@.len() implies self@[i2]
                    != self@[j2] by {
                    if j2 == self@.len() - 1 {
                        assert(old(self)@[i2] != name@);
                    }
                }
            }
        }
        SRef(idx)
    }

    /// Index lookup without insertion: `None` for a name never recorded.
    pub fn lookup(&self, name: &str) -> (r: Option<SRef>)
        ensures
            self@.contains(name@) ==> r == Some(SRef(name_index(self@, name@) as usize)),
            !self@.contains(name@) ==> r is None,
    {
        let owned: String = name.to_owned();
        let n: usize = self.names.len();
        let mut i: usize = 0;
        while i < n
            invariant
                n == self.names.len(),
                i <= n,
                owned@ == name@,
                forall|j: int| 0 <= j < i ==> self@[j] != name@,
            decreases n - i,
        {
            let cur: &String = &self.names[i];
            if cur.eq(&owned) {
                proof {
                    assert(self@[i as int] == name@);
                    assert(self@.contains(name@));
                    lemma_name_index(self@, name@);
                    let idx = name_index(self@, name@);
                    assert(idx == i as int) by {
                        if idx < i as int {
                            assert(self@[idx] != name@);
                        }
                        if idx > i as int {
                            assert(self@[i as int] != name@);
                        }
                    }
                }
                return Some(SRef(i));
            }
            i += 1;
        }
        proof {
            assert(!self@.contains(name@)) by {
                if self@.contains(name@) {
                    let k = choose|k: int| 0 <= k < self@.len() && self@[k] == name@;
                    assert(self@[k] != name@);
                }
            }
        }
        None
    }
}

/// Interner for net names; the power-rail name is pre-recorded at index 0.
#[derive(Debug)]
pub struct NetMap {
    pub names: Vec<String>,
}

impl View for NetMap {
    type V = Seq<Seq<char>>;

    open spec fn view(&self) -> Seq<Seq<char>> {
        self.names@.map_values(|s: String| s@)
    }
}

impl Default for NetMap {
    fn default() -> (r: Self)
        ensures
            r@ == seq![net::V_P@],
            r.wf(),
    {
        let mut names: Vec<String> = Vec::new();
        names.push(net::V_P.to_owned());
        let r = NetMap { names };
        proof {
            assert(r@ =~= seq![net::V_P@]);
        }
        r
    }
}

impl NetMap {
    /// No name is ever recorded twice.
    pub open spec fn wf(&self) -> bool {
        forall|i: int, j: int| 0 <= i < j < self@.len() ==> self@[i] != self@[j]
    }

    /// Returns the index already held by `name`, or records `name` under the
    /// next sequential index.
    pub fn by_name(&mut self, name: &str) -> (r: NRef)
        ensures
            r.0 == name_index(old(self)@, name@),
            final(self)@ == if old(self)@.contains(name@) {
                old(self)@
            } else {
                old(self)@.push(name@)
            },
            old(self)@.is_prefix_of(final(self)@),
            final(self)@.contains(name@),
            r.0 < final(self)@.len(),
            old(self).wf() ==> final(self).wf(),
    {
        let owned: String = name.to_owned();
        let n: usize = self.names.len();
        let mut i: usize = 0;
        while i < n
            invariant
                n == self.names.len(),
                i <= n,
                owned@ == name@,
                forall|j: int| 0 <= j < i ==> self@[j] != name@,
            decreases n - i,
        {
            let cur: &String = &self.names[i];
            if cur.eq(&owned) {
                proof {
                    assert(self@[i as int] == name@);
                    assert(self@.contains(name@));
                    lemma_name_index(self@, name@);
                    let idx = name_index(self@, name@);
                    assert(idx == i as int) by {
                        if idx < i as int {
                            assert(self@[idx] != name@);
                        }
                        if idx > i as int {
                            assert(self@[i as int] != name@);
                        }
                    }
                    assert(self@.is_prefix_of(self@)) by {
                        assert(self@ =~= self@.subrange(0, self@.len() as int));
                    }
                }
                return NRef(i);
            }
            i += 1;
        }
        proof {
            assert(!self@.contains(name@)) by {
                if self@.contains(name@) {
                    let k = choose|k: int| 0 <= k < self@.len() && self@[k] == name@;
                    assert(self@[k] != name@);
                }
            }
            lemma_name_index(self@, name@);
        }
        let idx: usize = self.names.len();
        self.names.push(owned);
        proof {
            assert(self@ =~= old(self)@.push(name@));
            assert(old(self)@.is_prefix_of(self@)) by {
                assert(old(self)@ =~= self@.subrange(0, old(self)@.len() as int));
            }
            assert(self@[idx as int] == name@);
            assert(self@.contains(name@));
            if old(self).wf() {
                assert forall|i2: int, j2: int| 0 <= i2 < j2 < self@.len() implies self@[i2]
                    != self@[j2] by {
                    if j2 == self@.len() - 1 {
                        assert(old(self)@[i2] != name@);
                    }
                }
            }
        }
        NRef(idx)
    }

    /// Index lookup without insertion: `None` for a name never recorded.
    pub fn lookup(&self, name: &str) -> (r: Option<NRef>)
        ensures
            self@.contains(name@) ==> r == Some(NRef(name_index(self@, name@) as usize)),
            !self@.contains(name@) ==> r is None,
    {
        let owned: String = name.to_owned();
        let n: usize = self.names.len();
        let mut i: usize = 0;
        while i < n
            invariant
                n == self.names.len(),
                i <= n,
                owned@ == name@,
                forall|j: int| 0 <= j < i ==> self@[j] != name@,
            decreases n - i,
        {
            let cur: &String = &self.names[i];
            if cur.eq(&owned) {
                proof {
                    assert(self@[i as int] == name@);
                    assert(self@.contains(name@));
                    lemma_name_index(self@, name@);
                    let idx = name_index(self@, name@);
                    assert(idx == i as int) by {
                        if idx < i as int {
                            assert(self@[idx] != name@);
                        }
                        if idx > i as int {
                            assert(self@[i as int] != name@);
                        }
                    }
                }
                return Some(NRef(i));
            }
            i += 1;
        }
        proof {
            assert(!self@.contains(name@)) by {
                if self@.contains(name@) {
                    let k = choose|k: int| 0 <= k < self@.len() && self@[k] == name@;
                    assert(self@[k] != name@);
                }
            }
        }
        None
    }
}

/// One interning step: an unseen name is appended, a seen one changes
/// nothing.
pub open spec fn intern_one(acc: Seq<Seq<char>>, name: Seq<char>) -> Seq<Seq<char>> {
    if acc.contains(name) {
        acc
    } else {
        acc.push(name)
    }
}

/// The names of `names` interned left to right, starting from `acc`.
pub open spec fn intern_all(names: Seq<Seq<char>>, acc: Seq<Seq<char>>) -> Seq<Seq<char>>
    decreases names.len(),
{
    if names.len() == 0 {
        acc
    } else {
        intern_one(intern_all(names.drop_last(), acc), names.last())
    }
}

/// Interning only appends: what the interner held before stays, in place.
pub proof fn lemma_intern_all_prefix(names: Seq<Seq<char>>, acc: Seq<Seq<char>>)
    ensures
        acc.is_prefix_of(intern_all(names, acc)),
    decreases names.len(),
{
    if names.len() == 0 {
        assert(acc =~= acc.subrange(0, acc.len() as int));
    } else {
        lemma_intern_all_prefix(names.drop_last(), acc);
        let prev = intern_all(names.drop_last(), acc);
        let fin = intern_all(names, acc);
        if !prev.contains(names.last()) {
            assert(forall|j: int| 0 <= j < prev.len() ==> prev[j] == fin[j]);
            assert(acc =~= fin.subrange(0, acc.len() as int));
        }
    }
}

/// After interning, every interned name is recorded.
pub proof fn lemma_intern_all_contains(names: Seq<Seq<char>>, acc: Seq<Seq<char>>, x: Seq<char>)
    requires
        names.contains(x) || acc.contains(x),
    ensures
        intern_all(names, acc).contains(x),
    decreases names.len(),
{
    let fin = intern_all(names, acc);
    if names.len() == 0 {
    } else {
        let prev = intern_all(names.drop_last(), acc);
        if x == names.last() {
            if prev.contains(x) {
                let k = choose|k: int| 0 <= k < prev.len() && prev[k] == x;
                assert(fin[k] == x);
            } else {
                assert(fin[fin.len() - 1] == x);
            }
        } else {
            if names.contains(x) {
                let k = choose|k: int| 0 <= k < names.len() && names[k] == x;
                assert(k < names.len() - 1);
                assert(names.drop_last()[k] == x);
                assert(names.drop_last().contains(x));
            }
            lemma_intern_all_contains(names.drop_last(), acc, x);
            let k2 = choose|k2: int| 0 <= k2 < prev.len() && prev[k2] == x;
            assert(fin[k2] == x);
        }
    }
}

/// The net names a netlist's switch list registers, in registration order:
/// each switch's left then right terminal.
pub open spec fn switch_terminal_names(sw: Seq<net::Switch>) -> Seq<Seq<char>> {
    Seq::new(
        2 * sw.len(),
        |i: int|
            if i % 2 == 0 {
                sw[i / 2].l@
            } else {
                sw[i / 2].r@
            },
    )
}

/// The contact names a netlist's relay list registers, in registration
/// order: each relay's `a` then `b` contact.
pub open spec fn relay_contact_names(rl: Seq<net::Relay>) -> Seq<Seq<char>> {
    Seq::new(
        2 * rl.len(),
        |i: int|
            if i % 2 == 0 {
                rl[i / 2].a@
            } else {
                rl[i / 2].b@
            },
    )
}

/// The coil net names of a netlist's relays, in order.
pub open spec fn relay_coil_names(rl: Seq<net::Relay>) -> Seq<Seq<char>> {
    rl.map_values(|r: net::Relay| r.coil@)
}

/// The controlling state names of a netlist's switches, in order.
pub open spec fn switch_state_names(sw: Seq<net::Switch>) -> Seq<Seq<char>> {
    sw.map_values(|s: net::Switch| s.state@)
}

/// Net names of a compiled spec: the power rail, then switch terminals,
/// then relay coils, each name at its first occurrence.
pub open spec fn spec_net_names(nl: net::Netlist) -> Seq<Seq<char>> {
    intern_all(
        relay_coil_names(nl.relays@),
        intern_all(switch_terminal_names(nl.switches@), seq![net::V_P@]),
    )
}

/// Switch-state names of a compiled spec: relay contacts, then switch
/// controls, each name at its first occurrence.
pub open spec fn spec_state_names(nl: net::Netlist) -> Seq<Seq<char>> {
    intern_all(
        switch_state_names(nl.switches@),
        intern_all(relay_contact_names(nl.relays@), Seq::<Seq<char>>::empty()),
    )
}

/// The compiled, immutable circuit: interners, connectivity graph and relay
/// wiring, all index-consistent.
#[derive(Debug)]
pub struct CircuitSpec {
    pub smap: StateMap,
    pub nmap: NetMap,
    pub graph: Graph,
    pub relays: Vec<relay::Spec>,
}

impl CircuitSpec {
    /// Compilation's guarantee: interners hold distinct names, the power
    /// rail sits at net index 0, the graph covers every net, and every
    /// stored index is in range.
    pub open spec fn wf(&self) -> bool {
        &&& self.smap.wf()
        &&& self.nmap.wf()
        &&& self.graph@.len() == self.nmap@.len()
        &&& self.nmap@.len() >= 1
        &&& self.nmap@[0] == net::V_P@
        &&& self.graph.wf(self.smap@.len() as nat)
        &&& forall|i: int|
            0 <= i < self.relays@.len() ==> {
                &&& (#[trigger] self.relays@[i]).coil.0 < self.nmap@.len()
                &&& self.relays@[i].a.0 < self.smap@.len()
                &&& self.relays@[i].b.0 < self.smap@.len()
            }
    }

    /// Net values one propagation pass computes from switch assignment
    /// `state`: a net is energized exactly when the power rail reaches it
    /// through closed switches.
    pub open spec fn tick_net(&self, state: Seq<bool>) -> Seq<bool> {
        Seq::new(self.nmap@.len(), |j: int| self.graph.connected(state, 0, j))
    }
}

/// The (level, is_middle) pairs of a vector of relay runtimes.
pub open spec fn relay_states<'a>(rs: Seq<Relay<'a>>) -> Seq<(bool, bool)> {
    rs.map_values(|r: Relay<'a>| (r.level, r.is_middle))
}

/// Relay runtime states after one relay pass over `net_v`: each relay
/// steps independently on its own coil reading.
pub open spec fn pass_states(
    specs: Seq<relay::Spec>,
    rts: Seq<(bool, bool)>,
    net_v: Seq<bool>,
) -> Seq<(bool, bool)> {
    Seq::new(
        rts.len(),
        |i: int|
            (
                relay::step_level(rts[i].0, rts[i].1, net_v[specs[i].coil.0 as int]),
                relay::step_middle(rts[i].0, rts[i].1, net_v[specs[i].coil.0 as int]),
            ),
    )
}

/// Switch-state vector after one relay pass: relays write their contact
/// drives in order, `a` before `b`, so a later write to an aliased index
/// wins.
pub open spec fn pass_state(
    specs: Seq<relay::Spec>,
    rts: Seq<(bool, bool)>,
    state: Seq<bool>,
    net_v: Seq<bool>,
) -> Seq<bool>
    decreases specs.len(),
{
    if specs.len() == 0 {
        state
    } else {
        let k = specs.len() - 1;
        let prev = pass_state(specs.drop_last(), rts.drop_last(), state, net_v);
        let l = relay::step_level(rts[k].0, rts[k].1, net_v[specs[k].coil.0 as int]);
        let m = relay::step_middle(rts[k].0, rts[k].1, net_v[specs[k].coil.0 as int]);
        prev.update(specs[k].a.0 as int, relay::out_a(l, m)).update(
            specs[k].b.0 as int,
            relay::out_b(l, m),
        )
    }
}

/// Mutable runtime of one circuit: switch-state and net vectors plus one
/// runtime per relay, against a borrowed, immutable spec.
#[derive(Debug)]
pub struct Circuit<'a> {
    pub spec: &'a CircuitSpec,
    pub relays: Vec<Relay<'a>>,
    pub state: Vec<bool>,
    pub net: Vec<bool>,
}

impl<'a> Circuit<'a> {
    /// Vector lengths match the spec's interners and each relay runtime is
    /// wired to the spec entry of the same index.
    pub open spec fn wf(&self) -> bool {
        &&& self.spec.wf()
        &&& self.state@.len() == self.spec.smap@.len()
        &&& self.net@.len() == self.spec.nmap@.len()
        &&& self.relays@.len() == self.spec.relays@.len()
        &&& forall|i: int|
            0 <= i < self.relays@.len() ==> *(#[trigger] self.relays@[i]).spec
                == self.spec.relays@[i]
    }

    /// Current value of the named switch state; `None` for a name the
    /// compilation never saw.
    pub fn get_state(&self, name: &str) -> (r: Option<bool>)
        requires
            self.wf(),
        ensures
            self.spec.smap@.contains(name@) ==> r == Some(
                self.state@[name_index(self.spec.smap@, name@)],
            ),
            !self.spec.smap@.contains(name@) ==> r is None,
    {
        match self.spec.smap.lookup(name) {
            Some(sref) => {
                proof {
                    lemma_name_index(self.spec.smap@, name@);
                }
                Some(sref.get(&self.state))
            },
            None => None,
        }
    }

    /// Sets the named switch state; a no-op for a name the compilation
    /// never saw.
    pub fn set_state(&mut self, name: &str, value: bool)
        requires
            old(self).wf(),
        ensures
            final(self).wf(),
            final(self).spec == old(self).spec,
            final(self).net@ == old(self).net@,
            final(self).relays@ == old(self).relays@,
            old(self).spec.smap@.contains(name@) ==> final(self).state@ == old(
                self,
            ).state@.update(name_index(old(self).spec.smap@, name@), value),
            !old(self).spec.smap@.contains(name@) ==> final(self).state@ == old(self).state@,
    {
        match self.spec.smap.lookup(name) {
            Some(sref) => {
                proof {
                    lemma_name_index(self.spec.smap@, name@);
                }
                sref.set(&mut self.state, value);
            },
            None => {},
        }
    }

    /// Current value of the named net; `None` for a name the compilation
    /// never saw.
    pub fn get_net(&self, name: &str) -> (r: Option<bool>)
        requires
            self.wf(),
        ensures
            self.spec.nmap@.contains(name@) ==> r == Some(
                self.net@[name_index(self.spec.nmap@, name@)],
            ),
            !self.spec.nmap@.contains(name@) ==> r is None,
    {
        match self.spec.nmap.lookup(name) {
            Some(nref) => {
                proof {
                    lemma_name_index(self.spec.nmap@, name@);
                }
                Some(nref.get(&self.net))
            },
            None => None,
        }
    }

    /// Resets every net to de-energized, keeping the vector's length.
    fn clear_net(&mut self)
        ensures
            final(self).spec == old(self).spec,
            final(self).state@ == old(self).state@,
            final(self).relays@ == old(self).relays@,
            final(self).net@.len() == old(self).net@.len(),
            forall|j: int| 0 <= j < final(self).net@.len() ==> !(#[trigger] final(self).net@[j]),
    {
        let len: usize = self.net.len();
        self.net.clear();
        let mut i: usize = 0;
        while i < len
            invariant
                i <= len,
                self.net@.len() == i,
                self.spec == old(self).spec,
                self.state@ == old(self).state@,
                self.relays@ == old(self).relays@,
                forall|j: int| 0 <= j < i ==> !(#[trigger] self.net@[j]),
            decreases len - i,
        {
            self.net.push(false);
            i += 1;
        }
    }

    /// One relay pass: every relay advances on the current net values and
    /// writes its contact drives, in relay order.
    fn run_models(&mut self)
        requires
            old(self).wf(),
        ensures
            final(self).wf(),
            final(self).spec == old(self).spec,
            final(self).net@ == old(self).net@,
            relay_states(final(self).relays@) == pass_states(
                old(self).spec.relays@,
                relay_states(old(self).relays@),
                old(self).net@,
            ),
            final(self).state@ == pass_state(
                old(self).spec.relays@,
                relay_states(old(self).relays@),
                old(self).state@,
                old(self).net@,
            ),
    {
        let ghost specs0 = old(self).spec.relays@;
        let ghost rts0 = relay_states(old(self).relays@);
        let n: usize = self.relays.len();
        let mut i: usize = 0;
        while i < n
            invariant
                n == self.relays@.len(),
                i <= n,
                self.spec == old(self).spec,
                self.net@ == old(self).net@,
                self.wf(),
                specs0 == self.spec.relays@,
                rts0.len() == n,
                forall|j: int| i <= j < n ==> (#[trigger] self.relays@[j]) == old(self).relays@[j],
                forall|j: int|
                    0 <= j < n ==> rts0[j] == ((#[trigger] old(self).relays@[j]).level, old(
                        self,
                    ).relays@[j].is_middle),
                forall|j: int|
                    0 <= j < i ==> ((#[trigger] self.relays@[j]).level, self.relays@[j].is_middle)
                        == pass_states(specs0, rts0, self.net@)[j],
                self.state@ == pass_state(
                    specs0.take(i as int),
                    rts0.take(i as int),
                    old(self).state@,
                    self.net@,
                ),
            decreases n - i,
        {
            let ghost state_pre = self.state@;
            let mut r: Relay = self.relays[i];
            proof {
                assert(r == old(self).relays@[i as int]);
                assert(*r.spec == self.spec.relays@[i as int]);
            }
            r.update(&mut self.state, &self.net);
            self.relays[i] = r;
            proof {
                assert(specs0.take(i + 1).drop_last() =~= specs0.take(i as int));
                assert(rts0.take(i + 1).drop_last() =~= rts0.take(i as int));
                assert(specs0.take(i + 1).last() == specs0[i as int]);
                assert(rts0.take(i + 1).last() == rts0[i as int]);
                assert(self.state@ == pass_state(
                    specs0.take(i + 1),
                    rts0.take(i + 1),
                    old(self).state@,
                    self.net@,
                ));
                assert(((self.relays@[i as int]).level, self.relays@[i as int].is_middle)
                    == pass_states(specs0, rts0, self.net@)[i as int]);
            }
            i += 1;
        }
        proof {
            assert(specs0.take(n as int) =~= specs0);
            assert(rts0.take(n as int) =~= rts0);
            assert(relay_states(self.relays@) =~= pass_states(specs0, rts0, self.net@));
        }
    }

    /// One simulation tick: reset the net vector, flood power from the
    /// rail (net index 0) through switches closed at entry, then run one
    /// relay pass on the fresh net values. A net ends up energized exactly
    /// when the power rail reached it; relay contact writes take effect on
    /// the next tick.
    pub fn simulate(&mut self)
        requires
            old(self).wf(),
        ensures
            final(self).wf(),
            final(self).spec == old(self).spec,
            final(self).net@ == old(self).spec.tick_net(old(self).state@),
            relay_states(final(self).relays@) == pass_states(
                old(self).spec.relays@,
                relay_states(old(self).relays@),
                final(self).net@,
            ),
            final(self).state@ == pass_state(
                old(self).spec.relays@,
                relay_states(old(self).relays@),
                old(self).state@,
                final(self).net@,
            ),
    {
        self.clear_net();
        let ghost net_cleared = self.net@;
        self.spec.graph.update(&self.state, &mut self.net, 0);
        proof {
            let g = self.spec.graph;
            let st = self.state@;
            assert forall|j: int| 0 <= j < self.net@.len() implies (#[trigger] self.net@[j])
                == g.connected(st, 0, j) by {
                if self.net@[j] {
                    assert(!net_cleared[j]);
                }
                if g.connected(st, 0, j) {
                    let p = choose|p: Seq<int>|
                        g.is_path(st, p) && p.first() == 0 && p.last() == j;
                    assert forall|a: int, b: int|
                        0 <= a < self.net@.len() && self.net@[a] && 0 <= b < self.net@.len()
                            && #[trigger] g.closed_step(st, a, b) implies self.net@[b] by {
                        assert(!net_cleared[a]);
                    }
                    g.lemma_closed_marking_reaches(st, self.net@, p);
                }
            }
            assert(self.net@ =~= self.spec.tick_net(st));
        }
        self.run_models();
    }
}

/// A vector of `n` de-energized entries.
fn falses(n: usize) -> (v: Vec<bool>)
    ensures
        v@ == Seq::new(n as nat, |i: int| false),
{
    let mut v: Vec<bool> = Vec::new();
    let mut i: usize = 0;
    while i < n
        invariant
            i <= n,
            v@.len() == i,
            forall|j: int| 0 <= j < i ==> !(#[trigger] v@[j]),
        decreases n - i,
    {
        v.push(false);
        i += 1;
    }
    proof {
        assert(v@ =~= Seq::new(n as nat, |i: int| false));
    }
    v
}

impl CircuitSpec {
    /// Allocates a zeroed runtime for this spec and runs one relay pass,
    /// so relay-driven contacts start consistent with an all-false net
    /// vector.
    pub fn build<'b>(&'b self) -> (r: Circuit<'b>)
        requires
            self.wf(),
        ensures
            r.wf(),
            r.spec == self,
            r.net@ == Seq::new(self.nmap@.len(), |i: int| false),
            relay_states(r.relays@) == pass_states(
                self.relays@,
                Seq::new(self.relays@.len(), |i: int| (false, false)),
                r.net@,
            ),
            r.state@ == pass_state(
                self.relays@,
                Seq::new(self.relays@.len(), |i: int| (false, false)),
                Seq::new(self.smap@.len(), |i: int| false),
                r.net@,
            ),
    {
        let state = falses(self.smap.names.len());
        let net_v = falses(self.nmap.names.len());
        let mut relays: Vec<Relay<'b>> = Vec::new();
        let n: usize = self.relays.len();
        let mut i: usize = 0;
        while i < n
            invariant
                n == self.relays@.len(),
                i <= n,
                relays@.len() == i,
                forall|j: int|
                    0 <= j < i ==> {
                        &&& *(#[trigger] relays@[j]).spec == self.relays@[j]
                        &&& relays@[j].level == false
                        &&& relays@[j].is_middle == false
                    },
            decreases n - i,
        {
            let rspec: &relay::Spec = &self.relays[i];
            relays.push(rspec.build());
            i += 1;
        }
        let mut circuit = Circuit { spec: self, state, net: net_v, relays };
        proof {
            assert(circuit.wf());
            assert(relay_states(circuit.relays@) =~= Seq::new(
                self.relays@.len(),
                |i: int| (false, false),
            ));
        }
        circuit.run_models();
        circuit
    }
}

/// One propagation pass marks exactly the reachable set: a net is
/// energized after a tick precisely when some path of closed switches
/// joins it to the power rail, and every unreached net reads false.
pub proof fn lemma_tick_net_exactly_reachable(cs: CircuitSpec, state: Seq<bool>)
    ensures
        cs.tick_net(state).len() == cs.nmap@.len(),
        forall|j: int|
            0 <= j < cs.nmap@.len() ==> (#[trigger] cs.tick_net(state)[j] <==> cs.graph.connected(
                state,
                0,
                j,
            )),
{
}

/// Every relay is settled on its coil's current reading and its contact
/// drives are already written: a fixed point of the relay pass.
pub open spec fn relays_settled(
    specs: Seq<relay::Spec>,
    rts: Seq<(bool, bool)>,
    state: Seq<bool>,
    net_v: Seq<bool>,
) -> bool {
    forall|i: int|
        0 <= i < specs.len() ==> {
            let l = (#[trigger] rts[i]).0;
            &&& !rts[i].1
            &&& l == net_v[specs[i].coil.0 as int]
            &&& state[specs[i].a.0 as int] == l
            &&& state[specs[i].b.0 as int] == !l
        }
}

/// A relay pass run from a settled configuration changes neither the relay
/// runtimes nor the switch states.
pub proof fn lemma_pass_fixed(
    specs: Seq<relay::Spec>,
    rts: Seq<(bool, bool)>,
    state: Seq<bool>,
    net_v: Seq<bool>,
)
    requires
        rts.len() == specs.len(),
        relays_settled(specs, rts, state, net_v),
        forall|i: int|
            0 <= i < specs.len() ==> {
                &&& (#[trigger] specs[i]).coil.0 < net_v.len()
                &&& specs[i].a.0 < state.len()
                &&& specs[i].b.0 < state.len()
            },
    ensures
        pass_state(specs, rts, state, net_v) == state,
        pass_states(specs, rts, net_v) == rts,
    decreases specs.len(),
{
    assert(pass_states(specs, rts, net_v) =~= rts);
    if specs.len() > 0 {
        let k = specs.len() - 1;
        let sp = specs.drop_last();
        let rp = rts.drop_last();
        assert(relays_settled(sp, rp, state, net_v)) by {
            assert(forall|i: int| 0 <= i < sp.len() ==> sp[i] == specs[i] && (#[trigger] rp[i]) == rts[i]);
        }
        lemma_pass_fixed(sp, rp, state, net_v);
        let l = relay::step_level(rts[k].0, rts[k].1, net_v[specs[k].coil.0 as int]);
        let m = relay::step_middle(rts[k].0, rts[k].1, net_v[specs[k].coil.0 as int]);
        assert(l == rts[k].0 && !m);
        assert(pass_state(specs, rts, state, net_v) =~= state);
    }
}

/// With no relays, or with every relay settled against the net values the
/// current switch states produce, one tick returns the very same switch
/// states and relay runtimes, so a second tick computes the same net
/// values: `simulate` is idempotent on such circuits.
pub proof fn lemma_tick_idempotent(cs: CircuitSpec, rts: Seq<(bool, bool)>, state: Seq<bool>)
    requires
        cs.wf(),
        state.len() == cs.smap@.len(),
        rts.len() == cs.relays@.len(),
        cs.relays@.len() == 0 || relays_settled(cs.relays@, rts, state, cs.tick_net(state)),
    ensures
        pass_state(cs.relays@, rts, state, cs.tick_net(state)) == state,
        pass_states(cs.relays@, rts, cs.tick_net(state)) == rts,
        cs.tick_net(pass_state(cs.relays@, rts, state, cs.tick_net(state))) == cs.tick_net(state),
{
    let net_v = cs.tick_net(state);
    if cs.relays@.len() == 0 {
        assert(pass_state(cs.relays@, rts, state, net_v) == state);
        assert(pass_states(cs.relays@, rts, net_v) =~= rts);
    } else {
        lemma_pass_fixed(cs.relays@, rts, state, net_v);
    }
}

/// After recording a new name, its index is the position just filled.
pub proof fn lemma_name_index_push(names: Seq<Seq<char>>, x: Seq<char>)
    requires
        !names.contains(x),
    ensures
        name_index(names.push(x), x) == names.len(),
{
    let ns = names.push(x);
    assert(ns[names.len() as int] == x);
    assert(ns.contains(x));
    lemma_name_index(ns, x);
    let idx = name_index(ns, x);
    if idx < names.len() {
        assert(ns[idx] == x);
        assert(names[idx] == ns[idx]);
        assert(names.contains(x));
    }
}

/// Relay wiring entry `rs` holds the interned indices of netlist relay
/// `re` under interner contents `sm` (states) and `nm` (nets).
pub open spec fn relay_entry_ok(
    rs: relay::Spec,
    re: net::Relay,
    sm: Seq<Seq<char>>,
    nm: Seq<Seq<char>>,
) -> bool {
    &&& rs.a.0 == name_index(sm, re.a@)
    &&& rs.b.0 == name_index(sm, re.b@)
    &&& rs.coil.0 == name_index(nm, re.coil@)
    &&& sm.contains(re.a@)
    &&& sm.contains(re.b@)
    &&& nm.contains(re.coil@)
    &&& rs.a.0 < sm.len()
    &&& rs.b.0 < sm.len()
    &&& rs.coil.0 < nm.len()
}

/// Growing either interner preserves a relay entry's validity.
pub proof fn lemma_relay_entry_grow(
    rs: relay::Spec,
    re: net::Relay,
    sm: Seq<Seq<char>>,
    nm: Seq<Seq<char>>,
    sm2: Seq<Seq<char>>,
    nm2: Seq<Seq<char>>,
)
    requires
        relay_entry_ok(rs, re, sm, nm),
        sm.is_prefix_of(sm2),
        nm.is_prefix_of(nm2),
    ensures
        relay_entry_ok(rs, re, sm2, nm2),
{
    lemma_name_index_prefix(sm, sm2, re.a@);
    lemma_name_index_prefix(sm, sm2, re.b@);
    lemma_name_index_prefix(nm, nm2, re.coil@);
    lemma_name_index(sm2, re.a@);
    lemma_name_index(sm2, re.b@);
    lemma_name_index(nm2, re.coil@);
}

/// Both stored directions of the edge switch `sw` contributes, under
/// interner contents `nm` (nets) and `sm` (states).
pub open spec fn edge_of_switch(
    g: Graph,
    nm: Seq<Seq<char>>,
    sm: Seq<Seq<char>>,
    sw: net::Switch,
) -> bool {
    &&& g.has_edge(name_index(nm, sw.l@), name_index(nm, sw.r@), name_index(sm, sw.state@))
    &&& g.has_edge(name_index(nm, sw.r@), name_index(nm, sw.l@), name_index(sm, sw.state@))
}

/// Edge (a, b, s) is the one switch `sw` contributes, in either direction.
pub open spec fn switch_matches_edge(
    nm: Seq<Seq<char>>,
    sm: Seq<Seq<char>>,
    sw: net::Switch,
    a: int,
    b: int,
    s: int,
) -> bool {
    let li = name_index(nm, sw.l@);
    let ri = name_index(nm, sw.r@);
    let si = name_index(sm, sw.state@);
    &&& s == si
    &&& ((a == li && b == ri) || (a == ri && b == li))
}

/// Compiles a netlist into an immutable circuit spec: registers switch
/// terminal nets first (fixing net indices before the graph is sized),
/// then relay contacts and coils, then adds one deduplicated undirected
/// edge per switch. Never fails: an empty netlist compiles to a circuit
/// holding only the power rail.
#[verifier::rlimit(50)]
pub fn compile(netlist: &net::Netlist) -> (r: CircuitSpec)
    ensures
        r.wf(),
        r.nmap@ == spec_net_names(*netlist),
        r.smap@ == spec_state_names(*netlist),
        r.relays@.len() == netlist.relays@.len(),
        forall|j: int|
            0 <= j < netlist.relays@.len() ==> {
                &&& (#[trigger] r.relays@[j]).coil.0 == name_index(
                    r.nmap@,
                    netlist.relays@[j].coil@,
                )
                &&& r.relays@[j].a.0 == name_index(r.smap@, netlist.relays@[j].a@)
                &&& r.relays@[j].b.0 == name_index(r.smap@, netlist.relays@[j].b@)
            },
        forall|k: int|
            0 <= k < netlist.switches@.len() ==> edge_of_switch(
                r.graph,
                r.nmap@,
                r.smap@,
                #[trigger] netlist.switches@[k],
            ),
        forall|a: int, b: int, s: int|
            #[trigger] r.graph.has_edge(a, b, s) ==> exists|k: int|
                0 <= k < netlist.switches@.len() && switch_matches_edge(
                    r.nmap@,
                    r.smap@,
                    netlist.switches@[k],
                    a,
                    b,
                    s,
                ),
{
    let mut smap = StateMap::default();
    let mut nmap = NetMap::default();
    let ghost base_n = seq![net::V_P@];
    let ghost term_names = switch_terminal_names(netlist.switches@);
    let ghost contact_names = relay_contact_names(netlist.relays@);
    let ghost coil_names = relay_coil_names(netlist.relays@);
    let ghost state_names = switch_state_names(netlist.switches@);
    let nsw: usize = netlist.switches.len();
    let nrl: usize = netlist.relays.len();

    // register every switch's terminal nets
    let mut i: usize = 0;
    proof {
        assert(term_names.take(0) =~= Seq::<Seq<char>>::empty());
        assert(nmap@ == intern_all(term_names.take(0), base_n));
    }
    while i < nsw
        invariant
            nsw == netlist.switches@.len(),
            i <= nsw,
            term_names == switch_terminal_names(netlist.switches@),
            base_n == seq![net::V_P@],
            nmap.wf(),
            nmap@ == intern_all(term_names.take(2 * i as int), base_n),
            smap.wf(),
            smap@ == Seq::<Seq<char>>::empty(),
        decreases nsw - i,
    {
        let sw: &net::Switch = &netlist.switches[i];
        let ghost nm0 = nmap@;
        nmap.by_name(sw.l.as_str());
        proof {
            let t1 = term_names.take(2 * i as int + 1);
            assert(t1.drop_last() =~= term_names.take(2 * i as int));
            assert(t1.last() == term_names[2 * i as int]);
            assert((2 * (i as int)) % 2 == 0);
            assert((2 * (i as int)) / 2 == i as int);
            assert(term_names[2 * i as int] == sw.l@);
            assert(nmap@ == intern_one(nm0, sw.l@));
            assert(nmap@ == intern_all(t1, base_n));
        }
        let ghost nm1 = nmap@;
        nmap.by_name(sw.r.as_str());
        proof {
            let t2 = term_names.take(2 * i as int + 2);
            assert(t2.drop_last() =~= term_names.take(2 * i as int + 1));
            assert(t2.last() == term_names[2 * i as int + 1]);
            assert((2 * (i as int) + 1) % 2 == 1);
            assert((2 * (i as int) + 1) / 2 == i as int);
            assert(term_names[2 * i as int + 1] == sw.r@);
            assert(nmap@ == intern_one(nm1, sw.r@));
            assert(nmap@ == intern_all(t2, base_n));
            assert(2 * ((i + 1) as int) == 2 * i as int + 2);
        }
        i += 1;
    }
    let ghost nmap_t = nmap@;
    proof {
        assert(term_names.take(2 * nsw as int) =~= term_names);
    }

    // build relay wiring entries
    let mut relays: Vec<relay::Spec> = Vec::new();
    let mut i2: usize = 0;
    proof {
        assert(contact_names.take(0) =~= Seq::<Seq<char>>::empty());
        assert(coil_names.take(0) =~= Seq::<Seq<char>>::empty());
        assert(smap@ == intern_all(contact_names.take(0), Seq::<Seq<char>>::empty()));
        assert(nmap@ == intern_all(coil_names.take(0), nmap_t));
    }
    while i2 < nrl
        invariant
            nrl == netlist.relays@.len(),
            i2 <= nrl,
            contact_names == relay_contact_names(netlist.relays@),
            coil_names == relay_coil_names(netlist.relays@),
            smap.wf(),
            nmap.wf(),
            smap@ == intern_all(contact_names.take(2 * i2 as int), Seq::<Seq<char>>::empty()),
            nmap@ == intern_all(coil_names.take(i2 as int), nmap_t),
            relays@.len() == i2,
            forall|j: int|
                0 <= j < i2 ==> relay_entry_ok(
                    #[trigger] relays@[j],
                    netlist.relays@[j],
                    smap@,
                    nmap@,
                ),
        decreases nrl - i2,
    {
        let re: &net::Relay = &netlist.relays[i2];
        let ghost sm0 = smap@;
        let ghost nm_cur = nmap@;
        let a = smap.by_name(re.a.as_str());
        proof {
            let t1 = contact_names.take(2 * i2 as int + 1);
            assert(t1.drop_last() =~= contact_names.take(2 * i2 as int));
            assert(t1.last() == contact_names[2 * i2 as int]);
            assert((2 * (i2 as int)) % 2 == 0);
            assert((2 * (i2 as int)) / 2 == i2 as int);
            assert(contact_names[2 * i2 as int] == re.a@);
            assert(smap@ == intern_one(sm0, re.a@));
            assert(smap@ == intern_all(t1, Seq::<Seq<char>>::empty()));
            if !sm0.contains(re.a@) {
                lemma_name_index(sm0, re.a@);
                lemma_name_index_push(sm0, re.a@);
            }
            assert(a.0 == name_index(smap@, re.a@));
            assert(nmap@.is_prefix_of(nmap@)) by {
                assert(nmap@ =~= nmap@.subrange(0, nmap@.len() as int));
            }
            assert forall|j: int| 0 <= j < i2 implies relay_entry_ok(
                #[trigger] relays@[j],
                netlist.relays@[j],
                smap@,
                nmap@,
            ) by {
                lemma_relay_entry_grow(
                    relays@[j],
                    netlist.relays@[j],
                    sm0,
                    nmap@,
                    smap@,
                    nmap@,
                );
            }
        }
        let ghost sm1 = smap@;
        let b = smap.by_name(re.b.as_str());
        proof {
            let t2 = contact_names.take(2 * i2 as int + 2);
            assert(t2.drop_last() =~= contact_names.take(2 * i2 as int + 1));
            assert(t2.last() == contact_names[2 * i2 as int + 1]);
            assert((2 * (i2 as int) + 1) % 2 == 1);
            assert((2 * (i2 as int) + 1) / 2 == i2 as int);
            assert(contact_names[2 * i2 as int + 1] == re.b@);
            assert(smap@ == intern_one(sm1, re.b@));
            assert(smap@ == intern_all(t2, Seq::<Seq<char>>::empty()));
            assert(2 * ((i2 + 1) as int) == 2 * i2 as int + 2);
            if !sm1.contains(re.b@) {
                lemma_name_index(sm1, re.b@);
                lemma_name_index_push(sm1, re.b@);
            }
            assert(b.0 == name_index(smap@, re.b@));
            lemma_name_index_prefix(sm1, smap@, re.a@);
            assert(a.0 == name_index(smap@, re.a@));
            assert(nmap@.is_prefix_of(nmap@)) by {
                assert(nmap@ =~= nmap@.subrange(0, nmap@.len() as int));
            }
            assert forall|j: int| 0 <= j < i2 implies relay_entry_ok(
                #[trigger] relays@[j],
                netlist.relays@[j],
                smap@,
                nmap@,
            ) by {
                lemma_relay_entry_grow(
                    relays@[j],
                    netlist.relays@[j],
                    sm1,
                    nmap@,
                    smap@,
                    nmap@,
                );
            }
        }
        let coil = nmap.by_name(re.coil.as_str());
        proof {
            let c1 = coil_names.take(i2 as int + 1);
            assert(c1.drop_last() =~= coil_names.take(i2 as int));
            assert(c1.last() == coil_names[i2 as int]);
            assert(coil_names[i2 as int] == re.coil@);
            assert(nmap@ == intern_one(nm_cur, re.coil@));
            assert(nmap@ == intern_all(c1, nmap_t));
            if !nm_cur.contains(re.coil@) {
                lemma_name_index(nm_cur, re.coil@);
                lemma_name_index_push(nm_cur, re.coil@);
            }
            assert(coil.0 == name_index(nmap@, re.coil@));
            assert(smap@.is_prefix_of(smap@)) by {
                assert(smap@ =~= smap@.subrange(0, smap@.len() as int));
            }
            assert forall|j: int| 0 <= j < i2 implies relay_entry_ok(
                #[trigger] relays@[j],
                netlist.relays@[j],
                smap@,
                nmap@,
            ) by {
                lemma_relay_entry_grow(
                    relays@[j],
                    netlist.relays@[j],
                    smap@,
                    nm_cur,
                    smap@,
                    nmap@,
                );
            }
            lemma_name_index(smap@, re.a@);
            lemma_name_index(smap@, re.b@);
            lemma_name_index(nmap@, re.coil@);
        }
        relays.push(relay::Spec { a, b, coil });
        proof {
            assert(relay_entry_ok(relays@[i2 as int], netlist.relays@[i2 as int], smap@, nmap@));
        }
        i2 += 1;
    }
    let ghost smap_c = smap@;
    let ghost nmap_f = nmap@;
    proof {
        assert(coil_names.take(nrl as int) =~= coil_names);
        assert(contact_names.take(2 * nrl as int) =~= contact_names);
        assert forall|k: int|
            0 <= k < nsw implies nmap_f.contains((#[trigger] netlist.switches@[k]).l@)
            && nmap_f.contains(netlist.switches@[k].r@) by {
            assert((2 * k) % 2 == 0);
            assert((2 * k) / 2 == k);
            assert(term_names[2 * k] == netlist.switches@[k].l@);
            assert(term_names.contains(netlist.switches@[k].l@));
            lemma_intern_all_contains(term_names, base_n, netlist.switches@[k].l@);
            lemma_intern_all_contains(coil_names, nmap_t, netlist.switches@[k].l@);
            assert((2 * k + 1) % 2 == 1);
            assert((2 * k + 1) / 2 == k);
            assert(term_names[2 * k + 1] == netlist.switches@[k].r@);
            assert(term_names.contains(netlist.switches@[k].r@));
            lemma_intern_all_contains(term_names, base_n, netlist.switches@[k].r@);
            lemma_intern_all_contains(coil_names, nmap_t, netlist.switches@[k].r@);
        }
    }

    // size the graph over every net and add one edge per switch
    let mut g = Graph::new(nmap.names.len());
    let mut i3: usize = 0;
    proof {
        assert(state_names.take(0) =~= Seq::<Seq<char>>::empty());
        assert(smap@ == intern_all(state_names.take(0), smap_c));
        assert(smap_c.is_prefix_of(smap@)) by {
            assert(smap_c =~= smap@.subrange(0, smap_c.len() as int));
        }
    }
    while i3 < nsw
        invariant
            nsw == netlist.switches@.len(),
            nrl == netlist.relays@.len(),
            state_names == switch_state_names(netlist.switches@),
            i3 <= nsw,
            smap.wf(),
            nmap.wf(),
            nmap@ == nmap_f,
            smap@ == intern_all(state_names.take(i3 as int), smap_c),
            smap_c.is_prefix_of(smap@),
            g@.len() == nmap_f.len(),
            g.wf(smap@.len() as nat),
            relays@.len() == nrl,
            forall|j: int|
                0 <= j < nrl ==> relay_entry_ok(
                    #[trigger] relays@[j],
                    netlist.relays@[j],
                    smap@,
                    nmap@,
                ),
            forall|k: int|
                0 <= k < nsw ==> nmap_f.contains((#[trigger] netlist.switches@[k]).l@)
                    && nmap_f.contains(netlist.switches@[k].r@),
            forall|k: int|
                0 <= k < i3 ==> edge_of_switch(g, nmap@, smap@, #[trigger] netlist.switches@[k])
                    && smap@.contains(netlist.switches@[k].state@),
            forall|a: int, b: int, s: int|
                #[trigger] g.has_edge(a, b, s) ==> exists|k: int|
                    0 <= k < i3 && switch_matches_edge(
                        nmap@,
                        smap@,
                        netlist.switches@[k],
                        a,
                        b,
                        s,
                    ),
        decreases nsw - i3,
    {
        let sw: &net::Switch = &netlist.switches[i3];
        let ghost sm0 = smap@;
        let sref = smap.by_name(sw.state.as_str());
        proof {
            let t1 = state_names.take(i3 as int + 1);
            assert(t1.drop_last() =~= state_names.take(i3 as int));
            assert(t1.last() == state_names[i3 as int]);
            assert(state_names[i3 as int] == sw.state@);
            assert(smap@ == intern_one(sm0, sw.state@));
            assert(smap@ == intern_all(t1, smap_c));
            if !sm0.contains(sw.state@) {
                lemma_name_index(sm0, sw.state@);
                lemma_name_index_push(sm0, sw.state@);
            }
            assert(sref.0 == name_index(smap@, sw.state@));
            assert(smap@.contains(sw.state@));
            assert(smap_c.is_prefix_of(smap@)) by {
                assert(smap_c =~= smap@.subrange(0, smap_c.len() as int));
            }
            assert(nmap@.is_prefix_of(nmap@)) by {
                assert(nmap@ =~= nmap@.subrange(0, nmap@.len() as int));
            }
            assert forall|j: int| 0 <= j < nrl implies relay_entry_ok(
                #[trigger] relays@[j],
                netlist.relays@[j],
                smap@,
                nmap@,
            ) by {
                lemma_relay_entry_grow(
                    relays@[j],
                    netlist.relays@[j],
                    sm0,
                    nmap@,
                    smap@,
                    nmap@,
                );
            }
            assert forall|k: int|
                0 <= k < i3 implies edge_of_switch(
                g,
                nmap@,
                smap@,
                #[trigger] netlist.switches@[k],
            ) && smap@.contains(netlist.switches@[k].state@) by {
                lemma_name_index_prefix(sm0, smap@, netlist.switches@[k].state@);
            }
            assert forall|a: int, b: int, s: int| #[trigger] g.has_edge(a, b, s) implies exists|
                k: int,
            |
                0 <= k < i3 && switch_matches_edge(
                    nmap@,
                    smap@,
                    netlist.switches@[k],
                    a,
                    b,
                    s,
                ) by {
                let k0 = choose|k0: int|
                    0 <= k0 < i3 && switch_matches_edge(
                        nmap@,
                        sm0,
                        netlist.switches@[k0],
                        a,
                        b,
                        s,
                    );
                lemma_name_index_prefix(sm0, smap@, netlist.switches@[k0].state@);
                assert(switch_matches_edge(nmap@, smap@, netlist.switches@[k0], a, b, s));
            }
            assert forall|ii: int, jj: int|
                0 <= ii < g@.len() && 0 <= jj < g@[ii].len() implies {
                &&& (#[trigger] g@[ii][jj]).node_idx < g@.len()
                &&& g@[ii][jj].sref.0 < smap@.len()
            } by {
                assert(g.wf(sm0.len() as nat));
                assert(sm0.len() <= smap@.len());
            }
            assert(g.wf(smap@.len() as nat));
        }
        let l_nref = nmap.by_name(sw.l.as_str());
        let r_nref = nmap.by_name(sw.r.as_str());
        proof {
            assert(nmap@ == nmap_f);
            assert(l_nref.0 == name_index(nmap_f, sw.l@));
            assert(r_nref.0 == name_index(nmap_f, sw.r@));
        }
        let ghost g0 = g;
        g.add_edge(l_nref.idx(), r_nref.idx(), sref);
        proof {
            let li = l_nref.0 as int;
            let ri = r_nref.0 as int;
            let si = sref.0 as int;
            if g0.has_edge(li, ri, si) {
                let k0 = choose|k0: int|
                    0 <= k0 < i3 && switch_matches_edge(
                        nmap@,
                        smap@,
                        netlist.switches@[k0],
                        li,
                        ri,
                        si,
                    );
                assert(edge_of_switch(g0, nmap@, smap@, netlist.switches@[k0]));
                assert(g0.has_edge(ri, li, si));
            }
            assert(g.has_edge(li, ri, si));
            assert(g.has_edge(ri, li, si));
            assert(edge_of_switch(g, nmap@, smap@, netlist.switches@[i3 as int]));
            assert forall|k: int|
                0 <= k < i3 + 1 implies edge_of_switch(
                g,
                nmap@,
                smap@,
                #[trigger] netlist.switches@[k],
            ) && smap@.contains(netlist.switches@[k].state@) by {
                if k < i3 {
                    assert(edge_of_switch(g0, nmap@, smap@, netlist.switches@[k]));
                }
            }
            assert forall|a: int, b: int, s: int| #[trigger] g.has_edge(a, b, s) implies exists|
                k: int,
            |
                0 <= k < i3 + 1 && switch_matches_edge(
                    nmap@,
                    smap@,
                    netlist.switches@[k],
                    a,
                    b,
                    s,
                ) by {
                if g0.has_edge(a, b, s) {
                    let k0 = choose|k0: int|
                        0 <= k0 < i3 && switch_matches_edge(
                            nmap@,
                            smap@,
                            netlist.switches@[k0],
                            a,
                            b,
                            s,
                        );
                    assert(0 <= k0 < i3 + 1 && switch_matches_edge(
                        nmap@,
                        smap@,
                        netlist.switches@[k0],
                        a,
                        b,
                        s,
                    ));
                } else {
                    assert((a == li && b == ri && s == si) || (a == ri && b == li && s == si));
                    assert(switch_matches_edge(
                        nmap@,
                        smap@,
                        netlist.switches@[i3 as int],
                        a,
                        b,
                        s,
                    ));
                }
            }
            assert(g.wf(smap@.len() as nat));
        }
        i3 += 1;
    }
    proof {
        assert(state_names.take(nsw as int) =~= state_names);
    }
    let r = CircuitSpec { smap, nmap, graph: g, relays };
    proof {
        lemma_intern_all_prefix(term_names, base_n);
        lemma_intern_all_prefix(coil_names, nmap_t);
        assert(base_n[0] == nmap_t[0]);
        assert(nmap_t[0] == nmap_f[0]);
        assert(r.nmap@[0] == net::V_P@);
        assert(r.nmap@.len() >= 1);
        assert(r.nmap@ == spec_net_names(*netlist));
        assert(r.smap@ == spec_state_names(*netlist));
        assert forall|j: int|
            0 <= j < netlist.relays@.len() implies {
            &&& (#[trigger] r.relays@[j]).coil.0 == name_index(r.nmap@, netlist.relays@[j].coil@)
            &&& r.relays@[j].a.0 == name_index(r.smap@, netlist.relays@[j].a@)
            &&& r.relays@[j].b.0 == name_index(r.smap@, netlist.relays@[j].b@)
        } by {
            assert(relay_entry_ok(r.relays@[j], netlist.relays@[j], r.smap@, r.nmap@));
        }
        assert(r.wf());
    }
    r
}

} // verus!
