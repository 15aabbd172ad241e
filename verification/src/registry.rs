//! The controller's bookkeeping: which applications may register, which are registered
//! with which priority level, and which connections they own.

use vstd::prelude::*;

use crate::clustering::{ApplicationCluster, ClusteringError};
use crate::connection::Connection;
use crate::text::string_views;

verus! {

/// Why the controller refused a request or its settings.
#[derive(Debug, Clone, PartialEq)]
pub enum ControllerError {
    UnknownApplication(String),
    NotRegistered(String),
    Clustering(ClusteringError),
    InvalidSettings(&'static str),
}

/// The controller's records as plain values.
pub struct RegistryView {
    pub known: Set<Seq<char>>,
    pub registered: Map<Seq<char>, u8>,
    pub connections: Map<(Seq<char>, Seq<char>), Seq<char>>,
}

/// A registration request: known applications get priority level 0 when they first
/// register; registering again changes nothing.
pub open spec fn register_spec(v: RegistryView, name: Seq<char>) -> Option<RegistryView> {
    if !v.known.contains(name) {
        None
    } else if v.registered.contains_key(name) {
        Some(v)
    } else {
        Some(RegistryView { registered: v.registered.insert(name, 0u8), ..v })
    }
}

/// The connections not owned by `name`.
pub open spec fn connections_without(
    c: Map<(Seq<char>, Seq<char>), Seq<char>>,
    name: Seq<char>,
) -> Map<(Seq<char>, Seq<char>), Seq<char>> {
    Map::new(|k: (Seq<char>, Seq<char>)| c.contains_key(k) && c[k] != name, |k: (Seq<char>, Seq<char>)| c[k])
}

/// A deregistration: the application and every connection it owns are forgotten.
pub open spec fn deregister_spec(v: RegistryView, name: Seq<char>) -> Option<RegistryView> {
    if !v.registered.contains_key(name) {
        None
    } else {
        Some(
            RegistryView {
                registered: v.registered.remove(name),
                connections: connections_without(v.connections, name),
                ..v
            },
        )
    }
}

/// A new connection, owned by a registered application; it replaces any record of the
/// same endpoints.
pub open spec fn add_connection_spec(
    v: RegistryView,
    app: Seq<char>,
    k: (Seq<char>, Seq<char>),
) -> Option<RegistryView> {
    if !v.registered.contains_key(app) {
        None
    } else {
        Some(RegistryView { connections: v.connections.insert(k, app), ..v })
    }
}

/// A connection's end, whoever owned it.
pub open spec fn remove_connection_spec(v: RegistryView, k: (Seq<char>, Seq<char>)) -> Option<
    RegistryView,
> {
    if !v.connections.contains_key(k) {
        None
    } else {
        Some(RegistryView { connections: v.connections.remove(k), ..v })
    }
}

/// The priority level of the last cluster that lists `name`.
pub open spec fn last_level(cs: Seq<(u8, Seq<Seq<char>>)>, name: Seq<char>) -> Option<u8>
    decreases cs.len(),
{
    if cs.len() == 0 {
        None
    } else if cs.last().1.contains(name) {
        Some(cs.last().0)
    } else {
        last_level(cs.drop_last(), name)
    }
}

/// The clusters' levels and member names.
pub open spec fn cluster_levels<C>(cs: Seq<ApplicationCluster<C>>) -> Seq<(u8, Seq<Seq<char>>)> {
    cs.map_values(|c: ApplicationCluster<C>| (c.priority_level, string_views(c.applications@)))
}

/// Registered applications take the level of the last cluster that lists them.
pub open spec fn apply_levels_spec(v: RegistryView, cs: Seq<(u8, Seq<Seq<char>>)>) -> RegistryView {
    RegistryView {
        registered: Map::new(
            |n: Seq<char>| v.registered.contains_key(n),
            |n: Seq<char>|
                match last_level(cs, n) {
                    Some(l) => l,
                    None => v.registered[n],
                },
        ),
        ..v
    }
}

/// In a sequence without repeats, an element's index is its position.
pub proof fn lemma_index_of_unique<A>(s: Seq<A>, i: int)
    requires
        s.no_duplicates(),
        0 <= i < s.len(),
    ensures
        s.contains(s[i]),
        s.index_of(s[i]) == i,
{
    assert(s.contains(s[i]));
}

/// A registered application and its priority level.
#[derive(Debug, Clone)]
pub struct RegisteredApplication {
    pub name: String,
    pub priority_level: u8,
}

/// The names of the registrations, in order.
pub open spec fn reg_names(rs: Seq<RegisteredApplication>) -> Seq<Seq<char>> {
    rs.map_values(|r: RegisteredApplication| r.name@)
}

/// The priority levels of the registrations, in order.
pub open spec fn reg_levels(rs: Seq<RegisteredApplication>) -> Seq<u8> {
    rs.map_values(|r: RegisteredApplication| r.priority_level)
}

/// The map that pairs each key with the value at the same position.
pub open spec fn assoc<K, V>(keys: Seq<K>, vals: Seq<V>) -> Map<K, V> {
    Map::new(|k: K| keys.contains(k), |k: K| vals[keys.index_of(k)])
}

/// The registrations as a map from name to priority level.
pub open spec fn reg_map(rs: Seq<RegisteredApplication>) -> Map<Seq<char>, u8> {
    assoc(reg_names(rs), reg_levels(rs))
}

/// The endpoints of the connection records, in order.
pub open spec fn conn_keys(cs: Seq<(Connection, String)>) -> Seq<(Seq<char>, Seq<char>)> {
    cs.map_values(|c: (Connection, String)| c.0@)
}

/// The owners of the connection records, in order.
pub open spec fn conn_owners(cs: Seq<(Connection, String)>) -> Seq<Seq<char>> {
    cs.map_values(|c: (Connection, String)| c.1@)
}

/// The connection records as a map from endpoints to owner.
pub open spec fn conn_map(cs: Seq<(Connection, String)>) -> Map<(Seq<char>, Seq<char>), Seq<char>> {
    assoc(conn_keys(cs), conn_owners(cs))
}

/// Adding a connection owned by someone else than `name` commutes with forgetting the
/// connections of `name`; adding one of `name`'s is undone by it.
pub proof fn lemma_without_insert(
    m: Map<(Seq<char>, Seq<char>), Seq<char>>,
    k: (Seq<char>, Seq<char>),
    o: Seq<char>,
    name: Seq<char>,
)
    requires
        !m.contains_key(k),
    ensures
        connections_without(m.insert(k, o), name) == if o != name {
            connections_without(m, name).insert(k, o)
        } else {
            connections_without(m, name)
        },
{
    if o != name {
        assert(connections_without(m.insert(k, o), name) =~= connections_without(m, name).insert(k, o));
    } else {
        assert(connections_without(m.insert(k, o), name) =~= connections_without(m, name));
    }
}

/// A key without repeats maps to the value at its position.
pub proof fn lemma_assoc_at<K, V>(keys: Seq<K>, vals: Seq<V>, i: int)
    requires
        keys.no_duplicates(),
        keys.len() == vals.len(),
        0 <= i < keys.len(),
    ensures
        assoc(keys, vals).contains_key(keys[i]),
        assoc(keys, vals)[keys[i]] == vals[i],
{
    lemma_index_of_unique(keys, i);
}

/// Appending a new key and value inserts them into the map.
pub proof fn lemma_assoc_push<K, V>(keys: Seq<K>, vals: Seq<V>, k: K, v: V)
    requires
        keys.no_duplicates(),
        keys.len() == vals.len(),
        !keys.contains(k),
    ensures
        keys.push(k).no_duplicates(),
        assoc(keys.push(k), vals.push(v)) == assoc(keys, vals).insert(k, v),
{
    let k2 = keys.push(k);
    let v2 = vals.push(v);
    assert(k2.no_duplicates()) by {
        assert forall|a: int, b: int| 0 <= a < k2.len() && 0 <= b < k2.len() && a != b implies k2[a] != k2[b] by {
            if a < keys.len() && b < keys.len() {
            } else if a < keys.len() {
                assert(keys.contains(keys[a]));
            } else if b < keys.len() {
                assert(keys.contains(keys[b]));
            }
        }
    }
    assert forall|x: K| #[trigger] k2.contains(x) == (keys.contains(x) || x == k) by {
        if k2.contains(x) {
            let a = choose|a: int| 0 <= a < k2.len() && k2[a] == x;
            if a < keys.len() {
                assert(keys[a] == x);
            }
        }
        if keys.contains(x) {
            let a = choose|a: int| 0 <= a < keys.len() && keys[a] == x;
            assert(k2[a] == x);
        }
        if x == k {
            assert(k2[keys.len() as int] == k);
        }
    }
    assert forall|x: K| #[trigger] k2.contains(x) implies assoc(k2, v2)[x] == assoc(keys, vals).insert(k, v)[x] by {
        if x == k {
            lemma_index_of_unique(k2, keys.len() as int);
        } else {
            let a = choose|a: int| 0 <= a < keys.len() && keys[a] == x;
            lemma_index_of_unique(keys, a);
            assert(k2[a] == x);
            lemma_index_of_unique(k2, a);
        }
    }
    assert(assoc(k2, v2) =~= assoc(keys, vals).insert(k, v));
}

/// Removing position `i` removes its key from the map.
pub proof fn lemma_assoc_remove<K, V>(keys: Seq<K>, vals: Seq<V>, i: int)
    requires
        keys.no_duplicates(),
        keys.len() == vals.len(),
        0 <= i < keys.len(),
    ensures
        keys.remove(i).no_duplicates(),
        assoc(keys.remove(i), vals.remove(i)) == assoc(keys, vals).remove(keys[i]),
{
    let k2 = keys.remove(i);
    let v2 = vals.remove(i);
    assert forall|a: int| 0 <= a < k2.len() implies #[trigger] k2[a] == keys[if a < i { a } else { a + 1 }] by {}
    assert(k2.no_duplicates()) by {
        assert forall|a: int, b: int| 0 <= a < k2.len() && 0 <= b < k2.len() && a != b implies k2[a] != k2[b] by {
            let a2 = if a < i { a } else { a + 1 };
            let b2 = if b < i { b } else { b + 1 };
            assert(k2[a] == keys[a2]);
            assert(k2[b] == keys[b2]);
        }
    }
    assert forall|x: K| #[trigger] k2.contains(x) == (keys.contains(x) && x != keys[i]) by {
        if k2.contains(x) {
            let a = choose|a: int| 0 <= a < k2.len() && k2[a] == x;
            let a2 = if a < i { a } else { a + 1 };
            assert(keys[a2] == x);
        }
        if keys.contains(x) && x != keys[i] {
            let a = choose|a: int| 0 <= a < keys.len() && keys[a] == x;
            if a < i {
                assert(k2[a] == x);
            } else {
                assert(a != i);
                assert(k2[a - 1] == x);
            }
        }
    }
    assert forall|x: K| #[trigger] k2.contains(x) implies assoc(k2, v2)[x] == assoc(keys, vals)[x] by {
        let a = choose|a: int| 0 <= a < k2.len() && k2[a] == x;
        let a2 = if a < i { a } else { a + 1 };
        lemma_index_of_unique(k2, a);
        lemma_index_of_unique(keys, a2);
        assert(v2[a] == vals[a2]);
    }
    assert(assoc(k2, v2) =~= assoc(keys, vals).remove(keys[i]));
}

/// Changing the value at position `i` changes what its key maps to.
pub proof fn lemma_assoc_update<K, V>(keys: Seq<K>, vals: Seq<V>, i: int, v: V)
    requires
        keys.no_duplicates(),
        keys.len() == vals.len(),
        0 <= i < keys.len(),
    ensures
        assoc(keys, vals.update(i, v)) == assoc(keys, vals).insert(keys[i], v),
{
    assert forall|x: K| #[trigger] keys.contains(x) implies assoc(keys, vals.update(i, v))[x] == assoc(
        keys,
        vals,
    ).insert(keys[i], v)[x] by {
        let a = choose|a: int| 0 <= a < keys.len() && keys[a] == x;
        lemma_index_of_unique(keys, a);
    }
    assert(keys.contains(keys[i]));
    assert(assoc(keys, vals.update(i, v)) =~= assoc(keys, vals).insert(keys[i], v));
}

/// The controller's records.
#[derive(Debug)]
pub struct Registry {
    known: Vec<String>,
    registered: Vec<RegisteredApplication>,
    connections: Vec<(Connection, String)>,
}

impl Registry {
    /// Names and endpoints occur once, and every connection's owner is registered.
    #[verifier::type_invariant]
    spec fn wf(&self) -> bool {
        &&& reg_names(self.registered@).no_duplicates()
        &&& conn_keys(self.connections@).no_duplicates()
        &&& forall|i: int|
            0 <= i < self.connections@.len() ==> reg_names(self.registered@).contains(
                #[trigger] self.connections@[i].1@,
            )
    }

    /// The records as plain values.
    pub closed spec fn view(&self) -> RegistryView {
        RegistryView {
            known: string_views(self.known@).to_set(),
            registered: reg_map(self.registered@),
            connections: conn_map(self.connections@),
        }
    }

    /// Whether `name` is in the sensitivity table.
    fn is_known(&self, name: &String) -> (res: bool)
        ensures
            res == self@.known.contains(name@),
    {
        let mut i: usize = 0;
        while i < self.known.len()
            invariant
                i <= self.known@.len(),
                forall|j: int| 0 <= j < i ==> self.known@[j]@ != name@,
            decreases self.known@.len() - i,
        {
            if self.known[i] == *name {
                proof {
                    assert(string_views(self.known@)[i as int] == name@);
                    assert(string_views(self.known@).contains(name@));
                }
                return true;
            }
            i = i + 1;
        }
        proof {
            if string_views(self.known@).contains(name@) {
                let j = choose|j: int| 0 <= j < string_views(self.known@).len() && string_views(self.known@)[j] == name@;
                assert(self.known@[j]@ == name@);
            }
        }
        false
    }

    /// The position of the registration of `name`.
    fn reg_position(&self, name: &String) -> (res: Option<usize>)
        ensures
            match res {
                Some(i) => i < self.registered@.len() && reg_names(self.registered@)[i as int] == name@,
                None => !reg_names(self.registered@).contains(name@),
            },
    {
        let mut i: usize = 0;
        while i < self.registered.len()
            invariant
                i <= self.registered@.len(),
                forall|j: int| 0 <= j < i ==> self.registered@[j].name@ != name@,
            decreases self.registered@.len() - i,
        {
            if self.registered[i].name == *name {
                return Some(i);
            }
            i = i + 1;
        }
        proof {
            if reg_names(self.registered@).contains(name@) {
                let j = choose|j: int| 0 <= j < reg_names(self.registered@).len() && reg_names(self.registered@)[j] == name@;
                assert(self.registered@[j].name@ == name@);
            }
        }
        None
    }

    /// The position of the record of connection `c`.
    fn conn_position(&self, c: &Connection) -> (res: Option<usize>)
        ensures
            match res {
                Some(i) => i < self.connections@.len() && conn_keys(self.connections@)[i as int] == c@,
                None => !conn_keys(self.connections@).contains(c@),
            },
    {
        let mut i: usize = 0;
        while i < self.connections.len()
            invariant
                i <= self.connections@.len(),
                forall|j: int| 0 <= j < i ==> self.connections@[j].0@ != c@,
            decreases self.connections@.len() - i,
        {
            if self.connections[i].0.same_as(c) {
                return Some(i);
            }
            i = i + 1;
        }
        proof {
            if conn_keys(self.connections@).contains(c@) {
                let j = choose|j: int| 0 <= j < conn_keys(self.connections@).len() && conn_keys(self.connections@)[j] == c@;
                assert(self.connections@[j].0@ == c@);
            }
        }
        None
    }

    /// Registers a known application; see [`register_spec`].
    pub fn register(&mut self, name: &str) -> (res: Result<(), ControllerError>)
        ensures
            match register_spec(old(self)@, name@) {
                Some(v) => res is Ok && final(self)@ == v,
                None => final(self)@ == old(self)@ && (res matches Err(
                    ControllerError::UnknownApplication(n),
                ) && n@ == name@),
            },
    {
        proof {
            use_type_invariant(&*self);
        }
        let n = name.to_owned();
        if !self.is_known(&n) {
            return Err(ControllerError::UnknownApplication(n));
        }
        match self.reg_position(&n) {
            Some(i) => {
                proof {
                    assert(reg_names(self.registered@).contains(name@));
                }
                Ok(())
            },
            None => {
                let ghost rs = self.registered@;
                let app = RegisteredApplication { name: n, priority_level: 0 };
                proof {
                    let rs2 = rs.push(app);
                    assert(reg_names(rs2) =~= reg_names(rs).push(name@));
                    assert(reg_levels(rs2) =~= reg_levels(rs).push(0u8));
                    lemma_assoc_push(reg_names(rs), reg_levels(rs), name@, 0u8);
                    assert(reg_names(rs2).no_duplicates()) by {
                        assert forall|a: int, b: int|
                            0 <= a < reg_names(rs2).len() && 0 <= b < reg_names(rs2).len() && a != b implies reg_names(rs2)[a]
                            != reg_names(rs2)[b] by {
                            if a < rs.len() && b < rs.len() {
                            } else if a < rs.len() {
                                assert(reg_names(rs).contains(reg_names(rs)[a]));
                            } else {
                                assert(reg_names(rs).contains(reg_names(rs)[b]));
                            }
                        }
                    }
                    assert forall|i: int| 0 <= i < self.connections@.len() implies reg_names(rs2).contains(
                        #[trigger] self.connections@[i].1@,
                    ) by {
                        let j = choose|j: int| 0 <= j < reg_names(rs).len() && reg_names(rs)[j] == self.connections@[i].1@;
                        assert(reg_names(rs2)[j] == reg_names(rs)[j]);
                    }
                }
                let mut conns: Vec<(Connection, String)> = Vec::new();
                std::mem::swap(&mut conns, &mut self.connections);
                let mut regs: Vec<RegisteredApplication> = Vec::new();
                std::mem::swap(&mut regs, &mut self.registered);
                regs.push(app);
                self.registered = regs;
                self.connections = conns;
                Ok(())
            },
        }
    }

    /// Deregisters an application and forgets its connections; see [`deregister_spec`].
    pub fn deregister(&mut self, name: &str) -> (res: Result<(), ControllerError>)
        ensures
            match deregister_spec(old(self)@, name@) {
                Some(v) => res is Ok && final(self)@ == v,
                None => final(self)@ == old(self)@ && (res matches Err(ControllerError::NotRegistered(n))
                    && n@ == name@),
            },
    {
        proof {
            use_type_invariant(&*self);
        }
        let n = name.to_owned();
        let i = match self.reg_position(&n) {
            Some(i) => i,
            None => {
                return Err(ControllerError::NotRegistered(n));
            },
        };
        let ghost rs = self.registered@;
        let ghost old_conns = self.connections@;
        let ghost keys = conn_keys(old_conns);
        let ghost owners = conn_owners(old_conns);
        let mut kept: Vec<(Connection, String)> = Vec::new();
        let mut conns: Vec<(Connection, String)> = Vec::new();
        std::mem::swap(&mut conns, &mut self.connections);
        let total = conns.len();
        let mut j: usize = 0;
        assert(keys.take(0) =~= Seq::<(Seq<char>, Seq<char>)>::empty());
        assert(assoc(conn_keys(kept@), conn_owners(kept@)) =~= connections_without(
            assoc(keys.take(0), owners.take(0)),
            name@,
        ));
        while conns.len() > 0
            invariant
                total == old_conns.len(),
                n@ == name@,
                j + conns@.len() == total,
                keys == conn_keys(old_conns),
                owners == conn_owners(old_conns),
                keys.no_duplicates(),
                forall|t: int| 0 <= t < conns@.len() ==> #[trigger] conns@[t] == old_conns[j + t],
                conn_keys(kept@).no_duplicates(),
                forall|x: (Seq<char>, Seq<char>)| #[trigger]
                    conn_keys(kept@).contains(x) ==> keys.take(j as int).contains(x),
                forall|t: int| 0 <= t < kept@.len() ==> (#[trigger] kept@[t]).1@ != name@,
                forall|t: int|
                    0 <= t < kept@.len() ==> reg_names(rs).contains(#[trigger] kept@[t].1@),
                assoc(conn_keys(kept@), conn_owners(kept@)) == connections_without(
                    assoc(keys.take(j as int), owners.take(j as int)),
                    name@,
                ),
                forall|t: int| 0 <= t < old_conns.len() ==> reg_names(rs).contains(#[trigger] old_conns[t].1@),
            decreases conns@.len(),
        {
            let c = conns.remove(0);
            let ghost k = c.0@;
            let ghost o = c.1@;
            proof {
                assert(c == old_conns[j as int]);
                assert(keys.take(j + 1) =~= keys.take(j as int).push(k));
                assert(owners.take(j + 1) =~= owners.take(j as int).push(o));
                assert(keys.take(j as int).no_duplicates());
                assert(!keys.take(j as int).contains(k)) by {
                    if keys.take(j as int).contains(k) {
                        let a = choose|a: int| 0 <= a < j && keys.take(j as int)[a] == k;
                        assert(keys[a] == keys[j as int]);
                    }
                }
                lemma_assoc_push(keys.take(j as int), owners.take(j as int), k, o);
                assert(assoc(keys.take(j + 1), owners.take(j + 1)) == assoc(keys.take(j as int), owners.take(j as int)).insert(k, o));
                lemma_without_insert(assoc(keys.take(j as int), owners.take(j as int)), k, o, name@);
                assert(reg_names(rs).contains(o));
            }
            if !(c.1 == n) {
                let ghost kk = conn_keys(kept@);
                let ghost ko = conn_owners(kept@);
                proof {
                    assert(!kk.contains(k));
                    lemma_assoc_push(kk, ko, k, o);
                }
                kept.push(c);
                proof {
                    assert(conn_keys(kept@) =~= kk.push(k));
                    assert(conn_owners(kept@) =~= ko.push(o));
                    assert(connections_without(assoc(keys.take(j + 1), owners.take(j + 1)), name@) =~= connections_without(
                        assoc(keys.take(j as int), owners.take(j as int)),
                        name@,
                    ).insert(k, o));
                    assert forall|x: (Seq<char>, Seq<char>)| #[trigger]
                        conn_keys(kept@).contains(x) implies keys.take(j + 1).contains(x) by {
                        let a = choose|a: int| 0 <= a < conn_keys(kept@).len() && conn_keys(kept@)[a] == x;
                        if a < kk.len() {
                            assert(kk[a] == x);
                            assert(kk.contains(x));
                            let b = choose|b: int| 0 <= b < j && keys.take(j as int)[b] == x;
                            assert(keys.take(j + 1)[b] == x);
                        } else {
                            assert(keys.take(j + 1)[j as int] == x);
                        }
                    }
                }
            } else {
                proof {
                    assert(connections_without(assoc(keys.take(j + 1), owners.take(j + 1)), name@) =~= connections_without(
                        assoc(keys.take(j as int), owners.take(j as int)),
                        name@,
                    ));
                    assert forall|x: (Seq<char>, Seq<char>)| #[trigger]
                        conn_keys(kept@).contains(x) implies keys.take(j + 1).contains(x) by {
                        let b = choose|b: int| 0 <= b < j && keys.take(j as int)[b] == x;
                        assert(keys.take(j + 1)[b] == x);
                    }
                }
            }
            j = j + 1;
        }
        proof {
            assert(keys.take(total as int) =~= keys);
            assert(owners.take(total as int) =~= owners);
            let rs2 = rs.remove(i as int);
            assert(reg_names(rs2) =~= reg_names(rs).remove(i as int));
            assert(reg_levels(rs2) =~= reg_levels(rs).remove(i as int));
            lemma_assoc_remove(reg_names(rs), reg_levels(rs), i as int);
            assert(reg_names(rs2).no_duplicates()) by {
                assert forall|a: int, b: int|
                    0 <= a < reg_names(rs2).len() && 0 <= b < reg_names(rs2).len() && a != b implies reg_names(rs2)[a]
                    != reg_names(rs2)[b] by {
                    let a1 = if a < i { a } else { a + 1 };
                    let b1 = if b < i { b } else { b + 1 };
                    assert(reg_names(rs2)[a] == reg_names(rs)[a1]);
                    assert(reg_names(rs2)[b] == reg_names(rs)[b1]);
                }
            }
            assert forall|t: int| 0 <= t < kept@.len() implies reg_names(rs2).contains(
                #[trigger] kept@[t].1@,
            ) by {
                let x = kept@[t].1@;
                let a = choose|a: int| 0 <= a < reg_names(rs).len() && reg_names(rs)[a] == x;
                assert(a != i);
                if a < i {
                    assert(reg_names(rs2)[a] == x);
                } else {
                    assert(reg_names(rs2)[a - 1] == x);
                }
            }
        }
        let mut regs: Vec<RegisteredApplication> = Vec::new();
        std::mem::swap(&mut regs, &mut self.registered);
        regs.remove(i);
        self.registered = regs;
        self.connections = kept;
        Ok(())
    }

    /// Records a connection owned by a registered application; see [`add_connection_spec`].
    pub fn add_connection(&mut self, app: &str, src: &str, dst: &str) -> (res: Result<(), ControllerError>)
        ensures
            match add_connection_spec(old(self)@, app@, (src@, dst@)) {
                Some(v) => res is Ok && final(self)@ == v,
                None => final(self)@ == old(self)@ && (res matches Err(ControllerError::NotRegistered(n))
                    && n@ == app@),
            },
    {
        proof {
            use_type_invariant(&*self);
        }
        let a = app.to_owned();
        if self.reg_position(&a).is_none() {
            return Err(ControllerError::NotRegistered(a));
        }
        proof {
            assert(reg_names(self.registered@).contains(app@));
        }
        let c = Connection::new(src.to_owned(), dst.to_owned());
        let ghost cs = self.connections@;
        let ghost rn = reg_names(self.registered@);
        let pos = self.conn_position(&c);
        let mut conns: Vec<(Connection, String)> = Vec::new();
        std::mem::swap(&mut conns, &mut self.connections);
        match pos {
            Some(i) => {
                let old_c = Connection::new(src.to_owned(), dst.to_owned());
                conns.set(i, (old_c, a));
                proof {
                    let cs2 = conns@;
                    assert(conn_keys(cs2) =~= conn_keys(cs));
                    assert(conn_owners(cs2) =~= conn_owners(cs).update(i as int, app@));
                    lemma_assoc_update(conn_keys(cs), conn_owners(cs), i as int, app@);
                    assert forall|t: int| 0 <= t < cs2.len() implies rn.contains(#[trigger] cs2[t].1@) by {
                        if t != i {
                            assert(cs2[t] == cs[t]);
                        }
                    }
                }
            },
            None => {
                conns.push((c, a));
                proof {
                    let cs2 = conns@;
                    assert(conn_keys(cs2) =~= conn_keys(cs).push((src@, dst@)));
                    assert(conn_owners(cs2) =~= conn_owners(cs).push(app@));
                    lemma_assoc_push(conn_keys(cs), conn_owners(cs), (src@, dst@), app@);
                    assert(conn_keys(cs2).no_duplicates()) by {
                        assert forall|x: int, y: int|
                            0 <= x < conn_keys(cs2).len() && 0 <= y < conn_keys(cs2).len() && x != y implies conn_keys(cs2)[x]
                            != conn_keys(cs2)[y] by {
                            if x < cs.len() && y < cs.len() {
                            } else if x < cs.len() {
                                assert(conn_keys(cs).contains(conn_keys(cs)[x]));
                            } else {
                                assert(conn_keys(cs).contains(conn_keys(cs)[y]));
                            }
                        }
                    }
                    assert forall|t: int| 0 <= t < cs2.len() implies rn.contains(#[trigger] cs2[t].1@) by {
                        if t < cs.len() {
                            assert(cs2[t] == cs[t]);
                        }
                    }
                }
            },
        }
        self.connections = conns;
        Ok(())
    }

    /// Forgets a connection, whoever owned it; see [`remove_connection_spec`]. The error
    /// names the application that asked.
    pub fn remove_connection(&mut self, app: &str, src: &str, dst: &str) -> (res: Result<(), ControllerError>)
        ensures
            match remove_connection_spec(old(self)@, (src@, dst@)) {
                Some(v) => res is Ok && final(self)@ == v,
                None => final(self)@ == old(self)@ && (res matches Err(
                    ControllerError::UnknownApplication(n),
                ) && n@ == app@),
            },
    {
        proof {
            use_type_invariant(&*self);
        }
        let c = Connection::new(src.to_owned(), dst.to_owned());
        let ghost cs = self.connections@;
        match self.conn_position(&c) {
            None => Err(ControllerError::UnknownApplication(app.to_owned())),
            Some(i) => {
                let mut conns: Vec<(Connection, String)> = Vec::new();
                std::mem::swap(&mut conns, &mut self.connections);
                conns.remove(i);
                proof {
                    let cs2 = conns@;
                    assert(conn_keys(cs2) =~= conn_keys(cs).remove(i as int));
                    assert(conn_owners(cs2) =~= conn_owners(cs).remove(i as int));
                    lemma_assoc_remove(conn_keys(cs), conn_owners(cs), i as int);
                    assert(conn_keys(cs).contains((src@, dst@))) by {
                        assert(conn_keys(cs)[i as int] == (src@, dst@));
                    }
                    assert forall|t: int| 0 <= t < cs2.len() implies reg_names(self.registered@).contains(
                        #[trigger] cs2[t].1@,
                    ) by {
                        if t < i {
                            assert(cs2[t] == cs[t]);
                        } else {
                            assert(cs2[t] == cs[t + 1]);
                        }
                    }
                    assert(conn_keys(cs2).no_duplicates()) by {
                        assert forall|x: int, y: int|
                            0 <= x < conn_keys(cs2).len() && 0 <= y < conn_keys(cs2).len() && x != y implies conn_keys(cs2)[x]
                            != conn_keys(cs2)[y] by {
                            let x1 = if x < i { x } else { x + 1 };
                            let y1 = if y < i { y } else { y + 1 };
                            assert(conn_keys(cs2)[x] == conn_keys(cs)[x1]);
                            assert(conn_keys(cs2)[y] == conn_keys(cs)[y1]);
                        }
                    }
                }
                self.connections = conns;
                Ok(())
            },
        }
    }

    /// The priority level of `name`, or 0 when it is not registered.
    pub fn priority_of(&self, name: &str) -> (res: u8)
        ensures
            res == if self@.registered.contains_key(name@) {
                self@.registered[name@]
            } else {
                0u8
            },
    {
        proof {
            use_type_invariant(self);
        }
        let n = name.to_owned();
        match self.reg_position(&n) {
            Some(i) => {
                proof {
                    lemma_assoc_at(reg_names(self.registered@), reg_levels(self.registered@), i as int);
                }
                self.registered[i].priority_level
            },
            None => 0,
        }
    }

    /// The registered applications' names, each once.
    pub fn registered_names(&self) -> (res: Vec<String>)
        ensures
            string_views(res@).no_duplicates(),
            forall|n: Seq<char>| #[trigger] string_views(res@).contains(n) <==> self@.registered.contains_key(n),
    {
        proof {
            use_type_invariant(self);
        }
        let mut res: Vec<String> = Vec::new();
        for i in 0..self.registered.len()
            invariant
                string_views(res@) == reg_names(self.registered@).take(i as int),
        {
            let ghost before = res@;
            let nm = self.registered[i].name.clone();
            assert(nm@ == reg_names(self.registered@)[i as int]);
            res.push(nm);
            assert(string_views(res@) =~= string_views(before).push(nm@));
            assert(string_views(res@) =~= reg_names(self.registered@).take(i + 1));
        }
        assert(reg_names(self.registered@).take(self.registered@.len() as int) =~= reg_names(self.registered@));
        res
    }

    /// Gives each registered application the level of the last cluster that lists it.
    pub fn apply_levels<C>(&mut self, clusters: &Vec<ApplicationCluster<C>>)
        ensures
            final(self)@ == apply_levels_spec(old(self)@, cluster_levels(clusters@)),
    {
        proof {
            use_type_invariant(&*self);
        }
        let ghost v0 = self@;
        let ghost cl = cluster_levels(clusters@);
        let ghost names0 = reg_names(self.registered@);
        assert(cl.take(0) =~= Seq::<(u8, Seq<Seq<char>>)>::empty());
        assert(apply_levels_spec(v0, cl.take(0)).registered =~= v0.registered);
        assert(apply_levels_spec(v0, cl.take(0)) == v0);
        for t in 0..clusters.len()
            invariant
                self.wf(),
                cl == cluster_levels(clusters@),
                names0 == reg_names(self.registered@),
                self@ == apply_levels_spec(v0, cl.take(t as int)),
        {
            let level = clusters[t].priority_level;
            let apps = &clusters[t].applications;
            let ghost base = apply_levels_spec(v0, cl.take(t as int));
            assert(cl.take(t + 1).drop_last() =~= cl.take(t as int));
            assert(cl.take(t + 1).last() == (level, string_views(apps@)));
            for j in 0..apps.len()
                invariant
                    self.wf(),
                    names0 == reg_names(self.registered@),
                    apps == clusters@[t as int].applications,
                    base.known == self@.known,
                    base.connections == self@.connections,
                    self@.registered.dom() == base.registered.dom(),
                    forall|nm: Seq<char>| #[trigger] self@.registered.contains_key(nm) ==> self@.registered[nm] == if string_views(apps@).take(j as int).contains(nm) {
                        level
                    } else {
                        base.registered[nm]
                    },
            {
                let ghost before = self@;
                let name = &apps[j];
                proof {
                    assert(string_views(apps@).take(j + 1) =~= string_views(apps@).take(j as int).push(name@));
                }
                match self.reg_position(name) {
                    Some(i) => {
                        let ghost rs = self.registered@;
                        let entry = RegisteredApplication { name: name.clone(), priority_level: level };
                        let mut conns: Vec<(Connection, String)> = Vec::new();
                        std::mem::swap(&mut conns, &mut self.connections);
                        let mut regs: Vec<RegisteredApplication> = Vec::new();
                        std::mem::swap(&mut regs, &mut self.registered);
                        regs.set(i, entry);
                        assert(reg_names(regs@) =~= reg_names(rs));
                        self.registered = regs;
                        self.connections = conns;
                        proof {
                            let rs2 = self.registered@;
                            assert(reg_names(rs2) =~= reg_names(rs));
                            assert(reg_levels(rs2) =~= reg_levels(rs).update(i as int, level));
                            lemma_assoc_update(reg_names(rs), reg_levels(rs), i as int, level);
                            assert(self@.registered == before.registered.insert(name@, level));
                            assert forall|nm: Seq<char>| #[trigger] self@.registered.contains_key(nm) implies self@.registered[nm] == if string_views(apps@).take(j + 1).contains(nm) {
                                level
                            } else {
                                base.registered[nm]
                            } by {
                                if nm != name@ {
                                    if string_views(apps@).take(j + 1).contains(nm) {
                                        let sj1 = string_views(apps@).take(j + 1);
                                        let a = choose|a: int| 0 <= a < sj1.len() && sj1[a] == nm;
                                        assert(string_views(apps@).take(j as int)[a] == nm);
                                    }
                                    if string_views(apps@).take(j as int).contains(nm) {
                                        let sj0 = string_views(apps@).take(j as int);
                                        let a = choose|a: int| 0 <= a < sj0.len() && sj0[a] == nm;
                                        assert(string_views(apps@).take(j + 1)[a] == nm);
                                    }
                                } else {
                                    assert(string_views(apps@).take(j + 1)[j as int] == nm);
                                }
                            }
                            assert(self@.registered.dom() =~= before.registered.dom());
                        }
                    },
                    None => {
                        proof {
                            assert forall|nm: Seq<char>| #[trigger] self@.registered.contains_key(nm) implies self@.registered[nm] == if string_views(apps@).take(j + 1).contains(nm) {
                                level
                            } else {
                                base.registered[nm]
                            } by {
                                assert(nm != name@);
                                if string_views(apps@).take(j + 1).contains(nm) {
                                    let sj1 = string_views(apps@).take(j + 1);
                                        let a = choose|a: int| 0 <= a < sj1.len() && sj1[a] == nm;
                                    assert(string_views(apps@).take(j as int)[a] == nm);
                                }
                                if string_views(apps@).take(j as int).contains(nm) {
                                    let sj0 = string_views(apps@).take(j as int);
                                        let a = choose|a: int| 0 <= a < sj0.len() && sj0[a] == nm;
                                    assert(string_views(apps@).take(j + 1)[a] == nm);
                                }
                            }
                        }
                    },
                }
            }
            proof {
                assert(string_views(apps@).take(apps@.len() as int) =~= string_views(apps@));
                let target = apply_levels_spec(v0, cl.take(t + 1));
                assert(self@.registered =~= target.registered);
            }
        }
        assert(cl.take(clusters@.len() as int) =~= cl);
    }

    /// No application registered and no connection yet; `known` lists the applications
    /// that may register.
    pub fn new(known: Vec<String>) -> (res: Registry)
        ensures
            res@.known == string_views(known@).to_set(),
            res@.registered == Map::<Seq<char>, u8>::empty(),
            res@.connections == Map::<(Seq<char>, Seq<char>), Seq<char>>::empty(),
    {
        let res = Registry { known, registered: Vec::new(), connections: Vec::new() };
        assert(reg_map(res.registered@) =~= Map::<Seq<char>, u8>::empty());
        assert(conn_map(res.connections@) =~= Map::<(Seq<char>, Seq<char>), Seq<char>>::empty());
        res
    }
}

/// Every connection's owner is registered.
pub open spec fn owners_registered(v: RegistryView) -> bool {
    forall|k: (Seq<char>, Seq<char>)| #[trigger]
        v.connections.contains_key(k) ==> v.registered.contains_key(v.connections[k])
}

/// Every operation keeps every connection's owner registered; a new registry has no
/// connection, so no registry ever holds a connection of an unregistered application.
pub proof fn law_operations_keep_owners_registered(
    v: RegistryView,
    name: Seq<char>,
    k: (Seq<char>, Seq<char>),
    cs: Seq<(u8, Seq<Seq<char>>)>,
)
    requires
        owners_registered(v),
    ensures
        register_spec(v, name) is Some ==> owners_registered(register_spec(v, name)->0),
        deregister_spec(v, name) is Some ==> owners_registered(deregister_spec(v, name)->0),
        add_connection_spec(v, name, k) is Some ==> owners_registered(add_connection_spec(v, name, k)->0),
        remove_connection_spec(v, k) is Some ==> owners_registered(remove_connection_spec(v, k)->0),
        owners_registered(apply_levels_spec(v, cs)),
{
    if deregister_spec(v, name) is Some {
        let w = deregister_spec(v, name)->0;
        assert forall|k2: (Seq<char>, Seq<char>)| #[trigger] w.connections.contains_key(k2) implies w.registered.contains_key(
            w.connections[k2],
        ) by {
            assert(v.connections.contains_key(k2));
        }
    }
}

/// A connection added by a registered application is owned by it afterwards, whether or
/// not a record of the same endpoints existed, and every other record stays as it was.
pub proof fn law_added_connection_is_owned_by_adder(
    v: RegistryView,
    app: Seq<char>,
    k: (Seq<char>, Seq<char>),
)
    requires
        v.registered.contains_key(app),
    ensures
        add_connection_spec(v, app, k) is Some,
        (add_connection_spec(v, app, k)->0).connections.contains_key(k),
        (add_connection_spec(v, app, k)->0).connections[k] == app,
        forall|k2: (Seq<char>, Seq<char>)|
            k2 != k ==> ((add_connection_spec(v, app, k)->0).connections.contains_key(k2)
                == v.connections.contains_key(k2) && (v.connections.contains_key(k2) ==> (
            add_connection_spec(v, app, k)->0).connections[k2] == v.connections[k2])),
        (add_connection_spec(v, app, k)->0).registered == v.registered,
        (add_connection_spec(v, app, k)->0).known == v.known,
{
}

/// Registering an application twice has the effect of registering it once.
pub proof fn law_register_idempotent(v: RegistryView, name: Seq<char>)
    requires
        register_spec(v, name) is Some,
    ensures
        register_spec(register_spec(v, name)->0, name) == register_spec(v, name),
{
}

/// Registering an application that was not registered and then deregistering it gives
/// back the records as they were, when every connection's owner is registered.
pub proof fn law_register_deregister_roundtrip(v: RegistryView, name: Seq<char>)
    requires
        v.known.contains(name),
        !v.registered.contains_key(name),
        forall|k: (Seq<char>, Seq<char>)| #[trigger]
            v.connections.contains_key(k) ==> v.registered.contains_key(v.connections[k]),
    ensures
        register_spec(v, name) is Some,
        deregister_spec(register_spec(v, name)->0, name) == Some(v),
{
    let w = register_spec(v, name)->0;
    assert(w.registered.remove(name) =~= v.registered);
    assert(connections_without(w.connections, name) =~= v.connections);
}

/// After a deregistration no connection is owned by the deregistered application.
pub proof fn law_deregister_drops_connections(v: RegistryView, name: Seq<char>)
    requires
        deregister_spec(v, name) is Some,
    ensures
        forall|k: (Seq<char>, Seq<char>)| #[trigger]
            (deregister_spec(v, name)->0).connections.contains_key(k) ==> (deregister_spec(
                v,
                name,
            )->0).connections[k] != name,
        !(deregister_spec(v, name)->0).registered.contains_key(name),
{
}

/// A connection is accepted exactly when its owner is registered.
pub proof fn law_connection_needs_registration(
    v: RegistryView,
    app: Seq<char>,
    k: (Seq<char>, Seq<char>),
)
    ensures
        add_connection_spec(v, app, k) is Some <==> v.registered.contains_key(app),
{
}

/// Adding a new connection and removing it again gives back the records as they were.
pub proof fn law_add_remove_connection(v: RegistryView, app: Seq<char>, k: (Seq<char>, Seq<char>))
    requires
        v.registered.contains_key(app),
        !v.connections.contains_key(k),
    ensures
        remove_connection_spec(add_connection_spec(v, app, k)->0, k) == Some(v),
{
    assert(v.connections.insert(k, app).remove(k) =~= v.connections);
}

/// After the levels are applied, a registered application listed in some cluster has the
/// level of the last such cluster, and the others keep theirs.
pub proof fn law_levels_applied(v: RegistryView, cs: Seq<(u8, Seq<Seq<char>>)>, name: Seq<char>)
    requires
        v.registered.contains_key(name),
    ensures
        apply_levels_spec(v, cs).registered.contains_key(name),
        apply_levels_spec(v, cs).registered[name] == match last_level(cs, name) {
            Some(l) => l,
            None => v.registered[name],
        },
        apply_levels_spec(v, cs).connections == v.connections,
{
}

} // verus!
