//! The client side of the controller protocol: what an application's connection manager
//! decides between its calls to the controller.

use vstd::prelude::*;

verus! {

/// Where the controller listens.
#[derive(Clone, Debug)]
pub struct GrpcControllerRpc {
    endpoint: String,
}

impl GrpcControllerRpc {
    pub closed spec fn endpoint_view(&self) -> Seq<char> {
        self.endpoint@
    }

    /// Talks to the controller at `endpoint`.
    pub fn new(endpoint: String) -> (res: GrpcControllerRpc)
        ensures
            res.endpoint_view() == endpoint@,
    {
        GrpcControllerRpc { endpoint }
    }

    /// The controller's address.
    pub fn endpoint(&self) -> (res: &str)
        ensures
            res@ == self.endpoint_view(),
    {
        self.endpoint.as_str()
    }
}

/// A connection between two endpoints, as the manager tracks it.
#[derive(Clone, Debug)]
pub struct ConnectionKey {
    pub src: String,
    pub dst: String,
}

impl ConnectionKey {
    pub open spec fn view(&self) -> (Seq<char>, Seq<char>) {
        (self.src@, self.dst@)
    }

    /// The connection from `src` to `dst`.
    pub fn new(src: String, dst: String) -> (res: ConnectionKey)
        ensures
            res.src == src,
            res.dst == dst,
    {
        ConnectionKey { src, dst }
    }

    /// Whether both endpoints are the same as `other`'s.
    pub fn same_as(&self, other: &ConnectionKey) -> (res: bool)
        ensures
            res == (self@ == other@),
    {
        self.src == other.src && self.dst == other.dst
    }

    /// A copy of the key.
    pub fn copy(&self) -> (res: ConnectionKey)
        ensures
            res@ == self@,
    {
        ConnectionKey { src: self.src.clone(), dst: self.dst.clone() }
    }
}

/// An open connection, as handed to the application.
#[derive(Debug, Clone)]
pub struct ConnectionHandle {
    key: ConnectionKey,
}

impl ConnectionHandle {
    pub closed spec fn view(&self) -> (Seq<char>, Seq<char>) {
        self.key@
    }

    /// The handle of the connection from `src` to `dst`.
    pub fn new(src: String, dst: String) -> (res: ConnectionHandle)
        ensures
            res@ == (src@, dst@),
    {
        ConnectionHandle { key: ConnectionKey::new(src, dst) }
    }

    /// Where the connection starts.
    pub fn src(&self) -> (res: &str)
        ensures
            res@ == self@.0,
    {
        self.key.src.as_str()
    }

    /// Where the connection ends.
    pub fn dst(&self) -> (res: &str)
        ensures
            res@ == self@.1,
    {
        self.key.dst.as_str()
    }

    /// The connection's endpoints.
    pub fn key(&self) -> (res: &ConnectionKey)
        ensures
            res@ == self@,
    {
        &self.key
    }
}

/// What the manager refuses before it calls the controller.
#[derive(Debug, Clone, Copy, PartialEq, Eq)]
pub enum ManagerError {
    AlreadyRegistered,
    NotRegistered,
    ConnectionExists,
    UnknownConnection,
    ConnectionsOpen,
}

/// The manager's state as plain values.
pub struct ManagerView {
    pub initialized: bool,
    pub registered: bool,
    pub priority: Option<u8>,
    pub connections: Set<(Seq<char>, Seq<char>)>,
}

/// The state once the controller granted a registration with `priority`.
pub open spec fn granted(v: ManagerView, priority: u8) -> ManagerView {
    ManagerView { registered: true, priority: Some(priority), ..v }
}

/// The state after a registration attempt: refused while registered, granted otherwise.
pub open spec fn register_step(v: ManagerView, priority: u8) -> Result<ManagerView, ManagerError> {
    if v.registered {
        Err(ManagerError::AlreadyRegistered)
    } else {
        Ok(granted(v, priority))
    }
}

/// The state after a deregistration attempt.
pub open spec fn deregister_step(v: ManagerView) -> Result<ManagerView, ManagerError> {
    if !v.registered {
        Err(ManagerError::NotRegistered)
    } else if !v.connections.is_empty() {
        Err(ManagerError::ConnectionsOpen)
    } else {
        Ok(ManagerView { registered: false, priority: None, ..v })
    }
}

/// The state after an attempt to open the connection `k`.
pub open spec fn open_step(v: ManagerView, k: (Seq<char>, Seq<char>)) -> Result<ManagerView, ManagerError> {
    if !v.registered {
        Err(ManagerError::NotRegistered)
    } else if v.connections.contains(k) {
        Err(ManagerError::ConnectionExists)
    } else {
        Ok(ManagerView { connections: v.connections.insert(k), ..v })
    }
}

/// The state after an attempt to close the connection `k`.
pub open spec fn close_step(v: ManagerView, k: (Seq<char>, Seq<char>)) -> Result<ManagerView, ManagerError> {
    if !v.connections.contains(k) {
        Err(ManagerError::UnknownConnection)
    } else {
        Ok(ManagerView { connections: v.connections.remove(k), ..v })
    }
}

/// The keys' endpoint pairs.
pub open spec fn key_views(ks: Seq<ConnectionKey>) -> Seq<(Seq<char>, Seq<char>)> {
    ks.map_values(|k: ConnectionKey| k@)
}

/// Whether the manager has met the controller, is registered, its priority, and its open
/// connections.
#[derive(Debug, Default)]
pub struct ManagerState {
    initialized: bool,
    registered: bool,
    priority: Option<u8>,
    connections: Vec<ConnectionKey>,
}

impl ManagerState {
    #[verifier::type_invariant]
    spec fn well_formed(self) -> bool {
        key_views(self.connections@).no_duplicates()
    }

    /// The state as plain values.
    pub closed spec fn view(&self) -> ManagerView {
        ManagerView {
            initialized: self.initialized,
            registered: self.registered,
            priority: self.priority,
            connections: key_views(self.connections@).to_set(),
        }
    }

    /// A manager that has not met the controller yet.
    pub fn new() -> (res: ManagerState)
        ensures
            res@ == (ManagerView {
                initialized: false,
                registered: false,
                priority: None,
                connections: Set::empty(),
            }),
    {
        let res = ManagerState {
            initialized: false,
            registered: false,
            priority: None,
            connections: Vec::new(),
        };
        assert(key_views(res.connections@).to_set() =~= Set::<(Seq<char>, Seq<char>)>::empty());
        res
    }

    /// Whether the controller still has to be greeted.
    pub fn needs_init(&self) -> (res: bool)
        ensures
            res == !self@.initialized,
    {
        !self.initialized
    }

    /// Records that the controller has been greeted.
    pub fn mark_initialized(&mut self)
        ensures
            final(self)@ == (ManagerView { initialized: true, ..old(self)@ }),
    {
        proof {
            use_type_invariant(&*self);
        }
        self.initialized = true;
    }

    /// Whether a registration may be sent: not while registered.
    pub fn check_register(&self) -> (res: Result<(), ManagerError>)
        ensures
            res is Err <==> self@.registered,
            res is Err ==> res == Err::<(), ManagerError>(ManagerError::AlreadyRegistered),
    {
        if self.registered {
            Err(ManagerError::AlreadyRegistered)
        } else {
            Ok(())
        }
    }

    /// Records a registration that the controller granted with `priority`: the manager is
    /// registered with that priority, whatever it was before. Together with
    /// [`Self::check_register`] before the call to the controller, this is [`register_step`].
    pub fn complete_register(&mut self, priority: u8)
        ensures
            final(self)@ == granted(old(self)@, priority),
    {
        proof {
            use_type_invariant(&*self);
        }
        self.registered = true;
        self.priority = Some(priority);
    }

    /// Leaves the registered state, unless not registered or connections are open.
    pub fn begin_deregister(&mut self) -> (res: Result<(), ManagerError>)
        ensures
            match deregister_step(old(self)@) {
                Ok(v) => res is Ok && final(self)@ == v,
                Err(e) => res == Err::<(), ManagerError>(e) && final(self)@ == old(self)@,
            },
    {
        proof {
            use_type_invariant(&*self);
        }
        if !self.registered {
            return Err(ManagerError::NotRegistered);
        }
        if self.connections.len() > 0 {
            assert(key_views(self.connections@).to_set().contains(key_views(self.connections@)[0]));
            return Err(ManagerError::ConnectionsOpen);
        }
        assert(key_views(self.connections@).to_set() =~= Set::<(Seq<char>, Seq<char>)>::empty());
        self.registered = false;
        self.priority = None;
        Ok(())
    }

    /// The priority the controller granted, while registered.
    pub fn priority(&self) -> (res: Option<u8>)
        ensures
            res == self@.priority,
    {
        self.priority
    }

    /// The position of the connection `key`, if it is open.
    fn position(&self, key: &ConnectionKey) -> (res: Option<usize>)
        ensures
            match res {
                Some(i) => i < self.connections@.len() && self.connections@[i as int]@ == key@,
                None => !key_views(self.connections@).contains(key@),
            },
    {
        let mut i: usize = 0;
        while i < self.connections.len()
            invariant
                i <= self.connections@.len(),
                forall|j: int| 0 <= j < i ==> self.connections@[j]@ != key@,
            decreases self.connections@.len() - i,
        {
            if self.connections[i].same_as(key) {
                return Some(i);
            }
            i = i + 1;
        }
        proof {
            if key_views(self.connections@).contains(key@) {
                let j = choose|j: int| 0 <= j < key_views(self.connections@).len() && key_views(self.connections@)[j] == key@;
                assert(self.connections@[j]@ == key@);
            }
        }
        None
    }

    /// Records the connection `key` as open, unless not registered or already open.
    pub fn begin_open(&mut self, key: &ConnectionKey) -> (res: Result<(), ManagerError>)
        ensures
            match open_step(old(self)@, key@) {
                Ok(v) => res is Ok && final(self)@ == v,
                Err(e) => res == Err::<(), ManagerError>(e) && final(self)@ == old(self)@,
            },
    {
        proof {
            use_type_invariant(&*self);
        }
        if !self.registered {
            return Err(ManagerError::NotRegistered);
        }
        match self.position(key) {
            Some(i) => {
                assert(key_views(self.connections@)[i as int] == key@);
                return Err(ManagerError::ConnectionExists);
            },
            None => {},
        }
        let ghost before = key_views(self.connections@);
        let mut conns: Vec<ConnectionKey> = Vec::new();
        std::mem::swap(&mut conns, &mut self.connections);
        conns.push(key.copy());
        proof {
            let after = key_views(conns@);
            assert(after =~= before.push(key@));
            assert(after.no_duplicates()) by {
                assert forall|a: int, b: int| 0 <= a < after.len() && 0 <= b < after.len() && a != b implies after[a]
                    != after[b] by {
                    if a < before.len() && b < before.len() {
                    } else if a < before.len() {
                        assert(before.contains(before[a]));
                    } else if b < before.len() {
                        assert(before.contains(before[b]));
                    }
                }
            }
            before.lemma_push_to_set_commute(key@);
            assert(after.to_set() =~= before.to_set().insert(key@));
        }
        self.connections = conns;
        Ok(())
    }

    /// Forgets the connection `key` again after the controller refused it.
    pub fn abort_open(&mut self, key: &ConnectionKey)
        ensures
            final(self)@ == (ManagerView { connections: old(self)@.connections.remove(key@), ..old(self)@ }),
    {
        let _ = self.begin_close(key);
    }

    /// Records the connection `key` as closed, unless it is not open.
    pub fn begin_close(&mut self, key: &ConnectionKey) -> (res: Result<(), ManagerError>)
        ensures
            match close_step(old(self)@, key@) {
                Ok(v) => res is Ok && final(self)@ == v,
                Err(e) => res == Err::<(), ManagerError>(e) && final(self)@ == old(self)@,
            },
            final(self)@ == (ManagerView { connections: old(self)@.connections.remove(key@), ..old(self)@ }),
    {
        proof {
            use_type_invariant(&*self);
        }
        match self.position(key) {
            None => {
                assert(key_views(self.connections@).to_set().remove(key@) =~= key_views(self.connections@).to_set());
                Err(ManagerError::UnknownConnection)
            },
            Some(i) => {
                let ghost before = key_views(self.connections@);
                let mut conns: Vec<ConnectionKey> = Vec::new();
                std::mem::swap(&mut conns, &mut self.connections);
                conns.remove(i);
                proof {
                    let after = key_views(conns@);
                    assert(after =~= before.remove(i as int));
                    assert(before.contains(key@)) by {
                        assert(before[i as int] == key@);
                    }
                    assert(after.no_duplicates()) by {
                        assert forall|a: int, b: int| 0 <= a < after.len() && 0 <= b < after.len() && a != b implies after[a]
                            != after[b] by {
                            let a2 = if a < i { a } else { a + 1 };
                            let b2 = if b < i { b } else { b + 1 };
                            assert(after[a] == before[a2]);
                            assert(after[b] == before[b2]);
                        }
                    }
                    assert forall|x: (Seq<char>, Seq<char>)| #[trigger] after.contains(x) == (before.contains(x) && x != key@) by {
                        if after.contains(x) {
                            let a = choose|a: int| 0 <= a < after.len() && after[a] == x;
                            let a2 = if a < i { a } else { a + 1 };
                            assert(after[a] == before[a2]);
                            assert(a2 != i);
                        }
                        if before.contains(x) && x != key@ {
                            let b = choose|b: int| 0 <= b < before.len() && before[b] == x;
                            assert(b != i);
                            if b < i {
                                assert(after[b] == x);
                            } else {
                                assert(after[b - 1] == x);
                            }
                        }
                        if after.contains(x) {
                            let a = choose|a: int| 0 <= a < after.len() && after[a] == x;
                            let a2 = if a < i { a } else { a + 1 };
                            assert(before[a2] == x);
                            assert(before[i as int] == key@);
                            assert(a2 != i);
                        }
                    }
                    assert(after.to_set() =~= before.to_set().remove(key@));
                }
                self.connections = conns;
                Ok(())
            },
        }
    }
}

/// A manager registered once cannot register again until it deregisters.
pub proof fn law_no_double_registration(v: ManagerView, p: u8, q: u8)
    requires
        register_step(v, p) is Ok,
    ensures
        register_step(register_step(v, p)->Ok_0, q) == Err::<ManagerView, ManagerError>(
            ManagerError::AlreadyRegistered,
        ),
{
}

/// Opening a connection and then closing it leaves the manager as it was.
pub proof fn law_open_close_restores(v: ManagerView, k: (Seq<char>, Seq<char>))
    requires
        open_step(v, k) is Ok,
    ensures
        close_step(open_step(v, k)->Ok_0, k) == Ok::<ManagerView, ManagerError>(v),
{
    assert(v.connections.insert(k).remove(k) =~= v.connections);
}

/// A manager with an open connection cannot deregister.
pub proof fn law_deregister_needs_closed_connections(v: ManagerView, k: (Seq<char>, Seq<char>))
    requires
        v.registered,
        v.connections.contains(k),
    ensures
        deregister_step(v) == Err::<ManagerView, ManagerError>(ManagerError::ConnectionsOpen),
{
}

/// Registering and then deregistering, with no connection open, leaves the manager
/// unregistered and without a priority, as it was before.
pub proof fn law_register_deregister_roundtrip(v: ManagerView, p: u8)
    requires
        !v.registered,
        v.priority is None,
        v.connections.is_empty(),
    ensures
        register_step(v, p) is Ok,
        deregister_step(register_step(v, p)->Ok_0) == Ok::<ManagerView, ManagerError>(v),
{
}

} // verus!
