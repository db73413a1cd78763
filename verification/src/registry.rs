//! The client directory: which ids are registered, the handle behind each,
//! and the counter that hands out the next id.

use vstd::prelude::*;

verus! {

/// The key under which the surrounding program keeps a connection's writable
/// endpoint.
#[derive(Clone, Copy, Debug, PartialEq, Eq, Structural)]
pub struct ConnectionHandle {
    pub token: u64,
}

/// One registered client.
#[derive(Clone, Copy, Debug)]
struct Client {
    id: u32,
    handle: ConnectionHandle,
}

/// The directory as a mathematical value.
pub ghost struct Registry {
    /// The registered ids and the handle of each.
    pub clients: Map<u32, ConnectionHandle>,
    /// The id that the next registration gets.
    pub next_id: nat,
}

impl Registry {
    /// The directory of a server that has seen no client.
    pub open spec fn new() -> Registry {
        Registry { clients: Map::empty(), next_id: 1 }
    }

    /// Every registered id has been handed out, and ids start at 1.
    pub open spec fn valid(self) -> bool {
        &&& 1 <= self.next_id <= u32::MAX
        &&& self.clients.dom().finite()
        &&& self.clients.dom().len() < self.next_id
        &&& forall|id: u32| #[trigger] self.clients.dom().contains(id) ==> 1 <= id < self.next_id
    }

    /// Whether an id is left to hand out.
    pub open spec fn has_room(self) -> bool {
        self.next_id < u32::MAX
    }

    /// The directory after one more client was admitted under `next_id`.
    pub open spec fn register(self, handle: ConnectionHandle) -> Registry {
        Registry {
            clients: self.clients.insert(self.next_id as u32, handle),
            next_id: self.next_id + 1,
        }
    }

    /// The directory without `id`.
    pub open spec fn unregister(self, id: u32) -> Registry {
        Registry { clients: self.clients.remove(id), next_id: self.next_id }
    }

    /// The handle of `id`, if it is registered.
    pub open spec fn resolve(self, id: u32) -> Option<ConnectionHandle> {
        if self.clients.dom().contains(id) {
            Some(self.clients[id])
        } else {
            None
        }
    }

    /// The registered ids other than `excluding`.
    pub open spec fn opponents(self, excluding: u32) -> Set<u32> {
        self.clients.dom().remove(excluding)
    }
}

/// One change to the directory.
pub ghost enum RegistryOp {
    Register { handle: ConnectionHandle },
    Unregister { id: u32 },
}

/// The ids handed out while `ops` are applied to `reg` one after the other,
/// in the order of the registrations.
pub open spec fn assigned_ids(reg: Registry, ops: Seq<RegistryOp>) -> Seq<u32>
    decreases ops.len(),
{
    if ops.len() == 0 {
        Seq::empty()
    } else {
        match ops[0] {
            RegistryOp::Register { handle } => seq![reg.next_id as u32] + assigned_ids(
                reg.register(handle),
                ops.drop_first(),
            ),
            RegistryOp::Unregister { id } => assigned_ids(reg.unregister(id), ops.drop_first()),
        }
    }
}

/// Registrations, in whatever order they reach the directory and whatever is
/// unregistered in between, get consecutive ids: the first gets `next_id`
/// (1 on a new server), each later one the id after the one before. So the
/// ids rise strictly, none is handed out twice and none is reused.
pub proof fn lemma_assigned_ids_consecutive(reg: Registry, ops: Seq<RegistryOp>)
    requires
        reg.valid(),
        reg.next_id + ops.len() <= u32::MAX,
    ensures
        assigned_ids(reg, ops).len() <= ops.len(),
        forall|i: int|
            0 <= i < assigned_ids(reg, ops).len() ==> #[trigger] assigned_ids(reg, ops)[i]
                == reg.next_id + i,
        forall|i: int, j: int|
            0 <= i < j < assigned_ids(reg, ops).len() ==> assigned_ids(reg, ops)[i]
                < assigned_ids(reg, ops)[j],
    decreases ops.len(),
{
    if ops.len() > 0 {
        match ops[0] {
            RegistryOp::Register { handle } => {
                lemma_register_valid(reg, handle);
                lemma_assigned_ids_consecutive(reg.register(handle), ops.drop_first());
            },
            RegistryOp::Unregister { id } => {
                lemma_unregister_valid(reg, id);
                lemma_assigned_ids_consecutive(reg.unregister(id), ops.drop_first());
            },
        }
    }
}

/// On a new server the registrations get the ids 1, 2, 3 and so on, in the
/// order in which they reach the directory.
pub proof fn lemma_ids_count_from_one(ops: Seq<RegistryOp>)
    requires
        ops.len() < u32::MAX,
    ensures
        forall|i: int|
            0 <= i < assigned_ids(Registry::new(), ops).len() ==> #[trigger] assigned_ids(
                Registry::new(),
                ops,
            )[i] == i + 1,
{
    lemma_assigned_ids_consecutive(Registry::new(), ops);
}

/// A registration keeps the directory valid, enters the new id and leaves
/// every other entry as it was.
pub proof fn lemma_register_valid(reg: Registry, handle: ConnectionHandle)
    requires
        reg.valid(),
        reg.has_room(),
    ensures
        reg.register(handle).valid(),
        !reg.clients.dom().contains(reg.next_id as u32),
        reg.register(handle).resolve(reg.next_id as u32) == Some(handle),
        forall|id: u32| id != reg.next_id ==> reg.register(handle).resolve(id) == reg.resolve(id),
{
}

/// Unregistering keeps the directory valid and the counter where it was, and
/// doing it twice is the same as doing it once.
pub proof fn lemma_unregister_valid(reg: Registry, id: u32)
    requires
        reg.valid(),
    ensures
        reg.unregister(id).valid(),
        reg.unregister(id).next_id == reg.next_id,
        reg.unregister(id).resolve(id) is None,
        reg.unregister(id).unregister(id) == reg.unregister(id),
        !reg.clients.dom().contains(id) ==> reg.unregister(id) == reg,
{
    assert(reg.unregister(id).clients.remove(id) =~= reg.unregister(id).clients);
    if !reg.clients.dom().contains(id) {
        assert(reg.clients.remove(id) =~= reg.clients);
    }
}

/// The client directory of one server.
pub struct Server {
    clients: Vec<Client>,
    next_id: u32,
    model: Ghost<Map<u32, ConnectionHandle>>,
}

impl View for Server {
    type V = Registry;

    closed spec fn view(&self) -> Registry {
        Registry { clients: self.model@, next_id: self.next_id as nat }
    }
}

impl Server {
    /// The entries are kept in the order of their ids, and the ghost map
    /// holds exactly what the entries hold.
    pub closed spec fn wf(&self) -> bool {
        &&& 1 <= self.next_id
        &&& forall|i: int, j: int|
            0 <= i < j < self.clients@.len() ==> self.clients@[i].id < self.clients@[j].id
        &&& forall|i: int|
            0 <= i < self.clients@.len() ==> i < #[trigger] self.clients@[i].id < self.next_id
        &&& forall|i: int|
            0 <= i < self.clients@.len() ==> self.model@.contains_pair(
                #[trigger] self.clients@[i].id,
                self.clients@[i].handle,
            )
        &&& forall|id: u32| #[trigger]
            self.model@.dom().contains(id) ==> exists|i: int|
                0 <= i < self.clients@.len() && #[trigger] self.clients@[i].id == id
        &&& self.model@.dom().finite()
        &&& self.model@.dom().len() == self.clients@.len()
    }

    /// A well-formed server has a valid directory.
    pub proof fn lemma_valid(&self)
        requires
            self.wf(),
        ensures
            self@.valid(),
    {
        let n = self.clients@.len();
        if n > 0 {
            assert(n - 1 < self.clients@[n - 1].id);
        }
        assert forall|id: u32| #[trigger] self@.clients.dom().contains(id) implies 1 <= id
            < self@.next_id by {
            let i = choose|i: int| 0 <= i < self.clients@.len() && self.clients@[i].id == id;
            assert(i < self.clients@[i].id);
        }
    }

    /// A server that has seen no client: the first id it hands out is 1.
    pub fn new() -> (s: Server)
        ensures
            s.wf(),
            s@ == Registry::new(),
    {
        Server { clients: Vec::new(), next_id: 1, model: Ghost(Map::empty()) }
    }

    /// The place of `id` among the entries.
    fn position(&self, id: u32) -> (r: Option<usize>)
        requires
            self.wf(),
        ensures
            match r {
                Some(i) => i < self.clients@.len() && self.clients@[i as int].id == id,
                None => !self.model@.dom().contains(id),
            },
    {
        let mut i: usize = 0;
        while i < self.clients.len()
            invariant
                self.wf(),
                i <= self.clients@.len(),
                forall|j: int| 0 <= j < i ==> self.clients@[j].id != id,
            decreases self.clients@.len() - i,
        {
            if self.clients[i].id == id {
                return Some(i);
            }
            i += 1;
        }
        None
    }

    /// Admits a client: reserves the next id and enters the handle under it,
    /// in one step. Returns no id only when the ids are used up.
    pub fn register(&mut self, handle: ConnectionHandle) -> (r: Option<u32>)
        requires
            old(self).wf(),
        ensures
            final(self).wf(),
            old(self)@.has_room() ==> r == Some(old(self)@.next_id as u32) && final(self)@ == old(
                self,
            )@.register(handle),
            !old(self)@.has_room() ==> r is None && final(self)@ == old(self)@,
    {
        if self.next_id == u32::MAX {
            return None;
        }
        let id = self.next_id;
        proof {
            assert(!self.model@.dom().contains(id)) by {
                if self.model@.dom().contains(id) {
                    let i = choose|i: int|
                        0 <= i < self.clients@.len() && self.clients@[i].id == id;
                    assert(self.clients@[i].id < self.next_id);
                }
            }
        }
        self.clients.push(Client { id, handle });
        self.next_id = id + 1;
        proof {
            self.model@ = self.model@.insert(id, handle);
            let before = old(self).clients@;
            assert forall|i: int| 0 <= i < self.clients@.len() implies i
                < #[trigger] self.clients@[i].id < self.next_id by {
                if i < before.len() {
                    assert(self.clients@[i] == before[i]);
                } else if i > 0 {
                    assert(i - 1 < before[i - 1].id < id);
                }
            }
            assert forall|i: int, j: int| 0 <= i < j < self.clients@.len() implies self.clients@[i].id
                < self.clients@[j].id by {
                assert(self.clients@[i] == before[i]);
                if j < before.len() {
                    assert(self.clients@[j] == before[j]);
                }
            }
            assert forall|i: int| 0 <= i < self.clients@.len() implies self.model@.contains_pair(
                #[trigger] self.clients@[i].id,
                self.clients@[i].handle,
            ) by {
                if i < before.len() {
                    assert(self.clients@[i] == before[i]);
                    assert(old(self).model@.contains_pair(before[i].id, before[i].handle));
                }
            }
            assert forall|k: u32| #[trigger] self.model@.dom().contains(k) implies exists|i: int|
                0 <= i < self.clients@.len() && #[trigger] self.clients@[i].id == k by {
                if k == id {
                    assert(self.clients@[before.len() as int].id == k);
                } else {
                    let i = choose|i: int| 0 <= i < before.len() && before[i].id == k;
                    assert(self.clients@[i].id == k);
                }
            }
        }
        Some(id)
    }

    /// Removes `id` and returns the handle it had. An id that is not
    /// registered is left alone.
    pub fn unregister(&mut self, id: u32) -> (r: Option<ConnectionHandle>)
        requires
            old(self).wf(),
        ensures
            final(self).wf(),
            final(self)@ == old(self)@.unregister(id),
            r == old(self)@.resolve(id),
    {
        match self.position(id) {
            None => {
                assert(self.model@.remove(id) =~= self.model@);
                None
            },
            Some(k) => {
                let gone = self.clients.remove(k);
                proof {
                    let before = old(self).clients@;
                    assert(old(self).model@.contains_pair(before[k as int].id, before[k as int].handle));
                    self.model@ = self.model@.remove(id);
                    assert forall|i: int| 0 <= i < self.clients@.len() implies i
                        < #[trigger] self.clients@[i].id < self.next_id && self.model@.contains_pair(
                        self.clients@[i].id,
                        self.clients@[i].handle,
                    ) by {
                        let o = if i < k { i } else { i + 1 };
                        assert(self.clients@[i] == before[o]);
                        assert(o < before[o].id);
                        assert(old(self).model@.contains_pair(before[o].id, before[o].handle));
                        if o < k {
                            assert(before[o].id < before[k as int].id);
                        } else {
                            assert(before[k as int].id < before[o].id);
                        }
                    }
                    assert forall|i: int, j: int| 0 <= i < j < self.clients@.len() implies self.clients@[i].id
                        < self.clients@[j].id by {
                        let oi = if i < k { i } else { i + 1 };
                        let oj = if j < k { j } else { j + 1 };
                        assert(self.clients@[i] == before[oi]);
                        assert(self.clients@[j] == before[oj]);
                    }
                    assert forall|x: u32| #[trigger] self.model@.dom().contains(x) implies exists|
                        i: int,
                    |
                        0 <= i < self.clients@.len() && #[trigger] self.clients@[i].id == x by {
                        let o = choose|o: int| 0 <= o < before.len() && before[o].id == x;
                        let i = if o < k { o } else { o - 1 };
                        assert(self.clients@[i] == before[o]);
                    }
                }
                Some(gone.handle)
            },
        }
    }

    /// The handle of `id`, if `id` is registered.
    pub fn resolve(&self, id: u32) -> (r: Option<ConnectionHandle>)
        requires
            self.wf(),
        ensures
            r == self@.resolve(id),
    {
        match self.position(id) {
            None => None,
            Some(k) => {
                assert(self.model@.contains_pair(
                    self.clients@[k as int].id,
                    self.clients@[k as int].handle,
                ));
                Some(self.clients[k].handle)
            },
        }
    }

    /// The ids registered right now, without `excluding`, each once.
    pub fn list(&self, excluding: u32) -> (ids: Vec<u32>)
        requires
            self.wf(),
        ensures
            ids@.no_duplicates(),
            ids@.to_set() == self@.opponents(excluding),
            ids@.len() < self@.next_id,
    {
        let mut ids: Vec<u32> = Vec::new();
        let mut i: usize = 0;
        while i < self.clients.len()
            invariant
                self.wf(),
                i <= self.clients@.len(),
                ids@.len() <= i,
                forall|a: int, b: int| 0 <= a < b < ids@.len() ==> ids@[a] < ids@[b],
                forall|a: int|
                    0 <= a < ids@.len() ==> ids@[a] != excluding && exists|j: int|
                        0 <= j < i && self.clients@[j].id == #[trigger] ids@[a],
                forall|j: int|
                    0 <= j < i && self.clients@[j].id != excluding ==> ids@.contains(
                        #[trigger] self.clients@[j].id,
                    ),
            decreases self.clients@.len() - i,
        {
            let id = self.clients[i].id;
            if id != excluding {
                let ghost before = ids@;
                ids.push(id);
                proof {
                    assert forall|a: int, b: int| 0 <= a < b < ids@.len() implies ids@[a]
                        < ids@[b] by {
                        assert(ids@[a] == before[a]);
                        if b < before.len() {
                            assert(ids@[b] == before[b]);
                        } else {
                            let j = choose|j: int| 0 <= j < i && self.clients@[j].id == before[a];
                            assert(self.clients@[j].id < self.clients@[i as int].id);
                        }
                    }
                    assert forall|a: int| 0 <= a < ids@.len() implies ids@[a] != excluding
                        && exists|j: int|
                        0 <= j < i + 1 && self.clients@[j].id == #[trigger] ids@[a] by {
                        if a < before.len() {
                            assert(ids@[a] == before[a]);
                            let j = choose|j: int| 0 <= j < i && self.clients@[j].id == before[a];
                            assert(self.clients@[j].id == ids@[a]);
                        } else {
                            assert(self.clients@[i as int].id == ids@[a]);
                        }
                    }
                    assert forall|j: int|
                        0 <= j < i + 1 && self.clients@[j].id != excluding implies ids@.contains(
                        #[trigger] self.clients@[j].id,
                    ) by {
                        if j < i {
                            let a = choose|a: int|
                                0 <= a < before.len() && before[a] == self.clients@[j].id;
                            assert(ids@[a] == before[a]);
                        } else {
                            assert(ids@[before.len() as int] == id);
                        }
                    }
                }
            }
            i += 1;
        }
        proof {
            let n = self.clients@.len();
            if n > 0 {
                assert(n - 1 < self.clients@[n - 1].id);
            }
            assert forall|x: u32| ids@.to_set().contains(x) <==> self@.opponents(
                excluding,
            ).contains(x) by {
                if ids@.to_set().contains(x) {
                    let a = choose|a: int| 0 <= a < ids@.len() && ids@[a] == x;
                    let j = choose|j: int| 0 <= j < i && self.clients@[j].id == ids@[a];
                    assert(self.model@.contains_pair(self.clients@[j].id, self.clients@[j].handle));
                }
                if self@.opponents(excluding).contains(x) {
                    let j = choose|j: int| 0 <= j < n && self.clients@[j].id == x;
                    assert(ids@.contains(self.clients@[j].id));
                }
            }
            assert(ids@.to_set() =~= self@.opponents(excluding));
        }
        ids
    }
}

} // verus!
