use vstd::prelude::*;
use std::collections::HashMap;

verus! {

broadcast use vstd::std_specs::hash::group_hash_axioms;

/// The id by which client and server name an entity.
pub type NetEntityId = u32;

/// The two id maps are inverse to each other.
pub open spec fn maps_inverse(n2l: Map<NetEntityId, u64>, l2n: Map<u64, NetEntityId>) -> bool {
    &&& forall|n: NetEntityId| #[trigger] n2l.contains_key(n) ==> l2n.contains_key(n2l[n]) && l2n[n2l[n]] == n
    &&& forall|l: u64| #[trigger] l2n.contains_key(l) ==> n2l.contains_key(l2n[l]) && n2l[l2n[l]] == l
}

/// Keeps track of which local entity (named by its bits) stands for which net entity id,
/// on client and server alike; on the server it also hands out fresh net ids.
pub struct NetworkWorld {
    next_net_entity: u32,
    network_to_local: HashMap<NetEntityId, u64>,
    local_to_network: HashMap<u64, NetEntityId>,
}

impl NetworkWorld {
    pub closed spec fn wf(self) -> bool {
        maps_inverse(self.network_to_local@, self.local_to_network@)
    }

    /// Net id to local entity.
    pub closed spec fn net_to_local(self) -> Map<NetEntityId, u64> {
        self.network_to_local@
    }

    /// Local entity to net id.
    pub closed spec fn local_to_net(self) -> Map<u64, NetEntityId> {
        self.local_to_network@
    }

    /// The net id the server hands out next.
    pub closed spec fn next_id(self) -> u32 {
        self.next_net_entity
    }

    pub fn new() -> (r: Self)
        ensures
            r.wf(),
            r.next_id() == 0,
            r.net_to_local() == Map::<NetEntityId, u64>::empty(),
            r.local_to_net() == Map::<u64, NetEntityId>::empty(),
    {
        NetworkWorld {
            next_net_entity: 0,
            network_to_local: HashMap::new(),
            local_to_network: HashMap::new(),
        }
    }

    /// The net id the server hands out next.
    pub fn peek_next_id(&self) -> (r: u32)
        ensures
            r == self.next_id(),
    {
        self.next_net_entity
    }

    fn get_next_entity_id(&mut self) -> (r: u32)
        requires
            old(self).next_id() < u32::MAX,
        ensures
            r == old(self).next_id(),
            final(self).next_id() == old(self).next_id() + 1,
            final(self).net_to_local() == old(self).net_to_local(),
            final(self).local_to_net() == old(self).local_to_net(),
    {
        let next = self.next_net_entity;
        self.next_net_entity = self.next_net_entity + 1;
        next
    }

    /// Registers the freshly spawned local entity `entity` under a net id: the one given
    /// (client side, which must be unused), or the next fresh one (server side). The maps
    /// take the new pair whatever they held; where neither the entity nor the id was mapped
    /// before, they stay inverse to each other.
    pub fn spawn(&mut self, entity: u64, net_entity_id_option: Option<NetEntityId>) -> (r: (NetEntityId, u64))
        requires
            match net_entity_id_option {
                Some(n) => !old(self).net_to_local().contains_key(n),
                None => old(self).next_id() < u32::MAX,
            },
        ensures
            old(self).wf() && !old(self).local_to_net().contains_key(entity)
                && !old(self).net_to_local().contains_key(r.0) ==> final(self).wf(),
            r.1 == entity,
            r.0 == match net_entity_id_option {
                Some(n) => n,
                None => old(self).next_id(),
            },
            final(self).next_id() == match net_entity_id_option {
                Some(n) => old(self).next_id(),
                None => (old(self).next_id() + 1) as u32,
            },
            final(self).net_to_local() == old(self).net_to_local().insert(r.0, entity),
            final(self).local_to_net() == old(self).local_to_net().insert(entity, r.0),
    {
        let net_entity_id = match net_entity_id_option {
            Some(net_entity_id) => net_entity_id,
            None => self.get_next_entity_id(),
        };
        self.network_to_local.insert(net_entity_id, entity);
        self.local_to_network.insert(entity, net_entity_id);
        proof {
            let n2l = self.network_to_local@;
            let l2n = self.local_to_network@;
            if old(self).wf() && !old(self).local_to_net().contains_key(entity)
                && !old(self).net_to_local().contains_key(net_entity_id) {
            assert forall|n: NetEntityId| #[trigger] n2l.contains_key(n) implies l2n.contains_key(n2l[n]) && l2n[n2l[n]] == n by {
                if n != net_entity_id {
                    assert(old(self).network_to_local@.contains_key(n));
                    assert(n2l[n] != entity);
                }
            }
            assert forall|l: u64| #[trigger] l2n.contains_key(l) implies n2l.contains_key(l2n[l]) && n2l[l2n[l]] == l by {
                if l != entity {
                    assert(old(self).local_to_network@.contains_key(l));
                    assert(l2n[l] != net_entity_id);
                }
            }
            }
        }
        (net_entity_id, entity)
    }

    /// The net id of the local entity `entity`, if it has one.
    pub fn get_net_entity_id(&self, entity: u64) -> (r: Option<NetEntityId>)
        ensures
            r == if self.local_to_net().contains_key(entity) {
                Some(self.local_to_net()[entity])
            } else {
                None
            },
    {
        match self.local_to_network.get(&entity) {
            Some(n) => Some(*n),
            None => None,
        }
    }

    /// The local entity standing for `net_entity_id`, if any.
    pub fn get_entity_id(&self, net_entity_id: NetEntityId) -> (r: Option<u64>)
        ensures
            r == if self.net_to_local().contains_key(net_entity_id) {
                Some(self.net_to_local()[net_entity_id])
            } else {
                None
            },
    {
        match self.network_to_local.get(&net_entity_id) {
            Some(e) => Some(*e),
            None => None,
        }
    }

    /// Forgets the net id `net_entity_id` and its local entity, which is returned for the
    /// caller to despawn; an error where the id is unknown.
    pub fn despawn_net_id(&mut self, net_entity_id: NetEntityId) -> (r: Result<u64, String>)
        ensures
            old(self).wf() ==> final(self).wf(),
            final(self).next_id() == old(self).next_id(),
            match r {
                Ok(entity) => old(self).net_to_local().contains_key(net_entity_id)
                    && entity == old(self).net_to_local()[net_entity_id]
                    && final(self).net_to_local() == old(self).net_to_local().remove(net_entity_id)
                    && final(self).local_to_net() == old(self).local_to_net().remove(entity),
                Err(msg) => !old(self).net_to_local().contains_key(net_entity_id)
                    && msg@ == "Could not find entity for net id {net_entity_id}"@
                    && final(self).net_to_local() == old(self).net_to_local()
                    && final(self).local_to_net() == old(self).local_to_net(),
            },
    {
        match self.network_to_local.remove(&net_entity_id) {
            Some(entity) => {
                self.local_to_network.remove(&entity);
                proof {
                    if old(self).wf() {
                    let n2l = self.network_to_local@;
                    let l2n = self.local_to_network@;
                    assert forall|n: NetEntityId| #[trigger] n2l.contains_key(n) implies l2n.contains_key(n2l[n]) && l2n[n2l[n]] == n by {
                        assert(old(self).network_to_local@.contains_key(n));
                    }
                    assert forall|l: u64| #[trigger] l2n.contains_key(l) implies n2l.contains_key(l2n[l]) && n2l[l2n[l]] == l by {
                        assert(old(self).local_to_network@.contains_key(l));
                    }
                    }
                }
                Ok(entity)
            },
            None => Err("Could not find entity for net id {net_entity_id}".to_owned()),
        }
    }

    /// Forgets the local entity `entity` and its net id.
    pub fn forget_entity(&mut self, entity: u64) -> (r: NetEntityId)
        requires
            old(self).local_to_net().contains_key(entity),
        ensures
            old(self).wf() ==> final(self).wf(),
            final(self).next_id() == old(self).next_id(),
            r == old(self).local_to_net()[entity],
            final(self).net_to_local() == old(self).net_to_local().remove(r),
            final(self).local_to_net() == old(self).local_to_net().remove(entity),
    {
        let net_id = self.local_to_network.remove(&entity);
        let n = net_id.unwrap();
        self.network_to_local.remove(&n);
        proof {
            if old(self).wf() {
            let n2l = self.network_to_local@;
            let l2n = self.local_to_network@;
            assert forall|k: NetEntityId| #[trigger] n2l.contains_key(k) implies l2n.contains_key(n2l[k]) && l2n[n2l[k]] == k by {
                assert(old(self).network_to_local@.contains_key(k));
            }
            assert forall|l: u64| #[trigger] l2n.contains_key(l) implies n2l.contains_key(l2n[l]) && n2l[l2n[l]] == l by {
                assert(old(self).local_to_network@.contains_key(l));
            }
            }
        }
        n
    }
}

} // verus!
