//! The session registry: which player belongs to which network address.
use vstd::prelude::*;

verus! {

/// The network address of a client: the address of its host as a number,
/// an IPv4 address in its IPv6-mapped form, and its port.
#[derive(Clone, Copy, Debug, PartialEq, Eq, Structural)]
pub struct Address {
    pub ip: u128,
    pub port: u16,
}

/// A client that the server has heard of.
#[derive(Clone, Copy, Debug, PartialEq, Eq, Structural)]
pub struct Client {
    pub address: Address,
    /// The client's player, once it has joined the game.
    pub player_id: Option<u32>,
}

/// The clients that the server has heard of, in the order in which it
/// heard of them.
#[derive(Debug)]
pub struct Sessions {
    pub clients: Vec<Client>,
}

/// Whether a list of clients holds the address.
pub open spec fn knows(clients: Seq<Client>, address: Address) -> bool {
    exists|i: int| 0 <= i < clients.len() && (#[trigger] clients[i]).address == address
}

/// The place of the address in a list of clients that holds it.
pub open spec fn place_of(clients: Seq<Client>, address: Address) -> int {
    choose|i: int| 0 <= i < clients.len() && (#[trigger] clients[i]).address == address
}

/// No address comes twice.
pub open spec fn distinct(clients: Seq<Client>) -> bool {
    forall|i: int, j: int|
        0 <= i < j < clients.len() ==> (#[trigger] clients[i]).address != (
        #[trigger] clients[j]).address
}

/// The players of the clients, by address.
pub open spec fn players_by_address(clients: Seq<Client>) -> Map<Address, Option<u32>> {
    Map::new(
        |a: Address| knows(clients, a),
        |a: Address| clients[place_of(clients, a)].player_id,
    )
}

/// In a list without repeated addresses, a client is found at its place.
pub proof fn lemma_place(clients: Seq<Client>, i: int)
    requires
        distinct(clients),
        0 <= i < clients.len(),
    ensures
        knows(clients, clients[i].address),
        place_of(clients, clients[i].address) == i,
{
    let a = clients[i].address;
    assert(clients[i].address == a);
    let p = place_of(clients, a);
    assert(0 <= p < clients.len() && clients[p].address == a);
    if p < i {
        assert(clients[p].address != clients[i].address);
    } else if i < p {
        assert(clients[i].address != clients[p].address);
    }
}

impl View for Sessions {
    type V = Map<Address, Option<u32>>;

    open spec fn view(&self) -> Map<Address, Option<u32>> {
        players_by_address(self.clients@)
    }
}

impl Sessions {
    /// No address comes twice.
    pub open spec fn wf(&self) -> bool {
        distinct(self.clients@)
    }

    /// A registry without clients.
    pub fn new() -> (s: Self)
        ensures
            s.wf(),
            s@ == Map::<Address, Option<u32>>::empty(),
            s.clients@.len() == 0,
    {
        let s = Sessions { clients: Vec::new() };
        assert(s@ =~= Map::<Address, Option<u32>>::empty());
        s
    }

    /// Whether the registry is well formed.
    pub fn is_valid(&self) -> (b: bool)
        ensures
            b == self.wf(),
    {
        let mut j: usize = 0;
        while j < self.clients.len()
            invariant
                j <= self.clients@.len(),
                forall|a: int, b: int|
                    0 <= a < b < j ==> (#[trigger] self.clients@[a]).address != (
                    #[trigger] self.clients@[b]).address,
            decreases self.clients@.len() - j,
        {
            let mut i: usize = 0;
            while i < j
                invariant
                    i <= j < self.clients@.len(),
                    forall|a: int, b: int|
                        0 <= a < b < j ==> (#[trigger] self.clients@[a]).address != (
                        #[trigger] self.clients@[b]).address,
                    forall|a: int|
                        0 <= a < i ==> (#[trigger] self.clients@[a]).address
                            != self.clients@[j as int].address,
                decreases j - i,
            {
                if self.clients[i].address == self.clients[j].address {
                    return false;
                }
                i += 1;
            }
            j += 1;
        }
        true
    }

    /// Where the client with the address stands in the list.
    pub fn find(&self, address: &Address) -> (r: Option<usize>)
        ensures
            r is Some <==> knows(self.clients@, *address),
            r matches Some(i) ==> i < self.clients@.len() && self.clients@[i as int].address
                == *address,
    {
        let mut i: usize = 0;
        while i < self.clients.len()
            invariant
                i <= self.clients@.len(),
                forall|j: int| 0 <= j < i ==> (#[trigger] self.clients@[j]).address != *address,
            decreases self.clients@.len() - i,
        {
            if self.clients[i].address == *address {
                return Some(i);
            }
            i += 1;
        }
        None
    }

    /// The player of the client with the address, if the client is known
    /// and has one.
    pub fn player_of(&self, address: &Address) -> (r: Option<u32>)
        requires
            self.wf(),
        ensures
            r == (if self@.contains_key(*address) {
                self@[*address]
            } else {
                None
            }),
    {
        match self.find(address) {
            Some(i) => {
                proof {
                    lemma_place(self.clients@, i as int);
                }
                self.clients[i].player_id
            },
            None => None,
        }
    }

    /// Makes the address known. A client that is known stays as it is; a
    /// new one has no player yet and stands last.
    pub fn register(&mut self, address: Address)
        requires
            old(self).wf(),
        ensures
            final(self).wf(),
            final(self)@ == (if old(self)@.contains_key(address) {
                old(self)@
            } else {
                old(self)@.insert(address, None)
            }),
            final(self).clients@ == (if old(self)@.contains_key(address) {
                old(self).clients@
            } else {
                old(self).clients@.push(Client { address, player_id: None })
            }),
    {
        if self.find(&address).is_none() {
            self.clients.push(Client { address, player_id: None });
            proof {
                lemma_pushed(old(self).clients@, Client { address, player_id: None });
            }
        }
    }

    /// Gives the client with the address its player. An address that was
    /// not known is known then, and stands last.
    pub fn assign(&mut self, address: Address, player_id: u32)
        requires
            old(self).wf(),
        ensures
            final(self).wf(),
            final(self)@ == old(self)@.insert(address, Some(player_id)),
            final(self).clients@ == (if old(self)@.contains_key(address) {
                old(self).clients@.update(
                    place_of(old(self).clients@, address),
                    Client { address, player_id: Some(player_id) },
                )
            } else {
                old(self).clients@.push(Client { address, player_id: Some(player_id) })
            }),
    {
        let c = Client { address, player_id: Some(player_id) };
        match self.find(&address) {
            Some(i) => {
                proof {
                    lemma_place(self.clients@, i as int);
                }
                self.clients.set(i, c);
                proof {
                    lemma_updated(old(self).clients@, i as int, c);
                }
            },
            None => {
                self.clients.push(c);
                proof {
                    lemma_pushed(old(self).clients@, c);
                }
            },
        }
    }

    /// Forgets the client with the address. The others keep their order.
    pub fn forget(&mut self, address: &Address)
        requires
            old(self).wf(),
        ensures
            final(self).wf(),
            final(self)@ == old(self)@.remove(*address),
            final(self).clients@ == (if old(self)@.contains_key(*address) {
                old(self).clients@.remove(place_of(old(self).clients@, *address))
            } else {
                old(self).clients@
            }),
    {
        match self.find(address) {
            Some(i) => {
                proof {
                    lemma_place(self.clients@, i as int);
                }
                self.clients.remove(i);
                proof {
                    lemma_removed(old(self).clients@, i as int);
                }
            },
            None => {
                assert(self@ =~= old(self)@.remove(*address));
            },
        }
    }
}

/// A client with a new address at the end of the list.
proof fn lemma_pushed(clients: Seq<Client>, c: Client)
    requires
        distinct(clients),
        !knows(clients, c.address),
    ensures
        distinct(clients.push(c)),
        players_by_address(clients.push(c)) == players_by_address(clients).insert(
            c.address,
            c.player_id,
        ),
{
    let more = clients.push(c);
    assert forall|i: int, j: int| 0 <= i < j < more.len() implies (#[trigger] more[i]).address != (
    #[trigger] more[j]).address by {
        if j == clients.len() {
            assert(clients[i].address != c.address);
        } else {
            assert(clients[i].address != clients[j].address);
        }
    }
    assert forall|a: Address| knows(more, a) <==> knows(clients, a) || a == c.address by {
        if knows(more, a) {
            let i = place_of(more, a);
            if i < clients.len() {
                assert(clients[i].address == a);
            }
        }
        if knows(clients, a) {
            let i = place_of(clients, a);
            assert(more[i].address == a);
        }
        if a == c.address {
            assert(more[clients.len() as int].address == a);
        }
    }
    assert forall|a: Address| knows(more, a) implies more[place_of(more, a)].player_id == (if a
        == c.address {
        c.player_id
    } else {
        clients[place_of(clients, a)].player_id
    }) by {
        let i = place_of(more, a);
        if a == c.address {
            lemma_place(more, clients.len() as int);
        } else {
            assert(i < clients.len());
            assert(clients[i].address == a);
            lemma_place(clients, i);
        }
    }
    assert(players_by_address(more) =~= players_by_address(clients).insert(
        c.address,
        c.player_id,
    ));
}

/// Another player for the client at place `i`.
proof fn lemma_updated(clients: Seq<Client>, i: int, c: Client)
    requires
        distinct(clients),
        0 <= i < clients.len(),
        clients[i].address == c.address,
    ensures
        distinct(clients.update(i, c)),
        players_by_address(clients.update(i, c)) == players_by_address(clients).insert(
            c.address,
            c.player_id,
        ),
{
    let other = clients.update(i, c);
    assert forall|a: int, b: int| 0 <= a < b < other.len() implies (#[trigger] other[a]).address
        != (#[trigger] other[b]).address by {
        assert(clients[a].address != clients[b].address);
    }
    assert forall|a: Address| knows(other, a) <==> knows(clients, a) by {
        if knows(other, a) {
            let k = place_of(other, a);
            assert(clients[k].address == a);
        }
        if knows(clients, a) {
            let k = place_of(clients, a);
            assert(other[k].address == a);
        }
    }
    assert(clients[i].address == c.address);
    assert forall|a: Address| knows(other, a) implies other[place_of(other, a)].player_id == (if a
        == c.address {
        c.player_id
    } else {
        clients[place_of(clients, a)].player_id
    }) by {
        let k = place_of(other, a);
        lemma_place(other, k);
        assert(clients[k].address == a);
        lemma_place(clients, k);
        if a == c.address {
            lemma_place(other, i);
        }
    }
    assert(players_by_address(other) =~= players_by_address(clients).insert(
        c.address,
        c.player_id,
    ));
}

/// The list without the client at place `i`.
proof fn lemma_removed(clients: Seq<Client>, i: int)
    requires
        distinct(clients),
        0 <= i < clients.len(),
    ensures
        distinct(clients.remove(i)),
        players_by_address(clients.remove(i)) == players_by_address(clients).remove(
            clients[i].address,
        ),
{
    let rest = clients.remove(i);
    let gone = clients[i].address;
    assert forall|a: int, b: int| 0 <= a < b < rest.len() implies (#[trigger] rest[a]).address != (
    #[trigger] rest[b]).address by {
        let a0 = if a < i {
            a
        } else {
            a + 1
        };
        let b0 = if b < i {
            b
        } else {
            b + 1
        };
        assert(rest[a] == clients[a0] && rest[b] == clients[b0]);
        assert(clients[a0].address != clients[b0].address);
    }
    assert forall|a: Address| knows(rest, a) <==> knows(clients, a) && a != gone by {
        if knows(rest, a) {
            let k = place_of(rest, a);
            let k0 = if k < i {
                k
            } else {
                k + 1
            };
            assert(rest[k] == clients[k0]);
            assert(clients[k0].address == a);
            if k0 < i {
                assert(clients[k0].address != clients[i].address);
            } else {
                assert(clients[i].address != clients[k0].address);
            }
        }
        if knows(clients, a) && a != gone {
            let k = place_of(clients, a);
            let k1 = if k < i {
                k
            } else {
                k - 1
            };
            assert(rest[k1] == clients[k]);
            assert(rest[k1].address == a);
        }
    }
    assert forall|a: Address| knows(rest, a) implies rest[place_of(rest, a)].player_id
        == clients[place_of(clients, a)].player_id by {
        let k = place_of(rest, a);
        let k0 = if k < i {
            k
        } else {
            k + 1
        };
        assert(rest[k] == clients[k0]);
        lemma_place(clients, k0);
    }
    assert(players_by_address(rest) =~= players_by_address(clients).remove(gone));
}

} // verus!
