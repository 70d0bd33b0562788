//! The asset registry and marketplace: creation, breeding, transfer, pricing
//! and purchase of kitties, kept consistent with the ownership index.
use std::collections::BTreeMap;
use vstd::prelude::*;

use crate::dna::{combine_genome, mix_genome, Genome};
use crate::owned::{
    is_chain, lemma_append_keeps_chain, lemma_chain_frame, lemma_other_accounts_untouched,
    lemma_remove_keeps_chain, lemma_walks_agree, read_link, walk_backward, walk_forward, AccountId,
    KittyIndex, KittyLinkedItem, LinkKey, OwnedKitties,
};

verus! {

broadcast use vstd::std_specs::btree::group_btree_axioms, vstd::laws_cmp::group_laws_cmp;

/// A currency amount.
pub type Balance = u128;

/// The largest kitty id; the counter stops here rather than wrap.
pub const MAX_KITTY_INDEX: KittyIndex = 0xffff_ffff;

/// A kitty: its genome, fixed at creation, and its asking price (0: not for sale).
#[derive(Clone, Copy, Debug)]
pub struct Kitty {
    pub dna: Genome,
    pub price: Balance,
}

/// Why an operation was refused.
#[derive(Clone, Copy, Debug, PartialEq, Eq, Structural)]
pub enum Error {
    /// The id counter is exhausted.
    Overflow,
    /// No kitty has the given id.
    NotFound,
    /// The caller does not own the kitty.
    Unauthorized,
    /// Both parents are the same kitty.
    SameParent,
    /// A parent does not exist.
    InvalidParent,
    /// The kitty's price is 0.
    NotForSale,
    /// The kitty costs more than the buyer's limit.
    PriceTooHigh,
    /// The buyer already owns the kitty.
    OwnPurchase,
    /// The buyer could not pay.
    InsufficientBalance,
}

/// The abstract state of the module.
pub ghost struct ModuleView {
    pub kitties: Map<KittyIndex, Kitty>,
    pub owners: Map<KittyIndex, AccountId>,
    pub count: KittyIndex,
    pub links: Map<LinkKey, KittyLinkedItem>,
    pub chains: Map<AccountId, Seq<KittyIndex>>,
}

/// The list of ids that `chains` records for `a`; empty where none is recorded.
pub open spec fn chain_in(chains: Map<AccountId, Seq<KittyIndex>>, a: AccountId) -> Seq<KittyIndex> {
    if chains.contains_key(a) {
        chains[a]
    } else {
        Seq::empty()
    }
}

/// `s` without the occurrence of `id`.
pub open spec fn without(s: Seq<KittyIndex>, id: KittyIndex) -> Seq<KittyIndex> {
    s.remove(s.index_of(id))
}

/// The lists after `id` leaves `from`'s list and is appended to `to`'s.
pub open spec fn chains_after_move(chains: Map<AccountId, Seq<KittyIndex>>, from: AccountId, to: AccountId, id: KittyIndex) -> Map<AccountId, Seq<KittyIndex>> {
    let c1 = chains.insert(from, without(chain_in(chains, from), id));
    c1.insert(to, chain_in(c1, to).push(id))
}

impl ModuleView {
    /// The ids owned by `a`, oldest first.
    pub open spec fn chain(self, a: AccountId) -> Seq<KittyIndex> {
        chain_in(self.chains, a)
    }

    /// Every kitty's id is below the counter, and every kitty has one owner;
    /// each account's links form its list; and an id is in `a`'s list exactly
    /// when `a` is its owner.
    pub open spec fn wf(self) -> bool {
        &&& forall|id: KittyIndex| #[trigger] self.kitties.contains_key(id) ==> id < self.count
        &&& forall|id: KittyIndex| #[trigger] self.owners.contains_key(id) <==> self.kitties.contains_key(id)
        &&& forall|a: AccountId| is_chain(self.links, a, #[trigger] self.chain(a))
        &&& forall|a: AccountId, id: KittyIndex|
            #[trigger] self.chain(a).contains(id) <==> (self.owners.contains_key(id) && self.owners[id] == a)
    }

    /// `new` follows `self` by issuing `id` to `owner`: the counter's value,
    /// now recorded with its owner and appended to the owner's list.
    pub open spec fn issued(self, new: ModuleView, owner: AccountId, id: KittyIndex) -> bool {
        &&& id == self.count
        &&& new.count == id + 1
        &&& new.kitties.contains_key(id)
        &&& new.kitties == self.kitties.insert(id, new.kitties[id])
        &&& new.kitties[id].price == 0
        &&& new.owners == self.owners.insert(id, owner)
        &&& new.chains == self.chains.insert(owner, self.chain(owner).push(id))
    }

    /// `new` follows `self` by handing `id` from `from` to `to`.
    pub open spec fn moved(self, new: ModuleView, from: AccountId, to: AccountId, id: KittyIndex) -> bool {
        &&& new.count == self.count
        &&& new.owners == self.owners.insert(id, to)
        &&& new.chains == chains_after_move(self.chains, from, to, id)
    }
}

/// What a purchase of `id` by `buyer` with limit `max_price` must pay, and to
/// whom, or why it is refused.
pub open spec fn buy_check(v: ModuleView, buyer: AccountId, id: KittyIndex, max_price: Balance) -> Result<(AccountId, Balance), Error> {
    if !v.kitties.contains_key(id) || !v.owners.contains_key(id) {
        Err(Error::NotFound)
    } else if v.owners[id] == buyer {
        Err(Error::OwnPurchase)
    } else if v.kitties[id].price == 0 {
        Err(Error::NotForSale)
    } else if v.kitties[id].price > max_price {
        Err(Error::PriceTooHigh)
    } else {
        Ok((v.owners[id], v.kitties[id].price))
    }
}

/// Across any run of operations, each id issued is above every id issued
/// before it, and no existing kitty has it when it is issued.
pub proof fn lemma_ids_strictly_increase(
    v0: ModuleView,
    v1: ModuleView,
    v2: ModuleView,
    v3: ModuleView,
    owner1: AccountId,
    owner2: AccountId,
    id1: KittyIndex,
    id2: KittyIndex,
)
    requires
        v0.issued(v1, owner1, id1),
        v1.count <= v2.count,
        v2.wf(),
        v2.issued(v3, owner2, id2),
    ensures
        id1 < id2,
        !v2.kitties.contains_key(id2),
{
    assert(v2.kitties.contains_key(id2) ==> id2 < v2.count);
}

/// In a well-formed module, walking `a`'s links forward from the sentinel
/// meets the ids of `a`'s list in order, walking backward meets them in
/// reverse order, and every id met is owned by `a`.
pub proof fn lemma_owned_walks(v: ModuleView, a: AccountId)
    requires
        v.wf(),
    ensures
        walk_forward(v.links, a, read_link(v.links, a, None).next, v.chain(a).len()) == v.chain(a),
        walk_backward(v.links, a, read_link(v.links, a, None).prev, v.chain(a).len()) == v.chain(a).reverse(),
        forall|x: KittyIndex|
            #[trigger] v.chain(a).contains(x) ==> v.owners.contains_key(x) && v.owners[x] == a,
{
    lemma_walks_agree(v.links, a, v.chain(a));
}

proof fn lemma_remove_contains(s: Seq<KittyIndex>, i: int)
    requires
        s.no_duplicates(),
        0 <= i < s.len(),
    ensures
        forall|x: KittyIndex| #[trigger] s.remove(i).contains(x) <==> (s.contains(x) && x != s[i]),
{
    assert forall|x: KittyIndex| #[trigger] s.remove(i).contains(x) <==> (s.contains(x) && x != s[i]) by {
        let t = s.remove(i);
        if t.contains(x) {
            let k = choose|k: int| 0 <= k < t.len() && t[k] == x;
            let kk = if k < i { k } else { k + 1 };
            assert(s[kk] == x);
        }
        if s.contains(x) && x != s[i] {
            let k = choose|k: int| 0 <= k < s.len() && s[k] == x;
            let kk = if k < i { k } else { k - 1 };
            assert(t[kk] == x);
        }
    }
}

proof fn lemma_push_contains(s: Seq<KittyIndex>, id: KittyIndex)
    ensures
        forall|x: KittyIndex| #[trigger] s.push(id).contains(x) <==> (s.contains(x) || x == id),
{
    assert forall|x: KittyIndex| #[trigger] s.push(id).contains(x) <==> (s.contains(x) || x == id) by {
        let t = s.push(id);
        if t.contains(x) {
            let k = choose|k: int| 0 <= k < t.len() && t[k] == x;
            if k < s.len() {
                assert(s[k] == x);
            }
        }
        if s.contains(x) {
            let k = choose|k: int| 0 <= k < s.len() && s[k] == x;
            assert(t[k] == x);
        }
        assert(t[s.len() as int] == id);
    }
}

/// The kitty registry, its owners and the ownership index.
pub struct Module {
    kitties: BTreeMap<KittyIndex, Kitty>,
    kitty_owner: BTreeMap<KittyIndex, AccountId>,
    kitties_count: KittyIndex,
    owned_kitties: OwnedKitties,
    chains: Ghost<Map<AccountId, Seq<KittyIndex>>>,
}

impl View for Module {
    type V = ModuleView;

    closed spec fn view(&self) -> ModuleView {
        ModuleView {
            kitties: self.kitties@,
            owners: self.kitty_owner@,
            count: self.kitties_count,
            links: self.owned_kitties@,
            chains: self.chains@,
        }
    }
}

impl Module {
    /// A module with no kitties, whose first kitty gets id 0.
    pub fn new() -> (r: Module)
        ensures
            r@.wf(),
            r@.count == 0,
            r@.kitties == Map::<KittyIndex, Kitty>::empty(),
            r@.owners == Map::<KittyIndex, AccountId>::empty(),
            r@.links == Map::<LinkKey, KittyLinkedItem>::empty(),
    {
        Module::with_first_id(0)
    }

    /// A module with no kitties, whose first kitty gets id `first_id`.
    pub fn with_first_id(first_id: KittyIndex) -> (r: Module)
        ensures
            r@.wf(),
            r@.count == first_id,
            r@.kitties == Map::<KittyIndex, Kitty>::empty(),
            r@.owners == Map::<KittyIndex, AccountId>::empty(),
            r@.links == Map::<LinkKey, KittyLinkedItem>::empty(),
    {
        let r = Module {
            kitties: BTreeMap::new(),
            kitty_owner: BTreeMap::new(),
            kitties_count: first_id,
            owned_kitties: OwnedKitties::new(),
            chains: Ghost(Map::empty()),
        };
        proof {
            assert forall|a: AccountId| is_chain(r@.links, a, #[trigger] r@.chain(a)) by {
                assert(r@.chain(a) =~= Seq::<KittyIndex>::empty());
            }
        }
        r
    }

    /// The id the next kitty will get, or `Overflow` when the counter is at
    /// its largest value.
    fn next_kitty_id(&self) -> (r: Result<KittyIndex, Error>)
        ensures
            self@.count == MAX_KITTY_INDEX ==> r == Err::<KittyIndex, Error>(Error::Overflow),
            self@.count != MAX_KITTY_INDEX ==> r == Ok::<KittyIndex, Error>(self@.count),
    {
        let kitty_id = self.kitties_count;
        if kitty_id == MAX_KITTY_INDEX {
            return Err(Error::Overflow);
        }
        Ok(kitty_id)
    }

    /// Records `owner` for the new kitty `kitty_id` and appends it to the
    /// owner's list.
    fn insert_owned_kitty(&mut self, owner: AccountId, kitty_id: KittyIndex)
        requires
            old(self)@.kitties.contains_key(kitty_id),
            !old(self)@.owners.contains_key(kitty_id),
            forall|a: AccountId| is_chain(old(self)@.links, a, #[trigger] old(self)@.chain(a)),
            forall|a: AccountId, id: KittyIndex|
                #[trigger] old(self)@.chain(a).contains(id) <==> (old(self)@.owners.contains_key(id)
                    && old(self)@.owners[id] == a),
        ensures
            final(self)@.kitties == old(self)@.kitties,
            final(self)@.count == old(self)@.count,
            final(self)@.owners == old(self)@.owners.insert(kitty_id, owner),
            final(self)@.chains == old(self)@.chains.insert(owner, old(self)@.chain(owner).push(kitty_id)),
            forall|a: AccountId| is_chain(final(self)@.links, a, #[trigger] final(self)@.chain(a)),
            forall|a: AccountId, id: KittyIndex|
                #[trigger] final(self)@.chain(a).contains(id) <==> (final(self)@.owners.contains_key(id)
                    && final(self)@.owners[id] == a),
    {
        let ghost v0 = self@;
        let ghost s = v0.chain(owner);
        self.kitty_owner.insert(kitty_id, owner);
        self.owned_kitties.append(owner, kitty_id);
        self.chains = Ghost(v0.chains.insert(owner, s.push(kitty_id)));
        proof {
            let v1 = self@;
            assert(v0.chain(owner).contains(kitty_id) ==> v0.owners.contains_key(kitty_id));
            lemma_append_keeps_chain(v0.links, owner, s, kitty_id);
            lemma_push_contains(s, kitty_id);
            assert forall|a: AccountId| is_chain(v1.links, a, #[trigger] v1.chain(a)) by {
                if a != owner {
                    assert(v1.chain(a) == v0.chain(a));
                    lemma_other_accounts_untouched(v0.links, owner, a, kitty_id);
                    lemma_chain_frame(v0.links, v1.links, a, v0.chain(a));
                }
            }
            assert forall|a: AccountId, id: KittyIndex|
                #[trigger] v1.chain(a).contains(id) <==> (v1.owners.contains_key(id) && v1.owners[id] == a) by {
                if a != owner {
                    assert(v1.chain(a) == v0.chain(a));
                    if id == kitty_id {
                        assert(!v0.chain(a).contains(id));
                    }
                } else {
                    assert(v0.chain(a).contains(id) <==> (v0.owners.contains_key(id) && v0.owners[id] == a));
                }
            }
        }
    }

    /// Stores `kitty` under the counter's id, advances the counter and gives
    /// the kitty to `owner`.
    fn insert_kitty(&mut self, owner: AccountId, kitty_id: KittyIndex, kitty: Kitty)
        requires
            old(self)@.wf(),
            kitty_id == old(self)@.count,
            kitty_id < MAX_KITTY_INDEX,
            kitty.price == 0,
        ensures
            final(self)@.wf(),
            old(self)@.issued(final(self)@, owner, kitty_id),
            final(self)@.kitties[kitty_id] == kitty,
    {
        let ghost v0 = self@;
        proof {
            assert(!v0.kitties.contains_key(kitty_id));
            assert(!v0.owners.contains_key(kitty_id));
        }
        self.kitties.insert(kitty_id, kitty);
        self.kitties_count = kitty_id + 1;
        proof {
            let vm = self@;
            assert forall|a: AccountId| is_chain(vm.links, a, #[trigger] vm.chain(a)) by {
                assert(vm.chain(a) == v0.chain(a));
            }
            assert forall|a: AccountId, id: KittyIndex|
                #[trigger] vm.chain(a).contains(id) <==> (vm.owners.contains_key(id) && vm.owners[id] == a) by {
                assert(vm.chain(a) == v0.chain(a));
            }
        }
        self.insert_owned_kitty(owner, kitty_id);
        proof {
            let v1 = self@;
            assert(v1.kitties =~= v0.kitties.insert(kitty_id, v1.kitties[kitty_id]));
            assert forall|id: KittyIndex| #[trigger] v1.kitties.contains_key(id) ==> id < v1.count by {
                assert(v0.kitties.contains_key(id) ==> id < v0.count);
            }
            assert forall|id: KittyIndex| #[trigger] v1.owners.contains_key(id) <==> v1.kitties.contains_key(id) by {
                assert(v0.owners.contains_key(id) <==> v0.kitties.contains_key(id));
            }
        }
    }

    /// Hands `kitty_id` from its owner `from` to `to`, in the owners and in
    /// both lists.
    fn move_kitty(&mut self, from: AccountId, to: AccountId, kitty_id: KittyIndex)
        requires
            old(self)@.wf(),
            old(self)@.owners.contains_key(kitty_id),
            old(self)@.owners[kitty_id] == from,
        ensures
            final(self)@.wf(),
            old(self)@.moved(final(self)@, from, to, kitty_id),
            final(self)@.kitties == old(self)@.kitties,
    {
        let ghost v0 = self@;
        let ghost s = v0.chain(from);
        let ghost i = s.index_of(kitty_id);
        proof {
            assert(s.contains(kitty_id));
        }
        self.kitty_owner.insert(kitty_id, to);
        self.owned_kitties.remove(from, kitty_id);
        let ghost l1 = self.owned_kitties@;
        let ghost c1 = v0.chains.insert(from, without(s, kitty_id));
        let ghost t = chain_in(c1, to);
        proof {
            lemma_remove_keeps_chain(v0.links, from, s, i);
            lemma_remove_contains(s, i);
            assert forall|a: AccountId| is_chain(l1, a, #[trigger] chain_in(c1, a)) by {
                if a != from {
                    assert(chain_in(c1, a) == v0.chain(a));
                    lemma_other_accounts_untouched(v0.links, from, a, kitty_id);
                    lemma_chain_frame(v0.links, l1, a, v0.chain(a));
                }
            }
            if to != from {
                assert(t == v0.chain(to));
                assert(!v0.chain(to).contains(kitty_id));
            }
        }
        self.owned_kitties.append(to, kitty_id);
        self.chains = Ghost(chains_after_move(v0.chains, from, to, kitty_id));
        proof {
            let v1 = self@;
            lemma_append_keeps_chain(l1, to, t, kitty_id);
            lemma_push_contains(t, kitty_id);
            assert forall|a: AccountId| is_chain(v1.links, a, #[trigger] v1.chain(a)) by {
                if a != to {
                    assert(v1.chain(a) == chain_in(c1, a));
                    lemma_other_accounts_untouched(l1, to, a, kitty_id);
                    lemma_chain_frame(l1, v1.links, a, chain_in(c1, a));
                }
            }
            assert forall|a: AccountId, x: KittyIndex|
                #[trigger] v1.chain(a).contains(x) <==> (v1.owners.contains_key(x) && v1.owners[x] == a) by {
                assert(v0.chain(a).contains(x) <==> (v0.owners.contains_key(x) && v0.owners[x] == a));
                assert(s.contains(x) <==> (v0.owners.contains_key(x) && v0.owners[x] == from));
                if a != to && a != from {
                    assert(v1.chain(a) == v0.chain(a));
                } else if a == to {
                    assert(v1.chain(a) == t.push(kitty_id));
                    if to != from {
                        assert(v0.chain(to).contains(x) <==> (v0.owners.contains_key(x) && v0.owners[x] == to));
                    }
                } else {
                    assert(v1.chain(a) == without(s, kitty_id));
                }
            }
            assert forall|x: KittyIndex| #[trigger] v1.owners.contains_key(x) <==> v1.kitties.contains_key(x) by {
                assert(v0.owners.contains_key(x) <==> v0.kitties.contains_key(x));
            }
        }
    }

    /// Creates a kitty with genome `dna` and price 0, owned by `sender`,
    /// under the next id; fails with `Overflow`, changing nothing, when the
    /// counter is at its largest value.
    pub fn create(&mut self, sender: AccountId, dna: Genome) -> (r: Result<KittyIndex, Error>)
        requires
            old(self)@.wf(),
        ensures
            final(self)@.wf(),
            final(self)@.count >= old(self)@.count,
            old(self)@.count == MAX_KITTY_INDEX ==> r == Err::<KittyIndex, Error>(Error::Overflow)
                && final(self)@ == old(self)@,
            old(self)@.count != MAX_KITTY_INDEX ==> r == Ok::<KittyIndex, Error>(old(self)@.count)
                && old(self)@.issued(final(self)@, sender, old(self)@.count)
                && final(self)@.kitties[old(self)@.count].dna == dna,
    {
        let kitty_id = match self.next_kitty_id() {
            Ok(id) => id,
            Err(e) => return Err(e),
        };
        let kitty = Kitty { dna, price: 0 };
        self.insert_kitty(sender, kitty_id, kitty);
        Ok(kitty_id)
    }

    /// Breeds a kitty for `sender` from two distinct existing parents: each
    /// genome bit comes from the first parent where `selector` has it set,
    /// else from the second.
    pub fn breed(&mut self, sender: AccountId, kitty_id_1: KittyIndex, kitty_id_2: KittyIndex, selector: Genome) -> (r: Result<KittyIndex, Error>)
        requires
            old(self)@.wf(),
        ensures
            final(self)@.wf(),
            final(self)@.count >= old(self)@.count,
            r is Err ==> final(self)@ == old(self)@,
            !old(self)@.kitties.contains_key(kitty_id_1) || !old(self)@.kitties.contains_key(kitty_id_2)
                ==> r == Err::<KittyIndex, Error>(Error::InvalidParent),
            old(self)@.kitties.contains_key(kitty_id_1) && old(self)@.kitties.contains_key(kitty_id_2)
                && kitty_id_1 == kitty_id_2 ==> r == Err::<KittyIndex, Error>(Error::SameParent),
            old(self)@.kitties.contains_key(kitty_id_1) && old(self)@.kitties.contains_key(kitty_id_2)
                && kitty_id_1 != kitty_id_2 && old(self)@.count == MAX_KITTY_INDEX
                ==> r == Err::<KittyIndex, Error>(Error::Overflow),
            old(self)@.kitties.contains_key(kitty_id_1) && old(self)@.kitties.contains_key(kitty_id_2)
                && kitty_id_1 != kitty_id_2 && old(self)@.count != MAX_KITTY_INDEX
                ==> r == Ok::<KittyIndex, Error>(old(self)@.count)
                && old(self)@.issued(final(self)@, sender, old(self)@.count)
                && final(self)@.kitties[old(self)@.count].dna@ == mix_genome(
                old(self)@.kitties[kitty_id_1].dna@,
                old(self)@.kitties[kitty_id_2].dna@,
                selector@,
            ),
    {
        let kitty1 = match self.kitties.get(&kitty_id_1) {
            Some(k) => *k,
            None => return Err(Error::InvalidParent),
        };
        let kitty2 = match self.kitties.get(&kitty_id_2) {
            Some(k) => *k,
            None => return Err(Error::InvalidParent),
        };
        if kitty_id_1 == kitty_id_2 {
            return Err(Error::SameParent);
        }
        let kitty_id = match self.next_kitty_id() {
            Ok(id) => id,
            Err(e) => return Err(e),
        };
        let new_dna = combine_genome(&kitty1.dna, &kitty2.dna, &selector);
        let kitty = Kitty { dna: new_dna, price: 0 };
        self.insert_kitty(sender, kitty_id, kitty);
        Ok(kitty_id)
    }

    /// Gives `kitty_id` from its owner `sender` to `to`; fails with
    /// `NotFound` for an unknown kitty and `Unauthorized` when `sender` does
    /// not own it, changing nothing.
    pub fn transfer(&mut self, sender: AccountId, to: AccountId, kitty_id: KittyIndex) -> (r: Result<(), Error>)
        requires
            old(self)@.wf(),
        ensures
            final(self)@.wf(),
            final(self)@.count >= old(self)@.count,
            r is Err ==> final(self)@ == old(self)@,
            !old(self)@.owners.contains_key(kitty_id) ==> r == Err::<(), Error>(Error::NotFound),
            old(self)@.owners.contains_key(kitty_id) && old(self)@.owners[kitty_id] != sender
                ==> r == Err::<(), Error>(Error::Unauthorized),
            old(self)@.owners.contains_key(kitty_id) && old(self)@.owners[kitty_id] == sender
                ==> r is Ok && old(self)@.moved(final(self)@, sender, to, kitty_id)
                && final(self)@.kitties == old(self)@.kitties,
    {
        let owner = match self.kitty_owner.get(&kitty_id) {
            Some(o) => *o,
            None => return Err(Error::NotFound),
        };
        if owner != sender {
            return Err(Error::Unauthorized);
        }
        self.move_kitty(sender, to, kitty_id);
        Ok(())
    }

    /// Checks a purchase of `kitty_id` by `sender` at no more than
    /// `max_price`, and gives the owner to pay and the price.
    pub fn buy_payment(&self, sender: AccountId, kitty_id: KittyIndex, max_price: Balance) -> (r: Result<(AccountId, Balance), Error>)
        requires
            self@.wf(),
        ensures
            r == buy_check(self@, sender, kitty_id, max_price),
    {
        let kitty = match self.kitties.get(&kitty_id) {
            Some(k) => *k,
            None => return Err(Error::NotFound),
        };
        let owner = match self.kitty_owner.get(&kitty_id) {
            Some(o) => *o,
            None => return Err(Error::NotFound),
        };
        if owner == sender {
            return Err(Error::OwnPurchase);
        }
        if kitty.price == 0 {
            return Err(Error::NotForSale);
        }
        if kitty.price > max_price {
            return Err(Error::PriceTooHigh);
        }
        Ok((owner, kitty.price))
    }

    /// Completes a purchase of `kitty_id` by `sender`. `paid` tells whether
    /// the payment that `buy_payment` named went through. When the checks
    /// pass and it did, the kitty goes to `sender` and is taken off sale;
    /// otherwise nothing changes and the check's error, or
    /// `InsufficientBalance`, is returned.
    pub fn buy_kitty(&mut self, sender: AccountId, kitty_id: KittyIndex, max_price: Balance, paid: bool) -> (r: Result<(), Error>)
        requires
            old(self)@.wf(),
        ensures
            final(self)@.wf(),
            final(self)@.count >= old(self)@.count,
            r is Err ==> final(self)@ == old(self)@,
            buy_check(old(self)@, sender, kitty_id, max_price) is Err ==> r == Err::<(), Error>(
                buy_check(old(self)@, sender, kitty_id, max_price)->Err_0,
            ),
            buy_check(old(self)@, sender, kitty_id, max_price) is Ok && !paid ==> r == Err::<(), Error>(
                Error::InsufficientBalance,
            ),
            buy_check(old(self)@, sender, kitty_id, max_price) is Ok && paid ==> r is Ok
                && old(self)@.moved(final(self)@, old(self)@.owners[kitty_id], sender, kitty_id)
                && final(self)@.owners[kitty_id] == sender
                && final(self)@.kitties == old(self)@.kitties.insert(
                kitty_id,
                Kitty { dna: old(self)@.kitties[kitty_id].dna, price: 0 },
            ),
    {
        let (owner, _price) = match self.buy_payment(sender, kitty_id, max_price) {
            Ok(p) => p,
            Err(e) => return Err(e),
        };
        if !paid {
            return Err(Error::InsufficientBalance);
        }
        let kitty = match self.kitties.get(&kitty_id) {
            Some(k) => *k,
            None => return Err(Error::NotFound),
        };
        self.move_kitty(owner, sender, kitty_id);
        let ghost v1 = self@;
        self.kitties.insert(kitty_id, Kitty { dna: kitty.dna, price: 0 });
        proof {
            let v2 = self@;
            assert forall|id: KittyIndex| #[trigger] v2.kitties.contains_key(id) ==> id < v2.count by {
                assert(v1.kitties.contains_key(id) ==> id < v1.count);
            }
            assert forall|id: KittyIndex| #[trigger] v2.owners.contains_key(id) <==> v2.kitties.contains_key(id) by {
                assert(v1.owners.contains_key(id) <==> v1.kitties.contains_key(id));
            }
            assert forall|a: AccountId| is_chain(v2.links, a, #[trigger] v2.chain(a)) by {
                assert(v2.chain(a) == v1.chain(a));
            }
            assert forall|a: AccountId, id: KittyIndex|
                #[trigger] v2.chain(a).contains(id) <==> (v2.owners.contains_key(id) && v2.owners[id] == a) by {
                assert(v2.chain(a) == v1.chain(a));
            }
        }
        Ok(())
    }

    /// Sets the price of `kitty_id` (0: not for sale); fails with `NotFound`
    /// for an unknown kitty and `Unauthorized` when `sender` does not own it,
    /// changing nothing.
    pub fn set_price(&mut self, sender: AccountId, kitty_id: KittyIndex, price: Balance) -> (r: Result<(), Error>)
        requires
            old(self)@.wf(),
        ensures
            final(self)@.wf(),
            final(self)@.count >= old(self)@.count,
            r is Err ==> final(self)@ == old(self)@,
            !old(self)@.kitties.contains_key(kitty_id) ==> r == Err::<(), Error>(Error::NotFound),
            old(self)@.kitties.contains_key(kitty_id) && old(self)@.owners[kitty_id] != sender
                ==> r == Err::<(), Error>(Error::Unauthorized),
            old(self)@.kitties.contains_key(kitty_id) && old(self)@.owners[kitty_id] == sender
                ==> r is Ok && final(self)@ == (ModuleView {
                kitties: old(self)@.kitties.insert(
                    kitty_id,
                    Kitty { dna: old(self)@.kitties[kitty_id].dna, price },
                ),
                ..old(self)@
            }),
    {
        let kitty = match self.kitties.get(&kitty_id) {
            Some(k) => *k,
            None => return Err(Error::NotFound),
        };
        let owner = match self.kitty_owner.get(&kitty_id) {
            Some(o) => *o,
            None => return Err(Error::NotFound),
        };
        if owner != sender {
            return Err(Error::Unauthorized);
        }
        let ghost v0 = self@;
        self.kitties.insert(kitty_id, Kitty { dna: kitty.dna, price });
        proof {
            let v1 = self@;
            assert forall|id: KittyIndex| #[trigger] v1.kitties.contains_key(id) ==> id < v1.count by {
                assert(v0.kitties.contains_key(id) ==> id < v0.count);
            }
            assert forall|id: KittyIndex| #[trigger] v1.owners.contains_key(id) <==> v1.kitties.contains_key(id) by {
                assert(v0.owners.contains_key(id) <==> v0.kitties.contains_key(id));
            }
            assert forall|a: AccountId| is_chain(v1.links, a, #[trigger] v1.chain(a)) by {
                assert(v1.chain(a) == v0.chain(a));
            }
            assert forall|a: AccountId, id: KittyIndex|
                #[trigger] v1.chain(a).contains(id) <==> (v1.owners.contains_key(id) && v1.owners[id] == a) by {
                assert(v1.chain(a) == v0.chain(a));
            }
        }
        Ok(())
    }

    /// The kitty with id `kitty_id`, if any.
    pub fn kitty(&self, kitty_id: KittyIndex) -> (r: Option<Kitty>)
        ensures
            r == (if self@.kitties.contains_key(kitty_id) {
                Some(self@.kitties[kitty_id])
            } else {
                None
            }),
    {
        match self.kitties.get(&kitty_id) {
            Some(k) => Some(*k),
            None => None,
        }
    }

    /// Whether a kitty has id `kitty_id`.
    pub fn contains_kitty(&self, kitty_id: KittyIndex) -> (r: bool)
        ensures
            r == self@.kitties.contains_key(kitty_id),
    {
        self.kitties.contains_key(&kitty_id)
    }

    /// The owner of `kitty_id`, if it exists.
    pub fn owner_of(&self, kitty_id: KittyIndex) -> (r: Option<AccountId>)
        ensures
            r == (if self@.owners.contains_key(kitty_id) {
                Some(self@.owners[kitty_id])
            } else {
                None
            }),
    {
        match self.kitty_owner.get(&kitty_id) {
            Some(o) => Some(*o),
            None => None,
        }
    }

    /// The id counter: the number of kitties, and the next id.
    pub fn kitties_count(&self) -> (r: KittyIndex)
        ensures
            r == self@.count,
    {
        self.kitties_count
    }

    /// The link of the ownership index stored under `key`, if any.
    pub fn owned_kitties(&self, key: &LinkKey) -> (r: Option<KittyLinkedItem>)
        ensures
            r == (if self@.links.contains_key(*key) {
                Some(self@.links[*key])
            } else {
                None
            }),
    {
        self.owned_kitties.get(key)
    }
}

} // verus!
