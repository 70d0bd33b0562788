//! The ownership index: for each account, a doubly linked list of kitty ids
//! whose links are entries of a key-value map. The entry keyed by
//! `(account, None)` is the account's sentinel: its `next` is the oldest id,
//! its `prev` the newest.
use std::collections::BTreeMap;
use vstd::prelude::*;

verus! {

broadcast use vstd::std_specs::btree::group_btree_axioms, vstd::laws_cmp::group_laws_cmp;

/// An account identifier.
pub type AccountId = u64;

/// A kitty identifier.
pub type KittyIndex = u32;

/// The key of a link: an account and a kitty id, or no id for the sentinel.
pub type LinkKey = (AccountId, Option<KittyIndex>);

/// The neighbours of one entry of an account's list.
#[derive(Clone, Copy, Debug, PartialEq, Eq, Structural)]
pub struct KittyLinkedItem {
    pub prev: Option<KittyIndex>,
    pub next: Option<KittyIndex>,
}

/// The link with no neighbours.
pub open spec fn empty_link() -> KittyLinkedItem {
    KittyLinkedItem { prev: None, next: None }
}

/// The stored link under `(a, k)`, or the empty link where none is stored.
pub open spec fn read_link(m: Map<LinkKey, KittyLinkedItem>, a: AccountId, k: Option<KittyIndex>) -> KittyLinkedItem {
    if m.contains_key((a, k)) {
        m[(a, k)]
    } else {
        empty_link()
    }
}

/// The links after `id` is appended to the list of `a`.
pub open spec fn appended(m: Map<LinkKey, KittyLinkedItem>, a: AccountId, id: KittyIndex) -> Map<LinkKey, KittyLinkedItem> {
    let head = read_link(m, a, None);
    let m1 = m.insert((a, None), KittyLinkedItem { prev: Some(id), next: head.next });
    let last = read_link(m1, a, head.prev);
    let m2 = m1.insert((a, head.prev), KittyLinkedItem { prev: last.prev, next: Some(id) });
    m2.insert((a, Some(id)), KittyLinkedItem { prev: head.prev, next: None })
}

/// The links after `id` is unlinked from the list of `a`; unchanged where
/// `id` has no link there.
pub open spec fn removed(m: Map<LinkKey, KittyLinkedItem>, a: AccountId, id: KittyIndex) -> Map<LinkKey, KittyLinkedItem> {
    if !m.contains_key((a, Some(id))) {
        m
    } else {
        let item = m[(a, Some(id))];
        let m1 = m.remove((a, Some(id)));
        let before = read_link(m1, a, item.prev);
        let m2 = m1.insert((a, item.prev), KittyLinkedItem { prev: before.prev, next: item.next });
        let after = read_link(m2, a, item.next);
        m2.insert((a, item.next), KittyLinkedItem { prev: item.prev, next: after.next })
    }
}

/// The first element of `s`, if any.
pub open spec fn first_of(s: Seq<KittyIndex>) -> Option<KittyIndex> {
    if s.len() > 0 {
        Some(s[0])
    } else {
        None
    }
}

/// The last element of `s`, if any.
pub open spec fn last_of(s: Seq<KittyIndex>) -> Option<KittyIndex> {
    if s.len() > 0 {
        Some(s.last())
    } else {
        None
    }
}

/// The link that position `i` of the list `s` must carry.
pub open spec fn link_at(s: Seq<KittyIndex>, i: int) -> KittyLinkedItem {
    KittyLinkedItem {
        prev: if i > 0 {
            Some(s[i - 1])
        } else {
            None
        },
        next: if i + 1 < s.len() {
            Some(s[i + 1])
        } else {
            None
        },
    }
}

/// The links of account `a` form exactly the list `s`: distinct ids, each
/// linked to its neighbours in `s`, the sentinel at both ends, and no link
/// for an id outside `s`.
pub open spec fn is_chain(m: Map<LinkKey, KittyLinkedItem>, a: AccountId, s: Seq<KittyIndex>) -> bool {
    &&& s.no_duplicates()
    &&& read_link(m, a, None) == (KittyLinkedItem { prev: last_of(s), next: first_of(s) })
    &&& forall|i: int|
        0 <= i < s.len() ==> #[trigger] m.contains_key((a, Some(s[i]))) && m[(a, Some(s[i]))]
            == link_at(s, i)
    &&& forall|x: KittyIndex| !s.contains(x) ==> !#[trigger] m.contains_key((a, Some(x)))
}

/// `m1` and `m2` hold the same links for account `a`.
pub open spec fn same_account_links(m1: Map<LinkKey, KittyLinkedItem>, m2: Map<LinkKey, KittyLinkedItem>, a: AccountId) -> bool {
    forall|k: Option<KittyIndex>|
        #[trigger] m1.contains_key((a, k)) == m2.contains_key((a, k)) && (m1.contains_key((a, k))
            ==> m1[(a, k)] == m2[(a, k)])
}

/// Appending an id that is not yet in `a`'s list `s` gives the list `s`
/// followed by that id.
pub proof fn lemma_append_keeps_chain(m: Map<LinkKey, KittyLinkedItem>, a: AccountId, s: Seq<KittyIndex>, id: KittyIndex)
    requires
        is_chain(m, a, s),
        !s.contains(id),
    ensures
        is_chain(appended(m, a, id), a, s.push(id)),
{
    let t = s.push(id);
    let r = appended(m, a, id);
    let n = s.len() as int;
    assert forall|i: int, j: int| 0 <= i < t.len() && 0 <= j < t.len() && i != j implies t[i] != t[j] by {
        if i < n && j < n {
            assert(s[i] != s[j]);
        } else if i == n {
            assert(s.contains(s[j]));
        } else {
            assert(s.contains(s[i]));
        }
    }
    assert forall|i: int| 0 <= i < t.len() implies #[trigger] r.contains_key((a, Some(t[i]))) && r[(a, Some(t[i]))]
        == link_at(t, i) by {
        if i < n {
            assert(m.contains_key((a, Some(s[i]))));
            if i < n - 1 {
                assert(s[i] != s[n - 1]);
            }
        }
    }
    assert forall|x: KittyIndex| !t.contains(x) implies !#[trigger] r.contains_key((a, Some(x))) by {
        if s.contains(x) {
            let k = choose|k: int| 0 <= k < n && s[k] == x;
            assert(t[k] == x);
        }
        if n > 0 {
            assert(t[n - 1] == s.last());
        }
        assert(t[n] == id);
    }
}

/// Removing the id at position `i` of `a`'s list `s` gives `s` without it.
pub proof fn lemma_remove_keeps_chain(m: Map<LinkKey, KittyLinkedItem>, a: AccountId, s: Seq<KittyIndex>, i: int)
    requires
        is_chain(m, a, s),
        0 <= i < s.len(),
    ensures
        is_chain(removed(m, a, s[i]), a, s.remove(i)),
{
    let t = s.remove(i);
    let id = s[i];
    let r = removed(m, a, id);
    let n = s.len() as int;
    assert(m.contains_key((a, Some(s[i]))));
    assert forall|p: int, q: int| 0 <= p < t.len() && 0 <= q < t.len() && p != q implies t[p] != t[q] by {
        let pp = if p < i { p } else { p + 1 };
        let qq = if q < i { q } else { q + 1 };
        assert(s[pp] != s[qq]);
    }
    assert forall|j: int| 0 <= j < t.len() implies #[trigger] r.contains_key((a, Some(t[j]))) && r[(a, Some(t[j]))]
        == link_at(t, j) by {
        let jj = if j < i { j } else { j + 1 };
        assert(t[j] == s[jj]);
        assert(m.contains_key((a, Some(s[jj]))));
        assert(s[jj] != id);
        if i > 0 {
            assert(s[i - 1] != s[jj] || jj == i - 1);
        }
        if i + 1 < n {
            assert(s[i + 1] != s[jj] || jj == i + 1);
        }
    }
    assert forall|x: KittyIndex| !t.contains(x) implies !#[trigger] r.contains_key((a, Some(x))) by {
        if s.contains(x) && x != id {
            let k = choose|k: int| 0 <= k < n && s[k] == x;
            assert(k != i);
            let kk = if k < i { k } else { k - 1 };
            assert(t[kk] == x);
        }
        if i > 0 {
            assert(t[i - 1] == s[i - 1]);
        }
        if i + 1 < n {
            assert(t[i] == s[i + 1]);
        }
    }
}

/// Appending to or removing from one account's list leaves every other
/// account's links as they were.
pub proof fn lemma_other_accounts_untouched(m: Map<LinkKey, KittyLinkedItem>, a: AccountId, b: AccountId, id: KittyIndex)
    requires
        a != b,
    ensures
        same_account_links(m, appended(m, a, id), b),
        same_account_links(m, removed(m, a, id), b),
{
}

/// Links that agree for account `b` describe the same list of `b`.
pub proof fn lemma_chain_frame(m1: Map<LinkKey, KittyLinkedItem>, m2: Map<LinkKey, KittyLinkedItem>, b: AccountId, s: Seq<KittyIndex>)
    requires
        is_chain(m1, b, s),
        same_account_links(m1, m2, b),
    ensures
        is_chain(m2, b, s),
{
    assert(m1.contains_key((b, None)) == m2.contains_key((b, None)));
    assert forall|i: int| 0 <= i < s.len() implies #[trigger] m2.contains_key((b, Some(s[i]))) && m2[(b, Some(s[i]))]
        == link_at(s, i) by {
        assert(m1.contains_key((b, Some(s[i]))) == m2.contains_key((b, Some(s[i]))));
    }
    assert forall|x: KittyIndex| !s.contains(x) implies !#[trigger] m2.contains_key((b, Some(x))) by {
        assert(m1.contains_key((b, Some(x))) == m2.contains_key((b, Some(x))));
    }
}

/// Appending an id that is not in `a`'s list and then removing it gives back
/// that list and its sentinel; from an empty list the sentinel is left with no
/// neighbours.
pub proof fn lemma_append_remove_round_trip(m: Map<LinkKey, KittyLinkedItem>, a: AccountId, s: Seq<KittyIndex>, id: KittyIndex)
    requires
        is_chain(m, a, s),
        !s.contains(id),
    ensures
        is_chain(removed(appended(m, a, id), a, id), a, s),
        read_link(removed(appended(m, a, id), a, id), a, None) == read_link(m, a, None),
        s.len() == 0 ==> read_link(removed(appended(m, a, id), a, id), a, None) == empty_link(),
{
    lemma_append_keeps_chain(m, a, s, id);
    let t = s.push(id);
    lemma_remove_keeps_chain(appended(m, a, id), a, t, s.len() as int);
    assert(t.remove(s.len() as int) =~= s);
}

/// The ids met when following `next` links from `from`, at most `n` of them.
pub open spec fn walk_forward(m: Map<LinkKey, KittyLinkedItem>, a: AccountId, from: Option<KittyIndex>, n: nat) -> Seq<KittyIndex>
    decreases n,
{
    if n == 0 {
        Seq::empty()
    } else {
        match from {
            None => Seq::empty(),
            Some(x) => seq![x] + walk_forward(m, a, read_link(m, a, Some(x)).next, (n - 1) as nat),
        }
    }
}

/// The ids met when following `prev` links from `from`, at most `n` of them.
pub open spec fn walk_backward(m: Map<LinkKey, KittyLinkedItem>, a: AccountId, from: Option<KittyIndex>, n: nat) -> Seq<KittyIndex>
    decreases n,
{
    if n == 0 {
        Seq::empty()
    } else {
        match from {
            None => Seq::empty(),
            Some(x) => seq![x] + walk_backward(m, a, read_link(m, a, Some(x)).prev, (n - 1) as nat),
        }
    }
}

proof fn lemma_walk_forward_from(m: Map<LinkKey, KittyLinkedItem>, a: AccountId, s: Seq<KittyIndex>, k: int, n: nat)
    requires
        is_chain(m, a, s),
        0 <= k <= s.len(),
        n >= s.len() - k,
    ensures
        walk_forward(m, a, if k < s.len() { Some(s[k]) } else { None }, n) == s.subrange(k, s.len() as int),
    decreases s.len() - k,
{
    if k < s.len() && n > 0 {
        assert(m.contains_key((a, Some(s[k]))));
        lemma_walk_forward_from(m, a, s, k + 1, (n - 1) as nat);
        assert(s.subrange(k, s.len() as int) =~= seq![s[k]] + s.subrange(k + 1, s.len() as int));
    } else {
        assert(s.subrange(k, s.len() as int) =~= Seq::<KittyIndex>::empty());
    }
}

proof fn lemma_walk_backward_from(m: Map<LinkKey, KittyLinkedItem>, a: AccountId, s: Seq<KittyIndex>, k: int, n: nat)
    requires
        is_chain(m, a, s),
        -1 <= k < s.len(),
        n >= k + 1,
    ensures
        walk_backward(m, a, if k >= 0 { Some(s[k]) } else { None }, n) == s.subrange(0, k + 1).reverse(),
    decreases k + 1,
{
    if k >= 0 && n > 0 {
        assert(m.contains_key((a, Some(s[k]))));
        lemma_walk_backward_from(m, a, s, k - 1, (n - 1) as nat);
        assert(s.subrange(0, k + 1).reverse() =~= seq![s[k]] + s.subrange(0, k).reverse());
    } else {
        assert(s.subrange(0, k + 1).reverse() =~= Seq::<KittyIndex>::empty());
    }
}

/// In a well-formed list, walking forward from the sentinel's `next` meets the
/// ids of the list in order, walking backward from its `prev` meets them in
/// reverse order, and both walks end at the sentinel.
pub proof fn lemma_walks_agree(m: Map<LinkKey, KittyLinkedItem>, a: AccountId, s: Seq<KittyIndex>)
    requires
        is_chain(m, a, s),
    ensures
        walk_forward(m, a, read_link(m, a, None).next, s.len()) == s,
        walk_backward(m, a, read_link(m, a, None).prev, s.len()) == s.reverse(),
        s.len() > 0 ==> read_link(m, a, Some(s.last())).next is None,
        s.len() > 0 ==> read_link(m, a, Some(s[0])).prev is None,
{
    lemma_walk_forward_from(m, a, s, 0, s.len());
    lemma_walk_backward_from(m, a, s, s.len() - 1, s.len());
    assert(s.subrange(0, s.len() as int) =~= s);
    if s.len() > 0 {
        assert(m.contains_key((a, Some(s[s.len() - 1]))));
        assert(m.contains_key((a, Some(s[0]))));
    }
}

/// The per-account linked lists of owned kitties.
pub struct OwnedKitties {
    links: BTreeMap<LinkKey, KittyLinkedItem>,
}

impl View for OwnedKitties {
    type V = Map<LinkKey, KittyLinkedItem>;

    closed spec fn view(&self) -> Map<LinkKey, KittyLinkedItem> {
        self.links@
    }
}

impl OwnedKitties {
    /// An index with no links.
    pub fn new() -> (r: OwnedKitties)
        ensures
            r@ == Map::<LinkKey, KittyLinkedItem>::empty(),
    {
        OwnedKitties { links: BTreeMap::new() }
    }

    /// The link stored under `key`, if any.
    pub fn get(&self, key: &LinkKey) -> (r: Option<KittyLinkedItem>)
        ensures
            r == (if self@.contains_key(*key) {
                Some(self@[*key])
            } else {
                None
            }),
    {
        match self.links.get(key) {
            Some(item) => Some(*item),
            None => None,
        }
    }

    fn read(&self, account: AccountId, key: Option<KittyIndex>) -> (r: KittyLinkedItem)
        ensures
            r == read_link(self@, account, key),
    {
        match self.links.get(&(account, key)) {
            Some(item) => *item,
            None => KittyLinkedItem { prev: None, next: None },
        }
    }

    fn write(&mut self, account: AccountId, key: Option<KittyIndex>, item: KittyLinkedItem)
        ensures
            final(self)@ == old(self)@.insert((account, key), item),
    {
        self.links.insert((account, key), item);
    }

    /// Links `kitty_id` after the newest entry of `account`'s list.
    pub fn append(&mut self, account: AccountId, kitty_id: KittyIndex)
        ensures
            final(self)@ == appended(old(self)@, account, kitty_id),
    {
        let head = self.read(account, None);
        let new_head = KittyLinkedItem { prev: Some(kitty_id), next: head.next };
        self.write(account, None, new_head);

        let last = self.read(account, head.prev);
        let new_last = KittyLinkedItem { prev: last.prev, next: Some(kitty_id) };
        self.write(account, head.prev, new_last);

        let item = KittyLinkedItem { prev: head.prev, next: None };
        self.write(account, Some(kitty_id), item);
    }

    /// Unlinks `kitty_id` from `account`'s list, joining its neighbours; does
    /// nothing where the id has no link there.
    pub fn remove(&mut self, account: AccountId, kitty_id: KittyIndex)
        ensures
            final(self)@ == removed(old(self)@, account, kitty_id),
    {
        if let Some(item) = self.links.remove(&(account, Some(kitty_id))) {
            let before = self.read(account, item.prev);
            let new_before = KittyLinkedItem { prev: before.prev, next: item.next };
            self.write(account, item.prev, new_before);

            let after = self.read(account, item.next);
            let new_after = KittyLinkedItem { prev: item.prev, next: after.next };
            self.write(account, item.next, new_after);
        }
    }
}

} // verus!
