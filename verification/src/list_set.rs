//! A sorted set kept as a singly linked list in strictly ascending order.
//!
//! The head link plays the part of a virtual zeroth node, so that splicing in
//! front of the first element and in the middle of the list are one case.

use vstd::prelude::*;

verus! {

/// One list cell: a key and the link to the cell behind it.
pub struct Node {
    data: u64,
    next: Option<Box<Node>>,
}

/// The keys reachable from a link, as a set.
pub closed spec fn link_keys(link: Option<Box<Node>>) -> Set<u64>
    decreases link,
{
    match link {
        None => Set::empty(),
        Some(node) => link_keys(node.next).insert(node.data),
    }
}

/// The keys reachable from a link, in the order in which a walk meets them.
pub closed spec fn link_walk(link: Option<Box<Node>>) -> Seq<u64>
    decreases link,
{
    match link {
        None => Seq::empty(),
        Some(node) => seq![node.data] + link_walk(node.next),
    }
}

/// Every cell's key lies strictly below every key behind it.
pub closed spec fn link_ordered(link: Option<Box<Node>>) -> bool
    decreases link,
{
    match link {
        None => true,
        Some(node) => {
            &&& forall|k: u64| #[trigger] link_keys(node.next).contains(k) ==> node.data < k
            &&& link_ordered(node.next)
        },
    }
}

/// A sequence whose elements strictly increase from left to right.
pub open spec fn strictly_ascending(s: Seq<u64>) -> bool {
    forall|i: int, j: int| 0 <= i < j < s.len() ==> s[i] < s[j]
}

/// A walk over an ordered link is strictly ascending and meets exactly the
/// link's keys.
pub proof fn lemma_walk_of_ordered(link: Option<Box<Node>>)
    requires
        link_ordered(link),
    ensures
        strictly_ascending(link_walk(link)),
        forall|k: u64| link_walk(link).contains(k) <==> link_keys(link).contains(k),
    decreases link,
{
    match link {
        None => {},
        Some(node) => {
            lemma_walk_of_ordered(node.next);
            let rest = link_walk(node.next);
            let walk = link_walk(link);
            assert(walk.len() == rest.len() + 1);
            assert(walk[0] == node.data);
            assert forall|i: int| 1 <= i < walk.len() implies walk[i] == rest[i - 1] by {}
            assert forall|k: u64| walk.contains(k) <==> link_keys(link).contains(k) by {
                if walk.contains(k) {
                    let i = choose|i: int| 0 <= i < walk.len() && walk[i] == k;
                    if i > 0 {
                        assert(rest[i - 1] == k);
                        assert(rest.contains(k));
                    }
                }
                if link_keys(link).contains(k) {
                    if k == node.data {
                        assert(walk[0] == k);
                    } else {
                        assert(rest.contains(k));
                        let i = choose|i: int| 0 <= i < rest.len() && rest[i] == k;
                        assert(walk[i + 1] == k);
                    }
                }
            }
            assert forall|i: int, j: int| 0 <= i < j < walk.len() implies walk[i] < walk[j] by {
                assert(walk[j] == rest[j - 1]);
                if i == 0 {
                    assert(rest.contains(rest[j - 1]));
                } else {
                    assert(walk[i] == rest[i - 1]);
                }
            }
        },
    }
}

/// Two ordered links with the same keys give the same walk: the keys of a
/// set fix the order in which a traversal meets them.
pub proof fn lemma_walk_determined(a: Option<Box<Node>>, b: Option<Box<Node>>)
    requires
        link_ordered(a),
        link_ordered(b),
        link_keys(a) == link_keys(b),
    ensures
        link_walk(a) == link_walk(b),
    decreases a,
{
    match (a, b) {
        (None, None) => {},
        (None, Some(m)) => {
            assert(link_keys(b).contains(m.data));
        },
        (Some(n), None) => {
            assert(link_keys(a).contains(n.data));
        },
        (Some(n), Some(m)) => {
            assert(link_keys(b).contains(n.data));
            assert(link_keys(a).contains(m.data));
            assert(n.data == m.data) by {
                if n.data != m.data {
                    assert(link_keys(m.next).contains(n.data));
                    assert(link_keys(n.next).contains(m.data));
                }
            }
            assert(!link_keys(n.next).contains(n.data));
            assert(!link_keys(m.next).contains(m.data));
            assert(link_keys(n.next) =~= link_keys(a).remove(n.data));
            assert(link_keys(m.next) =~= link_keys(b).remove(m.data));
            lemma_walk_determined(n.next, m.next);
        },
    }
}

impl Node {
    /// Allocates a cell that holds `data` in front of `next`.
    fn new(data: u64, next: Option<Box<Node>>) -> (node: Box<Node>)
        ensures
            *node == (Node { data, next }),
    {
        Box::new(Node { data, next })
    }
}

/// A position in the list: the link that leads to the cell under inspection.
pub struct Cursor<'l> {
    link: &'l Option<Box<Node>>,
}

impl<'l> Cursor<'l> {
    /// The keys from the cursor's position to the end of the list.
    pub closed spec fn ahead(&self) -> Set<u64> {
        link_keys(*self.link)
    }

    /// The walk from the cursor's position to the end of the list.
    pub closed spec fn walk(&self) -> Seq<u64> {
        link_walk(*self.link)
    }

    /// The cells ahead of the cursor are in ascending order.
    pub closed spec fn wf(&self) -> bool {
        link_ordered(*self.link)
    }

    /// Moves the cursor forward to the first cell whose key is not below
    /// `key`, or to the end of the list. Returns `true` if that cell holds
    /// `key` itself.
    pub fn find(&mut self, key: &u64) -> (found: bool)
        requires
            old(self).wf(),
        ensures
            final(self).wf(),
            found == old(self).ahead().contains(*key),
            forall|k: u64| #[trigger]
                final(self).ahead().contains(k) <==> old(self).ahead().contains(k) && *key <= k,
            found ==> final(self).walk().len() > 0 && final(self).walk()[0] == *key,
    {
        loop
            invariant
                self.wf(),
                forall|k: u64| #[trigger]
                    self.ahead().contains(k) ==> old(self).ahead().contains(k),
                forall|k: u64| #[trigger]
                    old(self).ahead().contains(k) && *key <= k ==> self.ahead().contains(k),
            decreases self.walk().len(),
        {
            match self.link {
                None => {
                    return false;
                },
                Some(node) => {
                    proof {
                        assert forall|k: u64| #[trigger]
                            self.ahead().contains(k) implies node.data <= k by {
                            assert(k == node.data || link_keys(node.next).contains(k));
                        }
                    }
                    if node.data == *key {
                        assert(self.ahead().contains(*key));
                        return true;
                    }
                    if node.data > *key {
                        return false;
                    }
                    proof {
                        assert forall|k: u64| #[trigger]
                            link_keys(node.next).contains(k) implies old(self).ahead().contains(
                            k,
                        ) by {
                            assert(self.ahead().contains(k));
                        }
                    }
                    self.link = &node.next;
                },
            }
        }
    }
}

/// The link that results from putting the cells of `front`, in their
/// order, in front of `rest`.
spec fn rejoin(front: Seq<Box<Node>>, rest: Option<Box<Node>>) -> Option<Box<Node>>
    decreases front.len(),
{
    if front.len() == 0 {
        rest
    } else {
        rejoin(front.drop_last(), Some(Box::new(Node { data: front.last().data, next: rest })))
    }
}

/// The tail of an ordered link is ordered.
proof fn lemma_rejoin_tail(front: Seq<Box<Node>>, rest: Option<Box<Node>>)
    requires
        link_ordered(rejoin(front, rest)),
    ensures
        link_ordered(rest),
    decreases front.len(),
{
    if front.len() > 0 {
        let joined = Some(Box::new(Node { data: front.last().data, next: rest }));
        lemma_rejoin_tail(front.drop_last(), joined);
    }
}

/// Changing the tail of an ordered link behind cells whose keys lie below
/// `key`: if the new tail is ordered and holds no key but those of the old
/// tail and `key`, the whole link stays ordered, and it gains or loses `key`
/// as the tail does.
proof fn lemma_rejoin_replace(
    front: Seq<Box<Node>>,
    rest: Option<Box<Node>>,
    changed: Option<Box<Node>>,
    key: u64,
)
    requires
        link_ordered(rejoin(front, rest)),
        link_ordered(changed),
        forall|i: int| 0 <= i < front.len() ==> front[i].data < key,
        link_keys(changed).subset_of(link_keys(rest).insert(key)),
    ensures
        link_ordered(rejoin(front, changed)),
        link_keys(rejoin(front, rest)).contains(key) == link_keys(rest).contains(key),
        link_keys(changed) == link_keys(rest).insert(key) ==> link_keys(rejoin(front, changed))
            == link_keys(rejoin(front, rest)).insert(key),
        link_keys(changed) == link_keys(rest).remove(key) ==> link_keys(rejoin(front, changed))
            == link_keys(rejoin(front, rest)).remove(key),
    decreases front.len(),
{
    if front.len() > 0 {
        let data = front.last().data;
        let old_joined = Some(Box::new(Node { data, next: rest }));
        let new_joined = Some(Box::new(Node { data, next: changed }));
        lemma_rejoin_tail(front.drop_last(), old_joined);
        assert(link_ordered(new_joined)) by {
            assert forall|k: u64| #[trigger] link_keys(changed).contains(k) implies data < k by {
                assert(link_keys(rest).insert(key).contains(k));
                assert(k == key || link_keys(rest).contains(k));
            }
        }
        assert(link_keys(new_joined).subset_of(link_keys(old_joined).insert(key)));
        lemma_rejoin_replace(front.drop_last(), old_joined, new_joined, key);
        if link_keys(changed) == link_keys(rest).insert(key) {
            assert(link_keys(new_joined) =~= link_keys(old_joined).insert(key));
        }
        if link_keys(changed) == link_keys(rest).remove(key) {
            assert(link_keys(new_joined) =~= link_keys(old_joined).remove(key));
        }
    }
}

/// Says whether the first cell of a link holds a key below `key`.
fn starts_below(link: &Option<Box<Node>>, key: u64) -> (below: bool)
    ensures
        below == (link.is_some() && link.unwrap().data < key),
{
    match link {
        Some(node) => node.data < key,
        None => false,
    }
}

/// Says whether the first cell of a link holds `key`.
fn starts_with(link: &Option<Box<Node>>, key: u64) -> (hit: bool)
    ensures
        hit == (link.is_some() && link.unwrap().data == key),
{
    match link {
        Some(node) => node.data == key,
        None => false,
    }
}

/// Takes the cells with keys below `key` off the front of an ordered link,
/// one by one. What comes back is those cells, in their order, and the
/// link behind them, which starts at the position of `key`.
fn detach_below(link: Option<Box<Node>>, key: u64) -> (r: (Vec<Box<Node>>, Option<Box<Node>>))
    requires
        link_ordered(link),
    ensures
        rejoin(r.0@, r.1) == link,
        link_ordered(r.1),
        forall|i: int| 0 <= i < r.0@.len() ==> r.0@[i].data < key,
        forall|k: u64| #[trigger] link_keys(r.1).contains(k) ==> key <= k,
        link_keys(r.1).contains(key) == (r.1.is_some() && r.1.unwrap().data == key),
{
    let mut front: Vec<Box<Node>> = Vec::new();
    let mut rest = link;
    while starts_below(&rest, key)
        invariant
            rejoin(front@, rest) == link,
            forall|i: int| 0 <= i < front@.len() ==> front@[i].data < key,
        decreases link_walk(rest).len(),
    {
        let ghost before = front@;
        let ghost joined = rest;
        let mut node = rest.unwrap();
        rest = node.next.take();
        front.push(node);
        assert(front@.drop_last() =~= before);
        assert(Some(Box::new(Node { data: front@.last().data, next: rest })) == joined);
    }
    proof {
        lemma_rejoin_tail(front@, rest);
        if rest.is_some() {
            let node = rest.unwrap();
            assert forall|k: u64| #[trigger] link_keys(rest).contains(k) implies key <= k by {
                assert(k == node.data || link_keys(node.next).contains(k));
            }
            if node.data != key {
                assert(!link_keys(node.next).contains(key));
            }
        }
    }
    (front, rest)
}

/// Puts cells back in front of a link, last cell first.
fn attach(front: Vec<Box<Node>>, rest: Option<Box<Node>>) -> (link: Option<Box<Node>>)
    ensures
        link == rejoin(front@, rest),
{
    let mut cells = front;
    let mut link = rest;
    while cells.len() > 0
        invariant
            rejoin(cells@, link) == rejoin(front@, rest),
        decreases cells.len(),
    {
        let mut node = cells.pop().unwrap();
        node.next = link;
        link = Some(node);
    }
    link
}

/// A set of keys held as a sorted singly linked list.
pub struct OrderedListSet {
    head: Option<Box<Node>>,
}

impl OrderedListSet {
    /// The keys of the set.
    pub closed spec fn view(&self) -> Set<u64> {
        link_keys(self.head)
    }

    /// The keys in the order in which a traversal from the head meets them.
    pub closed spec fn elements(&self) -> Seq<u64> {
        link_walk(self.head)
    }

    /// The list is in strictly ascending order.
    pub closed spec fn wf(&self) -> bool {
        link_ordered(self.head)
    }

    /// Creates a new list.
    pub fn new() -> (set: Self)
        ensures
            set.wf(),
            set@ == Set::<u64>::empty(),
            set.elements() == Seq::<u64>::empty(),
    {
        OrderedListSet { head: None }
    }

    /// Walks from the head to the position of `key`; the cursor that comes
    /// back stands there.
    pub fn find(&self, key: &u64) -> (r: (bool, Cursor<'_>))
        requires
            self.wf(),
        ensures
            r.0 == self@.contains(*key),
            r.1.wf(),
            forall|k: u64| #[trigger] r.1.ahead().contains(k) <==> self@.contains(k) && *key <= k,
            r.0 ==> r.1.walk().len() > 0 && r.1.walk()[0] == *key,
    {
        let mut cursor = Cursor { link: &self.head };
        let result = cursor.find(key);
        (result, cursor)
    }

    /// Returns `true` if the set contains the key.
    pub fn contains(&self, key: &u64) -> (found: bool)
        requires
            self.wf(),
        ensures
            found == self@.contains(*key),
    {
        let mut cursor = Cursor { link: &self.head };
        cursor.find(key)
    }

    /// Inserts a key into the set. If the set already has the key, the key
    /// comes back in `Err` and the list is left as it was.
    pub fn insert(&mut self, key: u64) -> (r: Result<(), u64>)
        requires
            old(self).wf(),
        ensures
            final(self).wf(),
            match r {
                Ok(_) => !old(self)@.contains(key) && final(self)@ == old(self)@.insert(key),
                Err(back) => back == key && old(self)@.contains(key) && *final(self) == *old(self),
            },
    {
        let (front, rest) = detach_below(self.head.take(), key);
        if starts_with(&rest, key) {
            self.head = attach(front, rest);
            proof {
                lemma_rejoin_replace(front@, rest, rest, key);
            }
            Err(key)
        } else {
            let spliced = Some(Node::new(key, rest));
            proof {
                assert(link_keys(spliced) =~= link_keys(rest).insert(key));
                lemma_rejoin_replace(front@, rest, spliced, key);
            }
            self.head = attach(front, spliced);
            Ok(())
        }
    }

    /// Removes the key from the set and returns it. If the set does not have
    /// the key, the list is left as it was.
    pub fn remove(&mut self, key: &u64) -> (r: Result<u64, ()>)
        requires
            old(self).wf(),
        ensures
            final(self).wf(),
            match r {
                Ok(taken) => taken == *key && old(self)@.contains(*key) && final(self)@ == old(self)@.remove(*key),
                Err(_) => !old(self)@.contains(*key) && *final(self) == *old(self),
            },
    {
        let (front, rest) = detach_below(self.head.take(), *key);
        if starts_with(&rest, *key) {
            let Node { data, next } = *rest.unwrap();
            proof {
                assert(!link_keys(next).contains(data));
                assert(link_keys(next) =~= link_keys(rest).remove(*key));
                lemma_rejoin_replace(front@, rest, next, *key);
            }
            self.head = attach(front, next);
            Ok(data)
        } else {
            self.head = attach(front, rest);
            proof {
                lemma_rejoin_replace(front@, rest, rest, *key);
            }
            Err(())
        }
    }

    /// Empties the set, unlinking its cells one by one from the head.
    pub fn clear(&mut self)
        ensures
            final(self).wf(),
            final(self)@ == Set::<u64>::empty(),
            final(self).elements() == Seq::<u64>::empty(),
    {
        let mut rest = self.head.take();
        while rest.is_some()
            decreases link_walk(rest).len(),
        {
            let mut node = rest.unwrap();
            rest = node.next.take();
        }
    }

    /// An iterator visiting all elements in ascending order.
    pub fn iter(&self) -> (it: Iter<'_>)
        ensures
            it.remaining() == self.elements(),
    {
        Iter(&self.head)
    }

    /// The keys of a well-formed set fix its traversal: two sets with the
    /// same keys are traversed alike.
    pub proof fn lemma_elements_determined(&self, other: &OrderedListSet)
        requires
            self.wf(),
            other.wf(),
            self@ == other@,
        ensures
            self.elements() == other.elements(),
    {
        lemma_walk_determined(self.head, other.head);
    }

    /// A traversal of a well-formed set is strictly ascending, so it holds no
    /// key twice, and it meets exactly the keys of the set.
    pub proof fn lemma_elements_ascending(&self)
        requires
            self.wf(),
        ensures
            strictly_ascending(self.elements()),
            forall|k: u64| self.elements().contains(k) <==> self@.contains(k),
    {
        lemma_walk_of_ordered(self.head);
    }
}

impl Default for OrderedListSet {
    fn default() -> (set: Self)
        ensures
            set.wf(),
            set@ == Set::<u64>::empty(),
            set.elements() == Seq::<u64>::empty(),
    {
        Self::new()
    }
}

/// A traversal in progress: the link to the next cell to visit.
pub struct Iter<'l>(&'l Option<Box<Node>>);

impl<'l> Iter<'l> {
    /// The elements that the traversal has yet to yield, in order.
    pub closed spec fn remaining(&self) -> Seq<u64> {
        link_walk(*self.0)
    }

    /// Yields the next element, or `None` at the end of the list.
    pub fn next(&mut self) -> (item: Option<&'l u64>)
        ensures
            old(self).remaining().len() == 0 ==> item.is_none() && final(self).remaining()
                == old(self).remaining(),
            old(self).remaining().len() > 0 ==> item == Some(&old(self).remaining()[0])
                && final(self).remaining() == old(self).remaining().drop_first(),
    {
        match self.0 {
            None => None,
            Some(node) => {
                proof {
                    assert(self.remaining().drop_first() =~= link_walk(node.next));
                }
                self.0 = &node.next;
                Some(&node.data)
            },
        }
    }
}

} // verus!
