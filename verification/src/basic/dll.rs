use vstd::prelude::*;

verus! {

/// The slot just before position `i` of `order`, if any.
pub open spec fn prev_slot(order: Seq<usize>, i: int) -> Option<usize> {
    if i == 0 {
        None
    } else {
        Some(order[i - 1])
    }
}

/// The slot just after position `i` of `order`, if any.
pub open spec fn next_slot(order: Seq<usize>, i: int) -> Option<usize> {
    if i + 1 >= order.len() {
        None
    } else {
        Some(order[i + 1])
    }
}

/// The slot at the front of `order`, if any.
pub open spec fn first_slot(order: Seq<usize>) -> Option<usize> {
    if order.len() == 0 {
        None
    } else {
        Some(order[0])
    }
}

/// The slot at the back of `order`, if any.
pub open spec fn last_slot(order: Seq<usize>) -> Option<usize> {
    if order.len() == 0 {
        None
    } else {
        Some(order.last())
    }
}

/// Position `i` of `order` holds an occupied slot whose links name its neighbours in `order`.
spec fn linked_at<Key, Value>(nodes: Seq<Option<Node<Key, Value>>>, order: Seq<usize>, i: int) -> bool {
    let h = order[i];
    &&& h < nodes.len()
    &&& nodes[h as int] is Some
    &&& nodes[h as int]->Some_0.prev == prev_slot(order, i)
    &&& nodes[h as int]->Some_0.next == next_slot(order, i)
}

/// The nodes are chained in the order `order`, and `head` and `tail` name its ends.
spec fn chained<Key, Value>(
    nodes: Seq<Option<Node<Key, Value>>>,
    head: Option<usize>,
    tail: Option<usize>,
    order: Seq<usize>,
) -> bool {
    &&& order.no_duplicates()
    &&& forall|i: int| 0 <= i < order.len() ==> #[trigger] linked_at(nodes, order, i)
    &&& head == first_slot(order)
    &&& tail == last_slot(order)
}

/// In a sequence without repeats, the position found for an element is the one it is at.
pub proof fn lemma_index_of_unique<A>(s: Seq<A>, i: int)
    requires
        s.no_duplicates(),
        0 <= i < s.len(),
    ensures
        s.contains(s[i]),
        s.index_of(s[i]) == i,
{
    assert(s.contains(s[i]));
    let j = s.index_of(s[i]);
    assert(s[j] == s[i]);
}

/// One entry of the list: a key, its value, and the slots of its neighbours.
pub struct Node<Key, Value> {
    key: Key,
    value: Value,
    prev: Option<usize>,
    next: Option<usize>,
}

impl<Key, Value> Node<Key, Value> {
    fn new(key: Key, value: Value) -> (node: Self)
        ensures
            node.key == key,
            node.value == value,
            node.prev is None,
            node.next is None,
    {
        Self { key, value, prev: None, next: None }
    }
}

/// A doubly linked list whose nodes live in slots of a vector and refer to each
/// other by slot number. Freed slots are kept on a stack and reused, so a slot
/// names an entry for as long as the entry stays in the list.
pub struct Dll<Key, Value> {
    nodes: Vec<Option<Node<Key, Value>>>,
    free: Vec<usize>,
    head: Option<usize>,
    tail: Option<usize>,
    size: usize,
    order: Ghost<Seq<usize>>,
}

impl<Key, Value> View for Dll<Key, Value> {
    type V = Seq<(Key, Value)>;

    /// The entries from the front of the list to its back.
    closed spec fn view(&self) -> Seq<(Key, Value)> {
        self.order@.map_values(|h: usize| self.entry(h))
    }
}

impl<Key, Value> Dll<Key, Value> {
    /// The slots of the entries, from the front of the list to its back.
    pub closed spec fn handles(&self) -> Seq<usize> {
        self.order@
    }

    /// The freed slots, the next one to be reused last.
    pub closed spec fn free_slots(&self) -> Seq<usize> {
        self.free@
    }

    /// The number of slots the node vector has.
    pub closed spec fn slot_count(&self) -> nat {
        self.nodes@.len()
    }

    /// The slot at the front of the list, if any.
    pub closed spec fn head(&self) -> Option<usize> {
        self.head
    }

    /// The slot at the back of the list, if any.
    pub closed spec fn tail(&self) -> Option<usize> {
        self.tail
    }

    /// The back link of the node in slot `h`.
    pub closed spec fn prev_of(&self, h: usize) -> Option<usize> {
        self.nodes@[h as int]->Some_0.prev
    }

    /// The forward link of the node in slot `h`.
    pub closed spec fn next_of(&self, h: usize) -> Option<usize> {
        self.nodes@[h as int]->Some_0.next
    }

    /// The key and value held in slot `h`.
    pub closed spec fn entry(&self, h: usize) -> (Key, Value) {
        let n = self.nodes@[h as int]->Some_0;
        (n.key, n.value)
    }

    /// The nodes are chained in the order `order`, and head and tail name its ends.
    spec fn linked(&self, order: Seq<usize>) -> bool {
        chained(self.nodes@, self.head, self.tail, order)
    }

    /// A slot is occupied exactly when it is on the list `order` or is `extra`.
    spec fn occupied(&self, order: Seq<usize>, extra: Option<usize>) -> bool {
        forall|j: usize|
            j < self.nodes@.len() ==> (#[trigger] self.nodes@[j as int] is Some <==> (order.contains(j)
                || extra == Some(j)))
    }

    /// Every slot on the free stack is empty, and none is there twice.
    spec fn free_ok(&self) -> bool {
        &&& self.free@.no_duplicates()
        &&& forall|i: int|
            0 <= i < self.free@.len() ==> #[trigger] self.free@[i] < self.nodes@.len()
                && self.nodes@[self.free@[i] as int] is None
    }

    /// Every empty slot is on the free stack.
    spec fn free_complete(&self) -> bool {
        forall|j: usize|
            j < self.nodes@.len() && #[trigger] self.nodes@[j as int] is None ==> self.free@.contains(j)
    }

    /// Slot by slot, the two node vectors hold the same keys and values.
    spec fn same_entries(&self, other: &Self) -> bool {
        &&& self.nodes@.len() == other.nodes@.len()
        &&& forall|j: int|
            0 <= j < self.nodes@.len() ==> (#[trigger] self.nodes@[j] is Some <==> other.nodes@[j] is Some)
        &&& forall|j: int|
            0 <= j < self.nodes@.len() && #[trigger] self.nodes@[j] is Some ==> self.nodes@[j]->Some_0.key
                == other.nodes@[j]->Some_0.key && self.nodes@[j]->Some_0.value
                == other.nodes@[j]->Some_0.value
    }

    /// The nodes are chained in the order of `handles()`, exactly those slots are
    /// occupied, the free stack holds exactly the empty slots, and `size` counts the
    /// entries.
    pub closed spec fn wf(&self) -> bool {
        &&& self.linked(self.order@)
        &&& self.occupied(self.order@, None)
        &&& self.free_ok()
        &&& self.free_complete()
        &&& self.nodes@.len() == self.order@.len() + self.free@.len()
        &&& self.size == self.order@.len()
    }

    /// The slots on the list are distinct, and the entries are read off them in order.
    /// Head and tail name the ends of the list, and each node links to its neighbours on
    /// it, so following the links from either end visits every entry once. Every slot
    /// either holds an entry or is on the free stack, never both, so there are as many
    /// slots as entries and freed slots together.
    pub proof fn lemma_shape(&self)
        requires
            self.wf(),
        ensures
            self.head() == first_slot(self.handles()),
            self.tail() == last_slot(self.handles()),
            forall|i: int|
                0 <= i < self.handles().len() ==> #[trigger] self.prev_of(self.handles()[i]) == prev_slot(
                    self.handles(),
                    i,
                ) && self.next_of(self.handles()[i]) == next_slot(self.handles(), i),
            self.handles().no_duplicates(),
            self@.len() == self.handles().len(),
            forall|i: int| 0 <= i < self@.len() ==> #[trigger] self@[i] == self.entry(self.handles()[i]),
            self.free_slots().no_duplicates(),
            self.slot_count() == self@.len() + self.free_slots().len(),
            forall|j: usize|
                j < self.slot_count() ==> (#[trigger] self.handles().contains(j) <==> !self.free_slots().contains(j)),
            forall|j: usize| #[trigger] self.free_slots().contains(j) ==> j < self.slot_count(),
            forall|j: usize| #[trigger] self.handles().contains(j) ==> j < self.slot_count(),
    {
        assert forall|i: int| 0 <= i < self.handles().len() implies #[trigger] self.prev_of(
            self.handles()[i],
        ) == prev_slot(self.handles(), i) && self.next_of(self.handles()[i]) == next_slot(
            self.handles(),
            i,
        ) by {
            assert(linked_at(self.nodes@, self.order@, i));
        }
        assert forall|j: usize| j < self.slot_count() implies (#[trigger] self.handles().contains(j)
            <==> !self.free_slots().contains(j)) by {
            assert(self.nodes@[j as int] is Some <==> self.order@.contains(j));
            if self.free@.contains(j) {
                assert(self.free@[self.free@.index_of(j)] == j);
            }
        }
        assert forall|j: usize| #[trigger] self.free_slots().contains(j) implies j < self.slot_count() by {
            assert(self.free@[self.free@.index_of(j)] == j);
        }
        assert forall|j: usize| #[trigger] self.handles().contains(j) implies j < self.slot_count() by {
            assert(linked_at(self.nodes@, self.order@, self.order@.index_of(j)));
        }
    }

    pub fn new() -> (dll: Self)
        ensures
            dll.wf(),
            dll.handles() == Seq::<usize>::empty(),
            dll@ == Seq::<(Key, Value)>::empty(),
            dll.free_slots() == Seq::<usize>::empty(),
            dll.slot_count() == 0,
    {
        let dll = Self {
            nodes: Vec::new(),
            free: Vec::new(),
            head: None,
            tail: None,
            size: 0,
            order: Ghost(Seq::empty()),
        };
        assert(dll@ =~= Seq::<(Key, Value)>::empty());
        dll
    }

    pub fn size(&self) -> (n: usize)
        requires
            self.wf(),
        ensures
            n == self@.len(),
    {
        self.size
    }

    pub fn is_empty(&self) -> (b: bool)
        requires
            self.wf(),
        ensures
            b == (self@.len() == 0),
    {
        0 == self.size
    }

    /// Stores `node` in a free slot, reusing the most recently freed one.
    fn take_slot(&mut self, node: Node<Key, Value>) -> (h: usize)
        requires
            old(self).wf(),
        ensures
            h < final(self).nodes@.len(),
            !old(self).order@.contains(h),
            final(self).nodes@[h as int] == Some(node),
            old(self).nodes@.len() <= final(self).nodes@.len(),
            forall|j: int|
                0 <= j < final(self).nodes@.len() && j != h ==> #[trigger] final(self).nodes@[j] == (
                if j < old(self).nodes@.len() {
                    old(self).nodes@[j]
                } else {
                    None
                }),
            final(self).linked(old(self).order@),
            final(self).occupied(old(self).order@, Some(h)),
            final(self).free_ok(),
            final(self).free_complete(),
            final(self).size == old(self).size,
            final(self).order == old(self).order,
            old(self).free_slots().len() > 0 ==> h == old(self).free_slots().last()
                && final(self).free_slots() == old(self).free_slots().drop_last()
                && final(self).slot_count() == old(self).slot_count(),
            old(self).free_slots().len() == 0 ==> h == old(self).slot_count()
                && final(self).free_slots() == old(self).free_slots()
                && final(self).slot_count() == old(self).slot_count() + 1,
    {
        let ghost order = self.order@;
        match self.free.pop() {
            Some(s) => {
                assert(old(self).free@[old(self).free@.len() - 1] == s);
                assert(!order.contains(s));
                self.nodes.set(s, Some(node));
                assert forall|i: int| 0 <= i < self.free@.len() implies #[trigger] self.free@[i]
                    < self.nodes@.len() && self.nodes@[self.free@[i] as int] is None by {
                    assert(old(self).free@[i] == self.free@[i]);
                    assert(self.free@[i] != s);
                }
                assert forall|i: int| 0 <= i < order.len() implies #[trigger] linked_at(self.nodes@, order, i) by {
                    assert(linked_at(old(self).nodes@, order, i));
                }
                assert forall|j: usize| j < self.nodes@.len() implies (#[trigger] self.nodes@[j as int] is Some
                    <==> (order.contains(j) || Some(s) == Some(j))) by {
                    assert(old(self).occupied(order, None));
                    if j != s {
                        assert(self.nodes@[j as int] == old(self).nodes@[j as int]);
                        assert(old(self).nodes@[j as int] is Some <==> order.contains(j));
                    } else {
                        assert(self.nodes@[j as int] is Some);
                    }
                }
                assert forall|j: usize| j < self.nodes@.len() && #[trigger] self.nodes@[j as int] is None
                    implies self.free@.contains(j) by {
                    assert(j != s);
                    assert(old(self).nodes@[j as int] is None);
                    let k = old(self).free@.index_of(j);
                    assert(old(self).free@[k] == j);
                    assert(k != old(self).free@.len() - 1);
                    assert(self.free@[k] == j);
                }
                s
            },
            None => {
                let s = self.nodes.len();
                assert(!order.contains(s)) by {
                    if order.contains(s) {
                        assert(linked_at(old(self).nodes@, order, order.index_of(s)));
                    }
                }
                self.nodes.push(Some(node));
                assert forall|i: int| 0 <= i < order.len() implies #[trigger] linked_at(self.nodes@, order, i) by {
                    assert(linked_at(old(self).nodes@, order, i));
                }
                assert forall|j: usize| j < self.nodes@.len() implies (#[trigger] self.nodes@[j as int] is Some
                    <==> (order.contains(j) || Some(s) == Some(j))) by {
                    if j != s {
                        assert(old(self).nodes@[j as int] is Some <==> order.contains(j));
                    }
                }
                assert forall|j: usize| j < self.nodes@.len() && #[trigger] self.nodes@[j as int] is None
                    implies self.free@.contains(j) by {
                    assert(j != s);
                    assert(old(self).nodes@[j as int] is None);
                }
                s
            },
        }
    }

    /// Puts the node in slot `h`, which is occupied but off the list, at the front.
    fn link_front(&mut self, h: usize)
        requires
            old(self).linked(old(self).order@),
            h < old(self).nodes@.len(),
            old(self).nodes@[h as int] is Some,
            !old(self).order@.contains(h),
        ensures
            final(self).linked(seq![h] + old(self).order@),
            final(self).same_entries(old(self)),
            final(self).free == old(self).free,
            final(self).size == old(self).size,
            final(self).order == old(self).order,
    {
        let ghost order = self.order@;
        let ghost new_order = seq![h] + order;
        let old_head = self.head;
        match old_head {
            Some(oh) => {
                assert(linked_at(old(self).nodes@, order, 0));
                self.set_prev(oh, Some(h));
            },
            None => {
                self.tail = Some(h);
            },
        }
        self.set_prev(h, None);
        self.set_next(h, old_head);
        self.head = Some(h);
        assert forall|i: int| 0 <= i < new_order.len() implies #[trigger] linked_at(self.nodes@, new_order, i) by {
            if i == 0 {
            } else if i == 1 {
                assert(linked_at(old(self).nodes@, order, 0));
            } else {
                assert(linked_at(old(self).nodes@, order, i - 1));
                assert(order[i - 1] != order[0]);
            }
        }
        assert forall|a: int, b: int| 0 <= a < b < new_order.len() implies new_order[a] != new_order[b] by {
            if a == 0 {
                assert(order[b - 1] == new_order[b]);
            }
        }
    }

    /// Adds `key` and `value` at the front of the list, and returns the slot that holds them.
    pub fn push_front(&mut self, key: Key, value: Value) -> (h: usize)
        requires
            old(self).wf(),
            old(self)@.len() < usize::MAX,
        ensures
            final(self).wf(),
            !old(self).handles().contains(h),
            final(self).handles() == seq![h] + old(self).handles(),
            final(self)@ == seq![(key, value)] + old(self)@,
            final(self).entry(h) == (key, value),
            forall|g: usize| #[trigger]
                old(self).handles().contains(g) ==> final(self).entry(g) == old(self).entry(g),
            old(self).free_slots().len() > 0 ==> h == old(self).free_slots().last()
                && final(self).free_slots() == old(self).free_slots().drop_last()
                && final(self).slot_count() == old(self).slot_count(),
            old(self).free_slots().len() == 0 ==> h == old(self).slot_count()
                && final(self).free_slots() == old(self).free_slots()
                && final(self).slot_count() == old(self).slot_count() + 1,
    {
        let ghost order = self.order@;
        let h = self.take_slot(Node::new(key, value));
        let ghost mid = *self;
        self.link_front(h);
        self.size = self.size + 1;
        self.order = Ghost(seq![h] + order);
        assert(self.occupied(self.order@, None)) by {
            assert forall|j: usize| j < self.nodes@.len() implies (#[trigger] self.nodes@[j as int] is Some
                <==> self.order@.contains(j)) by {
                assert(mid.nodes@[j as int] is Some <==> self.nodes@[j as int] is Some);
                if order.contains(j) {
                    let k = order.index_of(j);
                    assert(self.order@[k + 1] == j);
                }
                if self.order@.contains(j) && j != h {
                    let k = self.order@.index_of(j);
                    assert(order[k - 1] == j);
                }
            }
        }
        assert(self.free_ok()) by {
            assert forall|i: int| 0 <= i < self.free@.len() implies #[trigger] self.free@[i]
                < self.nodes@.len() && self.nodes@[self.free@[i] as int] is None by {
                assert(mid.nodes@[self.free@[i] as int] is None);
            }
        }
        assert forall|g: usize| #[trigger] order.contains(g) implies self.entry(g) == old(self).entry(g) by {
            let i = order.index_of(g);
            assert(linked_at(old(self).nodes@, order, i));
        }
        assert(self@ =~= seq![(key, value)] + old(self)@) by {
            assert forall|i: int| 0 <= i < order.len() implies self.entry(order[i]) == old(self).entry(order[i]) by {
                assert(order.contains(order[i]));
            }
        }
        h
    }

    /// Puts the node in slot `h`, which is occupied but off the list, at the back.
    fn link_back(&mut self, h: usize)
        requires
            old(self).linked(old(self).order@),
            h < old(self).nodes@.len(),
            old(self).nodes@[h as int] is Some,
            !old(self).order@.contains(h),
        ensures
            final(self).linked(old(self).order@.push(h)),
            final(self).same_entries(old(self)),
            final(self).free == old(self).free,
            final(self).size == old(self).size,
            final(self).order == old(self).order,
    {
        let ghost order = self.order@;
        let ghost new_order = order.push(h);
        let ghost n = order.len() as int;
        let old_tail = self.tail;
        match old_tail {
            Some(ot) => {
                assert(linked_at(old(self).nodes@, order, n - 1));
                self.set_next(ot, Some(h));
            },
            None => {
                self.head = Some(h);
            },
        }
        self.set_next(h, None);
        self.set_prev(h, old_tail);
        self.tail = Some(h);
        assert forall|i: int| 0 <= i < new_order.len() implies #[trigger] linked_at(self.nodes@, new_order, i) by {
            if i == n {
            } else if i == n - 1 {
                assert(linked_at(old(self).nodes@, order, n - 1));
            } else {
                assert(linked_at(old(self).nodes@, order, i));
                assert(order[i] != order[n - 1]);
            }
        }
        assert forall|a: int, b: int| 0 <= a < b < new_order.len() implies new_order[a] != new_order[b] by {
            if b == n {
                assert(order[a] == new_order[a]);
            }
        }
    }

    /// Takes the node in slot `h` off the list; the slot stays occupied.
    fn unlink(&mut self, h: usize)
        requires
            old(self).linked(old(self).order@),
            old(self).order@.contains(h),
        ensures
            final(self).linked(old(self).order@.remove(old(self).order@.index_of(h))),
            final(self).same_entries(old(self)),
            final(self).free == old(self).free,
            final(self).size == old(self).size,
            final(self).order == old(self).order,
    {
        let ghost order = self.order@;
        let ghost i = order.index_of(h);
        let ghost new_order = order.remove(i);
        assert(linked_at(self.nodes@, order, i));
        let (p, n) = match &self.nodes[h] {
            Some(node) => (node.prev, node.next),
            None => (None, None),
        };
        match p {
            Some(pi) => {
                assert(linked_at(old(self).nodes@, order, i - 1));
                self.set_next(pi, n);
            },
            None => {
                self.head = n;
            },
        }
        match n {
            Some(ni) => {
                assert(linked_at(old(self).nodes@, order, i + 1));
                proof {
                    if i > 0 {
                        assert(order[i + 1] != order[i - 1]);
                    }
                }
                self.set_prev(ni, p);
            },
            None => {
                self.tail = p;
            },
        }
        assert forall|k: int| 0 <= k < new_order.len() implies #[trigger] linked_at(self.nodes@, new_order, k) by {
            if k < i {
                assert(linked_at(old(self).nodes@, order, k));
                assert(order[k] != order[i]);
                if k < i - 1 {
                    assert(order[k] != order[i - 1]);
                }
                if i + 1 < order.len() {
                    assert(order[k] != order[i + 1]);
                }
            } else {
                assert(linked_at(old(self).nodes@, order, k + 1));
                assert(order[k + 1] != order[i]);
                if k > i {
                    assert(order[k + 1] != order[i + 1]);
                }
                if i > 0 {
                    assert(order[k + 1] != order[i - 1]);
                }
            }
        }
        assert forall|a: int, b: int| 0 <= a < b < new_order.len() implies new_order[a] != new_order[b] by {
            let a0 = if a < i { a } else { a + 1 };
            let b0 = if b < i { b } else { b + 1 };
            assert(new_order[a] == order[a0]);
            assert(new_order[b] == order[b0]);
        }
    }

    /// Adds `key` and `value` at the back of the list, and returns the slot that holds them.
    pub fn push_back(&mut self, key: Key, value: Value) -> (h: usize)
        requires
            old(self).wf(),
            old(self)@.len() < usize::MAX,
        ensures
            final(self).wf(),
            !old(self).handles().contains(h),
            final(self).handles() == old(self).handles().push(h),
            final(self)@ == old(self)@.push((key, value)),
            final(self).entry(h) == (key, value),
            forall|g: usize| #[trigger]
                old(self).handles().contains(g) ==> final(self).entry(g) == old(self).entry(g),
            old(self).free_slots().len() > 0 ==> h == old(self).free_slots().last()
                && final(self).free_slots() == old(self).free_slots().drop_last()
                && final(self).slot_count() == old(self).slot_count(),
            old(self).free_slots().len() == 0 ==> h == old(self).slot_count()
                && final(self).free_slots() == old(self).free_slots()
                && final(self).slot_count() == old(self).slot_count() + 1,
    {
        let ghost order = self.order@;
        let h = self.take_slot(Node::new(key, value));
        let ghost mid = *self;
        self.link_back(h);
        self.size = self.size + 1;
        self.order = Ghost(order.push(h));
        assert(self.occupied(self.order@, None)) by {
            assert forall|j: usize| j < self.nodes@.len() implies (#[trigger] self.nodes@[j as int] is Some
                <==> self.order@.contains(j)) by {
                assert(mid.nodes@[j as int] is Some <==> self.nodes@[j as int] is Some);
                if order.contains(j) {
                    let k = order.index_of(j);
                    assert(self.order@[k] == j);
                }
                if self.order@.contains(j) && j != h {
                    let k = self.order@.index_of(j);
                    assert(order[k] == j);
                }
            }
        }
        assert(self.free_ok()) by {
            assert forall|i: int| 0 <= i < self.free@.len() implies #[trigger] self.free@[i]
                < self.nodes@.len() && self.nodes@[self.free@[i] as int] is None by {
                assert(mid.nodes@[self.free@[i] as int] is None);
            }
        }
        assert forall|g: usize| #[trigger] order.contains(g) implies self.entry(g) == old(self).entry(g) by {
            let i = order.index_of(g);
            assert(linked_at(old(self).nodes@, order, i));
        }
        assert(self@ =~= old(self)@.push((key, value))) by {
            assert forall|i: int| 0 <= i < order.len() implies self.entry(order[i]) == old(self).entry(order[i]) by {
                assert(order.contains(order[i]));
            }
        }
        h
    }

    /// Takes the entry in slot `h` out of the list and frees the slot.
    pub fn remove(&mut self, h: usize) -> (kv: (Key, Value))
        requires
            old(self).wf(),
            old(self).handles().contains(h),
        ensures
            final(self).wf(),
            kv == old(self).entry(h),
            final(self).handles() == old(self).handles().remove(old(self).handles().index_of(h)),
            final(self)@ == old(self)@.remove(old(self).handles().index_of(h)),
            forall|g: usize| #[trigger]
                final(self).handles().contains(g) ==> final(self).entry(g) == old(self).entry(g),
            final(self).free_slots() == old(self).free_slots().push(h),
            final(self).slot_count() == old(self).slot_count(),
    {
        let ghost order = self.order@;
        let ghost i = order.index_of(h);
        let ghost new_order = order.remove(i);
        assert(linked_at(self.nodes@, order, i));
        self.unlink(h);
        let ghost mid = *self;
        let mut slot: Option<Node<Key, Value>> = None;
        self.nodes.set_and_swap(h, &mut slot);
        self.free.push(h);
        self.size = self.size - 1;
        self.order = Ghost(new_order);
        assert(!new_order.contains(h)) by {
            if new_order.contains(h) {
                let k = new_order.index_of(h);
                let k0 = if k < i { k } else { k + 1 };
                assert(order[k0] == h);
            }
        }
        assert forall|j: int| 0 <= j < new_order.len() implies #[trigger] linked_at(self.nodes@, new_order, j) by {
            assert(linked_at(mid.nodes@, new_order, j));
            assert(new_order[j] != h);
        }
        assert(self.occupied(new_order, None)) by {
            assert forall|j: usize| j < self.nodes@.len() implies (#[trigger] self.nodes@[j as int] is Some
                <==> new_order.contains(j)) by {
                assert(old(self).nodes@[j as int] is Some <==> order.contains(j));
                if order.contains(j) && j != h {
                    let k = order.index_of(j);
                    assert(k != i);
                    let k1 = if k < i { k } else { k - 1 };
                    assert(new_order[k1] == j);
                }
                if new_order.contains(j) {
                    let k = new_order.index_of(j);
                    let k0 = if k < i { k } else { k + 1 };
                    assert(order[k0] == j);
                }
            }
        }
        assert(self.free_ok()) by {
            assert forall|a: int| 0 <= a < self.free@.len() implies #[trigger] self.free@[a]
                < self.nodes@.len() && self.nodes@[self.free@[a] as int] is None by {
                if a < self.free@.len() - 1 {
                    assert(old(self).free@[a] == self.free@[a]);
                    assert(self.free@[a] != h);
                }
            }
            assert forall|a: int, b: int| 0 <= a < b < self.free@.len() implies self.free@[a] != self.free@[b] by {
                if b == self.free@.len() - 1 {
                    assert(old(self).nodes@[self.free@[a] as int] is None);
                }
            }
        }
        assert forall|g: usize| #[trigger] new_order.contains(g) implies self.entry(g) == old(self).entry(g) by {
            let k = new_order.index_of(g);
            let k0 = if k < i { k } else { k + 1 };
            assert(order[k0] == g);
            assert(linked_at(old(self).nodes@, order, k0));
        }
        assert(self@ =~= old(self)@.remove(i)) by {
            assert forall|k: int| 0 <= k < new_order.len() implies self.entry(new_order[k]) == old(self).entry(new_order[k]) by {
                assert(new_order.contains(new_order[k]));
            }
        }
        assert(self.free_complete()) by {
            assert forall|j: usize| j < self.nodes@.len() && #[trigger] self.nodes@[j as int] is None
                implies self.free@.contains(j) by {
                if j == h {
                    assert(self.free@[self.free@.len() - 1] == h);
                } else {
                    assert(mid.nodes@[j as int] is None);
                    assert(old(self).nodes@[j as int] is None);
                    let k = old(self).free@.index_of(j);
                    assert(self.free@[k] == j);
                }
            }
        }
        let node = slot.unwrap();
        (node.key, node.value)
    }

    /// Moves the entry in slot `h` to the front of the list; it keeps its slot.
    pub fn move_to_front(&mut self, h: usize)
        requires
            old(self).wf(),
            old(self).handles().contains(h),
        ensures
            final(self).wf(),
            final(self).handles() == seq![h] + old(self).handles().remove(old(self).handles().index_of(h)),
            final(self)@ == seq![old(self)@[old(self).handles().index_of(h)]] + old(self)@.remove(old(self).handles().index_of(h)),
            forall|g: usize| #[trigger]
                old(self).handles().contains(g) ==> final(self).entry(g) == old(self).entry(g),
            forall|g: usize| #[trigger]
                final(self).handles().contains(g) == old(self).handles().contains(g),
            final(self).free_slots() == old(self).free_slots(),
            final(self).slot_count() == old(self).slot_count(),
    {
        let ghost order = self.order@;
        let ghost i = order.index_of(h);
        let ghost rest = order.remove(i);
        let ghost new_order = seq![h] + rest;
        assert(linked_at(self.nodes@, order, i));
        self.unlink(h);
        assert(!rest.contains(h)) by {
            if rest.contains(h) {
                let k = rest.index_of(h);
                let k0 = if k < i { k } else { k + 1 };
                assert(order[k0] == h);
            }
        }
        self.order = Ghost(rest);
        self.link_front(h);
        self.order = Ghost(new_order);
        proof {
            self.lemma_moved(*old(self), i, true);
        }
    }

    /// Moves the entry in slot `h` to the back of the list; it keeps its slot.
    pub fn move_to_back(&mut self, h: usize)
        requires
            old(self).wf(),
            old(self).handles().contains(h),
        ensures
            final(self).wf(),
            final(self).handles() == old(self).handles().remove(old(self).handles().index_of(h)).push(h),
            final(self)@ == old(self)@.remove(old(self).handles().index_of(h)).push(old(self)@[old(self).handles().index_of(h)]),
            forall|g: usize| #[trigger]
                old(self).handles().contains(g) ==> final(self).entry(g) == old(self).entry(g),
            forall|g: usize| #[trigger]
                final(self).handles().contains(g) == old(self).handles().contains(g),
            final(self).free_slots() == old(self).free_slots(),
            final(self).slot_count() == old(self).slot_count(),
    {
        let ghost order = self.order@;
        let ghost i = order.index_of(h);
        let ghost rest = order.remove(i);
        let ghost new_order = rest.push(h);
        assert(linked_at(self.nodes@, order, i));
        self.unlink(h);
        assert(!rest.contains(h)) by {
            if rest.contains(h) {
                let k = rest.index_of(h);
                let k0 = if k < i { k } else { k + 1 };
                assert(order[k0] == h);
            }
        }
        self.order = Ghost(rest);
        self.link_back(h);
        self.order = Ghost(new_order);
        proof {
            self.lemma_moved(*old(self), i, false);
        }
    }

    /// Whether slot `h` holds an entry of the list.
    pub fn holds(&self, h: usize) -> (b: bool)
        requires
            self.wf(),
        ensures
            b == self.handles().contains(h),
    {
        proof {
            if h < self.nodes@.len() {
                assert(self.nodes@[h as int] is Some <==> self.order@.contains(h));
            } else if self.order@.contains(h) {
                assert(linked_at(self.nodes@, self.order@, self.order@.index_of(h)));
            }
        }
        h < self.nodes.len() && self.nodes[h].is_some()
    }

    /// The value held in slot `h`.
    pub fn value(&self, h: usize) -> (v: &Value)
        requires
            self.wf(),
            self.handles().contains(h),
        ensures
            *v == self.entry(h).1,
    {
        assert(linked_at(self.nodes@, self.order@, self.order@.index_of(h)));
        &self.nodes[h].as_ref().unwrap().value
    }

    /// Replaces the key and value held in slot `h`; the entry keeps its place.
    pub fn set_entry(&mut self, h: usize, key: Key, value: Value)
        requires
            old(self).wf(),
            old(self).handles().contains(h),
        ensures
            final(self).wf(),
            final(self).handles() == old(self).handles(),
            final(self).entry(h) == (key, value),
            final(self)@ == old(self)@.update(old(self).handles().index_of(h), (key, value)),
            forall|g: usize| #[trigger]
                old(self).handles().contains(g) && g != h ==> final(self).entry(g) == old(self).entry(g),
            final(self).free_slots() == old(self).free_slots(),
            final(self).slot_count() == old(self).slot_count(),
    {
        let ghost order = self.order@;
        let ghost i = order.index_of(h);
        assert(linked_at(self.nodes@, order, i));
        match &mut self.nodes[h] {
            Some(n) => {
                n.key = key;
                n.value = value;
            },
            None => {},
        }
        assert(forall|j: int| 0 <= j < self.nodes@.len() && j != h ==> self.nodes@[j] == old(self).nodes@[j]);
        assert forall|g: usize| #[trigger] order.contains(g) && g != h implies self.entry(g) == old(self).entry(g) by {
            assert(linked_at(old(self).nodes@, order, order.index_of(g)));
            assert(self.nodes@[g as int] == old(self).nodes@[g as int]);
        }
        assert forall|k: int| 0 <= k < order.len() implies #[trigger] linked_at(self.nodes@, order, k) by {
            assert(linked_at(old(self).nodes@, order, k));
        }
        assert(self.occupied(order, None)) by {
            assert forall|j: usize| j < self.nodes@.len() implies (#[trigger] self.nodes@[j as int] is Some
                <==> order.contains(j)) by {
                assert(old(self).nodes@[j as int] is Some <==> order.contains(j));
            }
        }
        assert(self.free_ok()) by {
            assert forall|a: int| 0 <= a < self.free@.len() implies #[trigger] self.free@[a]
                < self.nodes@.len() && self.nodes@[self.free@[a] as int] is None by {
                assert(old(self).nodes@[self.free@[a] as int] is None);
            }
        }
        assert(self@ =~= old(self)@.update(i, (key, value))) by {
            assert forall|k: int| 0 <= k < order.len() && k != i implies self.entry(#[trigger] order[k])
                == old(self).entry(order[k]) by {
                lemma_index_of_unique(order, k);
                assert(order[k] != h);
            }
        }
    }

    /// Takes the entry at the back of the list out, if there is one.
    pub fn pop_back(&mut self) -> (kv: Option<(Key, Value)>)
        requires
            old(self).wf(),
        ensures
            final(self).wf(),
            old(self)@.len() == 0 ==> kv is None && final(self).handles() == old(self).handles(),
            old(self)@.len() > 0 ==> kv == Some(old(self)@.last()) && final(self).handles()
                == old(self).handles().drop_last(),
            final(self)@ == (if old(self)@.len() == 0 {
                old(self)@
            } else {
                old(self)@.drop_last()
            }),
            forall|g: usize| #[trigger]
                final(self).handles().contains(g) ==> final(self).entry(g) == old(self).entry(g),
            old(self)@.len() > 0 ==> final(self).free_slots() == old(self).free_slots().push(old(self).handles().last()),
            old(self)@.len() == 0 ==> final(self).free_slots() == old(self).free_slots(),
            final(self).slot_count() == old(self).slot_count(),
    {
        match self.tail {
            Some(t) => {
                let ghost order = self.order@;
                proof {
                    lemma_index_of_unique(order, order.len() - 1);
                }
                let kv = self.remove(t);
                assert(order.remove(order.len() - 1) =~= order.drop_last());
                assert(old(self)@.remove(order.len() - 1) =~= old(self)@.drop_last());
                Some(kv)
            },
            None => None,
        }
    }

    /// Takes the entry at the front of the list out, if there is one.
    pub fn pop_front(&mut self) -> (kv: Option<(Key, Value)>)
        requires
            old(self).wf(),
        ensures
            final(self).wf(),
            old(self)@.len() == 0 ==> kv is None && final(self).handles() == old(self).handles(),
            old(self)@.len() > 0 ==> kv == Some(old(self)@[0]) && final(self).handles()
                == old(self).handles().drop_first(),
            final(self)@ == (if old(self)@.len() == 0 {
                old(self)@
            } else {
                old(self)@.drop_first()
            }),
            forall|g: usize| #[trigger]
                final(self).handles().contains(g) ==> final(self).entry(g) == old(self).entry(g),
            old(self)@.len() > 0 ==> final(self).free_slots() == old(self).free_slots().push(old(self).handles()[0]),
            old(self)@.len() == 0 ==> final(self).free_slots() == old(self).free_slots(),
            final(self).slot_count() == old(self).slot_count(),
    {
        match self.head {
            Some(f) => {
                let ghost order = self.order@;
                proof {
                    lemma_index_of_unique(order, 0);
                }
                let kv = self.remove(f);
                assert(order.remove(0) =~= order.drop_first());
                assert(old(self)@.remove(0) =~= old(self)@.drop_first());
                Some(kv)
            },
            None => None,
        }
    }

    /// After one entry moves to an end of the list, the list is well formed again,
    /// every slot keeps its entry, and the entries are reordered in the same way.
    proof fn lemma_moved(&self, before: Self, i: int, to_front: bool)
        requires
            before.wf(),
            0 <= i < before.order@.len(),
            self.linked(self.order@),
            self.same_entries(&before),
            self.free == before.free,
            self.size == before.size,
            to_front ==> self.order@ == seq![before.order@[i]] + before.order@.remove(i),
            !to_front ==> self.order@ == before.order@.remove(i).push(before.order@[i]),
        ensures
            self.wf(),
            forall|g: usize| #[trigger]
                before.order@.contains(g) ==> self.entry(g) == before.entry(g),
            to_front ==> self@ == seq![before@[i]] + before@.remove(i),
            !to_front ==> self@ == before@.remove(i).push(before@[i]),
            forall|g: usize| #[trigger] self.order@.contains(g) == before.order@.contains(g),
    {
        let order = before.order@;
        let new_order = self.order@;
        let h = order[i];
        assert(new_order.len() == order.len());
        assert forall|g: usize| new_order.contains(g) <==> order.contains(g) by {
            if new_order.contains(g) {
                let k = new_order.index_of(g);
                if g != h {
                    let r = if to_front { k - 1 } else { k };
                    let k0 = if r < i { r } else { r + 1 };
                    assert(order[k0] == g);
                }
            }
            if order.contains(g) {
                let k = order.index_of(g);
                if k == i {
                    if to_front {
                        assert(new_order[0] == g);
                    } else {
                        assert(new_order[new_order.len() - 1] == g);
                    }
                } else {
                    let r = if k < i { k } else { k - 1 };
                    let k1 = if to_front { r + 1 } else { r };
                    assert(new_order[k1] == g);
                }
            }
        }
        assert(self.occupied(new_order, None)) by {
            assert forall|j: usize| j < self.nodes@.len() implies (#[trigger] self.nodes@[j as int] is Some
                <==> new_order.contains(j)) by {
                assert(before.nodes@[j as int] is Some <==> order.contains(j));
            }
        }
        assert(self.free_ok()) by {
            assert forall|a: int| 0 <= a < self.free@.len() implies #[trigger] self.free@[a]
                < self.nodes@.len() && self.nodes@[self.free@[a] as int] is None by {
                assert(before.nodes@[self.free@[a] as int] is None);
            }
        }
        assert forall|g: usize| #[trigger] order.contains(g) implies self.entry(g) == before.entry(g) by {
            let k = order.index_of(g);
            assert(linked_at(before.nodes@, order, k));
        }
        assert forall|k: int| 0 <= k < order.len() implies self.entry(#[trigger] order[k]) == before.entry(order[k]) by {
            assert(order.contains(order[k]));
        }
        if to_front {
            assert(self@ =~= seq![before@[i]] + before@.remove(i));
        } else {
            assert(self@ =~= before@.remove(i).push(before@[i]));
        }
    }

    /// Rewrites the back link of the node in slot `j`.
    fn set_prev(&mut self, j: usize, p: Option<usize>)
        requires
            j < old(self).nodes@.len(),
            old(self).nodes@[j as int] is Some,
        ensures
            final(self).nodes@ == old(self).nodes@.update(
                j as int,
                Some(
                    Node {
                        key: old(self).nodes@[j as int]->Some_0.key,
                        value: old(self).nodes@[j as int]->Some_0.value,
                        prev: p,
                        next: old(self).nodes@[j as int]->Some_0.next,
                    },
                ),
            ),
            final(self).free == old(self).free,
            final(self).head == old(self).head,
            final(self).tail == old(self).tail,
            final(self).size == old(self).size,
            final(self).order == old(self).order,
    {
        match &mut self.nodes[j] {
            Some(n) => {
                n.prev = p;
            },
            None => {},
        }
    }

    /// Rewrites the forward link of the node in slot `j`.
    fn set_next(&mut self, j: usize, n: Option<usize>)
        requires
            j < old(self).nodes@.len(),
            old(self).nodes@[j as int] is Some,
        ensures
            final(self).nodes@ == old(self).nodes@.update(
                j as int,
                Some(
                    Node {
                        key: old(self).nodes@[j as int]->Some_0.key,
                        value: old(self).nodes@[j as int]->Some_0.value,
                        prev: old(self).nodes@[j as int]->Some_0.prev,
                        next: n,
                    },
                ),
            ),
            final(self).free == old(self).free,
            final(self).head == old(self).head,
            final(self).tail == old(self).tail,
            final(self).size == old(self).size,
            final(self).order == old(self).order,
    {
        match &mut self.nodes[j] {
            Some(node) => {
                node.next = n;
            },
            None => {},
        }
    }
}

impl<Key, Value> Default for Dll<Key, Value> {
    fn default() -> (dll: Self)
        ensures
            dll.wf(),
            dll@ == Seq::<(Key, Value)>::empty(),
    {
        Self::new()
    }
}

} // verus!
