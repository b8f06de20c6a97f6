use vstd::prelude::*;

verus! {

/// One slot of the list's node arena: an element (absent once the node has
/// been popped) and the index of the following node.
struct Node<T> {
    elem: Option<T>,
    next: Option<usize>,
}

impl<T> Node<T> {
    fn new(elem: T) -> (r: Node<T>)
        ensures
            r.elem == Some(elem),
            r.next is None,
    {
        Node { elem: Some(elem), next: None }
    }
}

/// A singly linked list whose nodes live in an arena and are addressed by
/// index, so that `head` and `tail` can both name a node.
///
/// The ghost field `chain` lists the slot indices of the nodes in list order:
/// following `next` from `head` visits exactly these slots and ends at `tail`.
pub struct List<T> {
    slots: Vec<Node<T>>,
    free: Vec<usize>,
    head: Option<usize>,
    tail: Option<usize>,
    chain: Ghost<Seq<usize>>,
}

/// Where `insert_at_position` puts an element: positions below the front
/// go to the head, positions at or past the end go to the tail.
pub open spec fn clamp_position(position: int, len: int) -> int {
    if position <= 0 {
        0
    } else if position >= len {
        len
    } else {
        position
    }
}

impl<T> View for List<T> {
    type V = Seq<T>;

    /// The elements in list order, from head to tail.
    closed spec fn view(&self) -> Seq<T> {
        Seq::new(self.chain@.len(), |k: int| self.slots@[self.chain@[k] as int].elem->Some_0)
    }
}

impl<T> List<T> {
    /// The node chain is acyclic and consistent with `head`, `tail` and the
    /// arena; freed slots are empty and listed once.
    pub closed spec fn wf(&self) -> bool {
        let c = self.chain@;
        let s = self.slots@;
        &&& c.no_duplicates()
        &&& forall|k: int|
            0 <= k < c.len() ==> (#[trigger] c[k] as int) < s.len() && s[c[k] as int].elem is Some
        &&& forall|k: int|
            #![trigger c[k], c[k + 1]]
            0 <= k < c.len() - 1 ==> s[c[k] as int].next == Some(c[k + 1])
        &&& c.len() > 0 ==> s[c.last() as int].next is None
        &&& self.head == (if c.len() == 0 {
            None
        } else {
            Some(c[0])
        })
        &&& self.tail == (if c.len() == 0 {
            None
        } else {
            Some(c.last())
        })
        &&& self.free@.no_duplicates()
        &&& forall|j: int|
            0 <= j < self.free@.len() ==> {
                &&& (#[trigger] self.free@[j] as int) < s.len()
                &&& s[self.free@[j] as int].elem is None
            }
        &&& c.len() + self.free@.len() <= s.len()
    }

    pub fn new() -> (r: List<T>)
        ensures
            r.wf(),
            r@ == Seq::<T>::empty(),
    {
        let r = List { slots: Vec::new(), free: Vec::new(), head: None, tail: None, chain: Ghost(Seq::empty()) };
        assert(r@ =~= Seq::<T>::empty());
        r
    }

    /// The node at chain position `k` links to the one at `k + 1`.
    proof fn lemma_link(&self, k: int)
        requires
            self.wf(),
            0 <= k < self.chain@.len() - 1,
        ensures
            self.slots@[self.chain@[k] as int].next == Some(self.chain@[k + 1]),
    {
        assert(self.slots@[self.chain@[k] as int].next == Some(self.chain@[k + 1]));
    }

    /// Places `elem` in an unused slot, reusing a freed one where there is one.
    fn allocate(&mut self, elem: T) -> (i: usize)
        requires
            old(self).wf(),
        ensures
            final(self).wf(),
            final(self).chain == old(self).chain,
            final(self).head == old(self).head,
            final(self).tail == old(self).tail,
            final(self)@ == old(self)@,
            i < final(self).slots@.len(),
            !old(self).chain@.contains(i),
            final(self).slots@[i as int].elem == Some(elem),
            final(self).slots@[i as int].next is None,
            final(self).chain@.len() + final(self).free@.len() < final(self).slots@.len(),
    {
        let ghost c = self.chain@;
        match self.free.pop() {
            Some(i) => {
                assert(old(self).free@.last() == i);
                assert(!c.contains(i)) by {
                    if c.contains(i) {
                        let k = choose|k: int| 0 <= k < c.len() && c[k] == i;
                        assert(self.slots@[c[k] as int].elem is Some);
                    }
                }
                assert(!self.free@.contains(i)) by {
                    if self.free@.contains(i) {
                        let j = choose|j: int| 0 <= j < self.free@.len() && self.free@[j] == i;
                        assert(old(self).free@[j] == old(self).free@[old(self).free@.len() - 1]);
                    }
                }
                self.slots[i] = Node::new(elem);
                assert(self@ =~= old(self)@);
                i
            },
            None => {
                let i = self.slots.len();
                self.slots.push(Node::new(elem));
                assert(self@ =~= old(self)@);
                i
            },
        }
    }

    /// Takes the element out of slot `i`, which no longer belongs to the
    /// chain, and records the slot as free.
    fn release(&mut self, i: usize) -> (e: T)
        requires
            old(self).wf(),
            i < old(self).slots@.len(),
            old(self).slots@[i as int].elem is Some,
            !old(self).chain@.contains(i),
            old(self).chain@.len() + old(self).free@.len() < old(self).slots@.len(),
        ensures
            final(self).wf(),
            final(self).chain == old(self).chain,
            final(self).head == old(self).head,
            final(self).tail == old(self).tail,
            final(self)@ == old(self)@,
            e == old(self).slots@[i as int].elem->Some_0,
    {
        let e = self.slots[i].elem.take();
        assert(!old(self).free@.contains(i)) by {
            if old(self).free@.contains(i) {
                let j = choose|j: int| 0 <= j < old(self).free@.len() && old(self).free@[j] == i;
                assert(old(self).slots@[old(self).free@[j] as int].elem is None);
            }
        }
        self.free.push(i);
        assert(self@ =~= old(self)@);
        e.unwrap()
    }

    pub fn insert_at_head(&mut self, elem: T)
        requires
            old(self).wf(),
        ensures
            final(self).wf(),
            final(self)@ == seq![elem] + old(self)@,
    {
        let i = self.allocate(elem);
        let ghost mid = *self;
        self.slots[i].next = self.head;
        if self.head.is_none() {
            self.tail = Some(i);
        }
        self.head = Some(i);
        let ghost c = self.chain@;
        self.chain = Ghost(seq![i] + c);
        assert forall|k: int|
            #![trigger self.chain@[k], self.chain@[k + 1]]
            0 <= k < self.chain@.len() - 1 implies self.slots@[self.chain@[k] as int].next == Some(
                self.chain@[k + 1],
            ) by {
            if k > 0 {
                mid.lemma_link(k - 1);
                assert(self.chain@[k] == c[k - 1] && self.chain@[k + 1] == c[k]);
            }
        }
        assert(self@ =~= seq![elem] + old(self)@);
    }

    pub fn insert_at_tail(&mut self, elem: T)
        requires
            old(self).wf(),
        ensures
            final(self).wf(),
            final(self)@ == old(self)@.push(elem),
    {
        let i = self.allocate(elem);
        match self.tail {
            Some(t) => {
                self.slots[t].next = Some(i);
            },
            None => {
                self.head = Some(i);
            },
        }
        self.tail = Some(i);
        self.chain = Ghost(self.chain@.push(i));
        assert(self@ =~= old(self)@.push(elem));
    }

    pub fn pop_at_head(&mut self) -> (r: Option<T>)
        requires
            old(self).wf(),
        ensures
            final(self).wf(),
            old(self)@.len() == 0 ==> r is None && final(self)@ == old(self)@,
            old(self)@.len() > 0 ==> r == Some(old(self)@[0]) && final(self)@ == old(self)@.drop_first(),
    {
        match self.head {
            None => None,
            Some(h) => {
                let next = self.slots[h].next;
                self.head = next;
                if next.is_none() {
                    self.tail = None;
                }
                self.chain = Ghost(self.chain@.drop_first());
                let e = self.release(h);
                assert(self@ =~= old(self)@.drop_first());
                Some(e)
            },
        }
    }
    pub fn pop_at_tail(&mut self) -> (r: Option<T>)
        requires
            old(self).wf(),
        ensures
            final(self).wf(),
            old(self)@.len() == 0 ==> r is None && final(self)@ == old(self)@,
            old(self)@.len() > 0 ==> r == Some(old(self)@.last()) && final(self)@ == old(self)@.drop_last(),
    {
        let t = match self.tail {
            None => {
                return None;
            },
            Some(t) => t,
        };
        let h = self.head.unwrap();
        if h == t {
            // head and tail are the same node: the list holds one element
            assert(self.chain@.len() == 1) by {
                if self.chain@.len() > 1 {
                    assert(self.chain@[0] == self.chain@[self.chain@.len() - 1]);
                }
            }
            return self.pop_at_head();
        }
        let ghost c = self.chain@;
        let ghost n = c.len();
        let mut prev: usize = h;
        let ghost mut k: int = 0;
        loop
            invariant
                *self == *old(self),
                self.wf(),
                c == self.chain@,
                n == c.len(),
                n >= 2,
                self.tail == Some(t),
                0 <= k <= n - 2,
                prev == c[k],
            ensures
                prev == c[n - 2],
            decreases n - k,
        {
            proof {
                self.lemma_link(k);
            }
            match self.slots[prev].next {
                Some(following) => {
                    if following == t {
                        assert(k + 1 == n - 1);
                        break;
                    }
                    prev = following;
                    proof {
                        k = k + 1;
                    }
                },
                None => {
                    break;
                },
            }
        }
        self.slots[prev].next = None;
        self.tail = Some(prev);
        self.chain = Ghost(c.drop_last());
        let e = self.release(t);
        assert(self@ =~= old(self)@.drop_last());
        Some(e)
    }

    pub fn pop_at_position(&mut self, position: i32) -> (r: Option<T>)
        requires
            old(self).wf(),
        ensures
            final(self).wf(),
            old(self)@.len() == 0 ==> r is None && final(self)@ == old(self)@,
            old(self)@.len() > 0 && (position == 0 || old(self)@.len() == 1) ==> r == Some(old(self)@[0])
                && final(self)@ == old(self)@.drop_first(),
            old(self)@.len() > 1 && 0 < position < old(self)@.len() ==> r == Some(old(self)@[position as int])
                && final(self)@ == old(self)@.remove(position as int),
            old(self)@.len() > 1 && (position < 0 || position >= old(self)@.len()) ==> r is None
                && final(self)@ == old(self)@,
    {
        let h = match self.head {
            None => {
                return None;
            },
            Some(h) => h,
        };
        if position == 0 {
            return self.pop_at_head();
        }
        let t = self.tail.unwrap();
        if h == t {
            // a single-element list can only give up its one element
            assert(self.chain@.len() == 1) by {
                if self.chain@.len() > 1 {
                    assert(self.chain@[0] == self.chain@[self.chain@.len() - 1]);
                }
            }
            return self.pop_at_head();
        }
        if position < 0 {
            return None;
        }
        let target = position as usize;
        let ghost c = self.chain@;
        let ghost n = c.len();
        let mut prev: usize = h;
        let mut count: usize = 1;
        loop
            invariant
                *self == *old(self),
                self.wf(),
                c == self.chain@,
                n == c.len(),
                n >= 2,
                1 <= count <= n,
                count <= target,
                target == position,
                prev == c[count - 1],
            decreases n - count,
        {
            proof {
                if count < n {
                    self.lemma_link(count - 1);
                }
            }
            let current = match self.slots[prev].next {
                None => {
                    return None;
                },
                Some(current) => current,
            };
            assert(current == c[count as int]);
            if count == target {
                let ghost mid = *self;
                proof {
                    if count + 1 < n {
                        self.lemma_link(count as int);
                    }
                }
                let after = self.slots[current].next;
                self.slots[prev].next = after;
                if after.is_none() {
                    self.tail = Some(prev);
                }
                self.chain = Ghost(c.remove(count as int));
                assert forall|k: int|
                    #![trigger self.chain@[k], self.chain@[k + 1]]
                    0 <= k < self.chain@.len() - 1 implies self.slots@[self.chain@[k] as int].next == Some(
                        self.chain@[k + 1],
                    ) by {
                    if k < count - 1 {
                        mid.lemma_link(k);
                        assert(self.chain@[k] == c[k] && self.chain@[k + 1] == c[k + 1]);
                    } else if k >= count {
                        mid.lemma_link(k + 1);
                        assert(self.chain@[k] == c[k + 1] && self.chain@[k + 1] == c[k + 2]);
                    }
                }
                assert(self.chain@.no_duplicates()) by {
                    assert forall|a: int, b: int|
                        0 <= a < self.chain@.len() && 0 <= b < self.chain@.len() && a != b implies
                        self.chain@[a] != self.chain@[b] by {
                        let a0 = if a < count { a } else { a + 1 };
                        let b0 = if b < count { b } else { b + 1 };
                        assert(c[a0] != c[b0]);
                    }
                }
                assert(!self.chain@.contains(current)) by {
                    if self.chain@.contains(current) {
                        let j = choose|j: int| 0 <= j < self.chain@.len() && self.chain@[j] == current;
                        let j0 = if j < count { j } else { j + 1 };
                        assert(c[j0] == c[count as int]);
                    }
                }
                let e = self.release(current);
                assert(self@ =~= old(self)@.remove(count as int));
                return Some(e);
            }
            prev = current;
            count = count + 1;
        }
    }

    /// Counts the nodes by following `next` from the head.
    fn count_nodes(&self) -> (n: usize)
        requires
            self.wf(),
        ensures
            n == self@.len(),
    {
        let ghost c = self.chain@;
        let slot_count = self.slots.len();
        let mut n: usize = 0;
        let mut current = self.head;
        loop
            invariant
                self.wf(),
                c == self.chain@,
                c.len() <= slot_count,
                n <= c.len(),
                current == (if n < c.len() {
                    Some(c[n as int])
                } else {
                    None::<usize>
                }),
            decreases c.len() - n,
        {
            match current {
                None => {
                    return n;
                },
                Some(i) => {
                    assert(self.slots@[c[n as int] as int].elem is Some);
                    current = self.slots[i].next;
                    n = n + 1;
                },
            }
        }
    }

    /// The number of elements, counted by a walk over the chain.
    pub fn get_list_length(&self) -> (r: i32)
        requires
            self.wf(),
            self@.len() <= i32::MAX,
        ensures
            r == self@.len(),
    {
        self.count_nodes() as i32
    }

    pub fn insert_at_position(&mut self, elem: T, position: i32)
        requires
            old(self).wf(),
        ensures
            final(self).wf(),
            final(self)@ == old(self)@.insert(clamp_position(position as int, old(self)@.len() as int), elem),
    {
        if self.head.is_none() || position <= 0 {
            self.insert_at_head(elem);
            assert(seq![elem] + old(self)@ =~= old(self)@.insert(0, elem));
            return;
        }
        let length = self.count_nodes();
        if position as usize >= length {
            self.insert_at_tail(elem);
            assert(old(self)@.push(elem) =~= old(self)@.insert(old(self)@.len() as int, elem));
            return;
        }
        let target = position as usize;
        let i = self.allocate(elem);
        let ghost c = self.chain@;
        let ghost n = c.len();
        let mut prev: usize = self.head.unwrap();
        let mut count: usize = 1;
        while count < target
            invariant
                self.wf(),
                c == self.chain@,
                n == c.len(),
                1 <= count <= target,
                target < n,
                prev == c[count - 1],
            decreases target - count,
        {
            proof {
                self.lemma_link(count - 1);
            }
            prev = self.slots[prev].next.unwrap();
            count = count + 1;
        }
        proof {
            self.lemma_link(count - 1);
        }
        let ghost mid = *self;
        let current = self.slots[prev].next;
        self.slots[i].next = current;
        self.slots[prev].next = Some(i);
        self.chain = Ghost(c.insert(count as int, i));
        assert forall|k: int|
            #![trigger self.chain@[k], self.chain@[k + 1]]
            0 <= k < self.chain@.len() - 1 implies self.slots@[self.chain@[k] as int].next == Some(
                self.chain@[k + 1],
            ) by {
            if k < count - 1 {
                mid.lemma_link(k);
                assert(self.chain@[k] == c[k] && self.chain@[k + 1] == c[k + 1]);
            } else if k > count {
                mid.lemma_link(k - 1);
                assert(self.chain@[k] == c[k - 1] && self.chain@[k + 1] == c[k]);
            }
        }
        assert(self.chain@.no_duplicates()) by {
            assert forall|a: int, b: int|
                0 <= a < self.chain@.len() && 0 <= b < self.chain@.len() && a != b implies
                self.chain@[a] != self.chain@[b] by {
                if a != count && b != count {
                    let a0 = if a < count { a } else { a - 1 };
                    let b0 = if b < count { b } else { b - 1 };
                    assert(c[a0] != c[b0]);
                } else if a == count {
                    let b0 = if b < count { b } else { b - 1 };
                    assert(c[b0] != i);
                } else {
                    let a0 = if a < count { a } else { a - 1 };
                    assert(c[a0] != i);
                }
            }
        }
        assert(self@ =~= old(self)@.insert(target as int, elem));
    }
    /// The first element, borrowed from the list, or `None` when it is empty.
    pub fn peak_elem(&self) -> (r: Option<&T>)
        requires
            self.wf(),
        ensures
            self@.len() == 0 ==> r is None,
            self@.len() > 0 ==> r == Some(&self@[0]),
    {
        match self.head {
            None => None,
            Some(h) => self.slots[h].elem.as_ref(),
        }
    }

    /// The last element, borrowed from the list, or `None` when it is empty.
    pub fn last_elem(&self) -> (r: Option<&T>)
        requires
            self.wf(),
        ensures
            self@.len() == 0 ==> r is None,
            self@.len() > 0 ==> r == Some(&self@.last()),
    {
        match self.tail {
            None => None,
            Some(t) => self.slots[t].elem.as_ref(),
        }
    }

    /// A forward iterator over copies of the elements, starting at the head.
    pub fn iter(&self) -> (r: ListIter<'_, T>)
        requires
            self.wf(),
        ensures
            r.wf(),
            r.items() == self@,
            r.pos() == 0,
    {
        ListIter { list: self, next: self.head, pos: Ghost(0) }
    }
}

/// Walks a list from head to tail, handing out a clone of each element.
pub struct ListIter<'a, T> {
    list: &'a List<T>,
    next: Option<usize>,
    pos: Ghost<int>,
}

impl<'a, T> ListIter<'a, T> {
    /// The elements of the list being walked.
    pub closed spec fn items(&self) -> Seq<T> {
        self.list@
    }

    /// How many elements have been handed out so far.
    pub closed spec fn pos(&self) -> int {
        self.pos@
    }

    pub closed spec fn wf(&self) -> bool {
        &&& self.list.wf()
        &&& 0 <= self.pos@ <= self.list.chain@.len()
        &&& self.next == (if self.pos@ < self.list.chain@.len() {
            Some(self.list.chain@[self.pos@])
        } else {
            None::<usize>
        })
    }
}

impl<'a, T: Clone> ListIter<'a, T> {
    /// The next element, or `None` once the tail has been passed.
    pub fn next(&mut self) -> (r: Option<T>)
        requires
            old(self).wf(),
        ensures
            final(self).wf(),
            final(self).items() == old(self).items(),
            old(self).pos() < old(self).items().len() ==> final(self).pos() == old(self).pos() + 1 && r is Some
                && cloned(old(self).items()[old(self).pos()], r->Some_0),
            old(self).pos() >= old(self).items().len() ==> final(self).pos() == old(self).pos() && r is None,
    {
        match self.next {
            None => None,
            Some(i) => {
                let ghost k = self.pos@;
                assert(self.list.slots@[self.list.chain@[k] as int].elem is Some);
                let e = self.list.slots[i].elem.as_ref().unwrap().clone();
                self.next = self.list.slots[i].next;
                self.pos = Ghost(k + 1);
                Some(e)
            },
        }
    }
}

/// The list that `insert_at_head` calls with `vals`, in that order, build
/// from `s`.
pub open spec fn inserted_at_head<T>(s: Seq<T>, vals: Seq<T>) -> Seq<T>
    decreases vals.len(),
{
    if vals.len() == 0 {
        s
    } else {
        seq![vals.last()] + inserted_at_head(s, vals.drop_last())
    }
}

/// The list that `insert_at_tail` calls with `vals`, in that order, build
/// from `s`.
pub open spec fn inserted_at_tail<T>(s: Seq<T>, vals: Seq<T>) -> Seq<T>
    decreases vals.len(),
{
    if vals.len() == 0 {
        s
    } else {
        inserted_at_tail(s, vals.drop_last()).push(vals.last())
    }
}

/// What repeated `pop_at_head` calls hand out, in order, until the list is empty.
pub open spec fn drained_at_head<T>(s: Seq<T>) -> Seq<T>
    decreases s.len(),
{
    if s.len() == 0 {
        Seq::empty()
    } else {
        seq![s[0]] + drained_at_head(s.drop_first())
    }
}

/// What repeated `pop_at_tail` calls hand out, in order, until the list is empty.
pub open spec fn drained_at_tail<T>(s: Seq<T>) -> Seq<T>
    decreases s.len(),
{
    if s.len() == 0 {
        Seq::empty()
    } else {
        seq![s.last()] + drained_at_tail(s.drop_last())
    }
}

/// Draining at the head hands out the elements in list order.
pub proof fn lemma_drained_at_head<T>(s: Seq<T>)
    ensures
        drained_at_head(s) == s,
    decreases s.len(),
{
    if s.len() > 0 {
        lemma_drained_at_head(s.drop_first());
        assert(seq![s[0]] + s.drop_first() =~= s);
    }
}

/// Draining at the tail hands out the elements in reverse list order.
pub proof fn lemma_drained_at_tail<T>(s: Seq<T>)
    ensures
        drained_at_tail(s) == s.reverse(),
    decreases s.len(),
{
    if s.len() > 0 {
        lemma_drained_at_tail(s.drop_last());
        assert(seq![s.last()] + s.drop_last().reverse() =~= s.reverse());
    }
}

/// Head insertions of `vals` into an empty list, followed by as many
/// `pop_at_head` calls, hand the values back last first.
pub proof fn lemma_head_inserts_pop_in_reverse<T>(vals: Seq<T>)
    ensures
        drained_at_head(inserted_at_head(Seq::<T>::empty(), vals)) == vals.reverse(),
    decreases vals.len(),
{
    lemma_drained_at_head(inserted_at_head(Seq::<T>::empty(), vals));
    if vals.len() > 0 {
        lemma_head_inserts_pop_in_reverse(vals.drop_last());
        lemma_drained_at_head(inserted_at_head(Seq::<T>::empty(), vals.drop_last()));
        assert(seq![vals.last()] + vals.drop_last().reverse() =~= vals.reverse());
    }
}

/// Tail insertions of `vals` into an empty list, followed by as many
/// `pop_at_tail` calls, hand the values back last first.
pub proof fn lemma_tail_inserts_pop_in_reverse<T>(vals: Seq<T>)
    ensures
        drained_at_tail(inserted_at_tail(Seq::<T>::empty(), vals)) == vals.reverse(),
    decreases vals.len(),
{
    lemma_tail_inserts_build_in_order(vals);
    lemma_drained_at_tail(vals);
}

/// Tail insertions of `vals` into an empty list leave the values in call order.
pub proof fn lemma_tail_inserts_build_in_order<T>(vals: Seq<T>)
    ensures
        inserted_at_tail(Seq::<T>::empty(), vals) == vals,
    decreases vals.len(),
{
    if vals.len() > 0 {
        lemma_tail_inserts_build_in_order(vals.drop_last());
        assert(vals.drop_last().push(vals.last()) =~= vals);
    }
}

/// In every well-formed list, the length equals the number of elements that
/// draining it at the head hands out.
pub proof fn lemma_length_is_drain_count<T>(l: &List<T>)
    requires
        l.wf(),
    ensures
        drained_at_head(l@).len() == l@.len(),
{
    lemma_drained_at_head(l@);
}

/// Positional insertion at a position at or below zero is head insertion,
/// and at or past the length it is tail insertion.
pub proof fn lemma_insert_at_position_clamps<T>(s: Seq<T>, x: T, position: int)
    ensures
        position <= 0 ==> s.insert(clamp_position(position, s.len() as int), x) == seq![x] + s,
        position >= s.len() ==> s.insert(clamp_position(position, s.len() as int), x) == s.push(x),
{
    assert(s.insert(0, x) =~= seq![x] + s);
    assert(s.insert(s.len() as int, x) =~= s.push(x));
}

} // verus!
