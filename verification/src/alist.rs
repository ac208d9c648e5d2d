//! The accessor list: the set of generations that some reader observes.
//!
//! The list is a chain of slots that only ever grows. A slot is either empty
//! or holds the address of one generation; a reader occupies a slot for as
//! long as it looks, and the slot is reused once the reader is gone.
use vstd::prelude::*;

verus! {

/// Position of the first empty slot of `s`, or `s.len()` where every slot is
/// occupied.
pub open spec fn first_free(s: Seq<Option<usize>>) -> int
    decreases s.len(),
{
    if s.len() == 0 {
        0
    } else if s[0] is None {
        0
    } else {
        1 + first_free(s.subrange(1, s.len() as int))
    }
}

/// The list after `addr` took the first empty slot, or a new last slot where
/// none was empty.
pub open spec fn with_inserted(s: Seq<Option<usize>>, addr: usize) -> Seq<Option<usize>> {
    if first_free(s) < s.len() {
        s.update(first_free(s), Some(addr))
    } else {
        s.push(Some(addr))
    }
}

/// Whether some slot of `s` holds `addr`.
pub open spec fn holds(s: Seq<Option<usize>>, addr: usize) -> bool {
    exists|i: int| 0 <= i < s.len() && s[i] == Some(addr)
}

/// Whether no slot of `s` is occupied.
pub open spec fn all_empty(s: Seq<Option<usize>>) -> bool {
    forall|i: int| 0 <= i < s.len() ==> s[i] is None
}

/// The list after the slot at `pos` was cleared, if that slot held `addr`;
/// the list as it was otherwise.
pub open spec fn with_cleared(s: Seq<Option<usize>>, pos: int, addr: usize) -> Seq<Option<usize>> {
    if 0 <= pos < s.len() && s[pos] == Some(addr) {
        s.update(pos, None)
    } else {
        s
    }
}

/// `first_free` is the least position that is empty.
pub proof fn lemma_first_free(s: Seq<Option<usize>>)
    ensures
        0 <= first_free(s) <= s.len(),
        first_free(s) < s.len() ==> s[first_free(s)] is None,
        forall|i: int| 0 <= i < first_free(s) ==> s[i] is Some,
    decreases s.len(),
{
    if s.len() > 0 && s[0] is Some {
        let t = s.subrange(1, s.len() as int);
        lemma_first_free(t);
        assert forall|i: int| 0 <= i < first_free(s) implies s[i] is Some by {
            if i > 0 {
                assert(t[i - 1] == s[i]);
            }
        }
    }
}

/// A position below which every slot is occupied, and which is empty or the
/// end, is `first_free`.
pub proof fn lemma_first_free_is(s: Seq<Option<usize>>, pos: int)
    requires
        0 <= pos <= s.len(),
        forall|i: int| 0 <= i < pos ==> s[i] is Some,
        pos < s.len() ==> s[pos] is None,
    ensures
        first_free(s) == pos,
{
    lemma_first_free(s);
}

/// What `with_inserted` does, slot by slot.
pub proof fn lemma_with_inserted(s: Seq<Option<usize>>, addr: usize)
    ensures
        0 <= first_free(s) <= s.len(),
        first_free(s) < s.len() ==> s[first_free(s)] is None,
        with_inserted(s, addr).len() == if first_free(s) < s.len() {
            s.len()
        } else {
            s.len() + 1
        },
        with_inserted(s, addr)[first_free(s)] == Some(addr),
        forall|p: int|
            0 <= p < with_inserted(s, addr).len() && p != first_free(s) ==> 0 <= p < s.len()
                && #[trigger] with_inserted(s, addr)[p] == s[p],
        forall|b: usize| #[trigger] holds(with_inserted(s, addr), b) <==> b == addr || holds(s, b),
        !all_empty(with_inserted(s, addr)),
{
    lemma_first_free(s);
    let t = with_inserted(s, addr);
    let f = first_free(s);
    assert(t[f] == Some(addr));
    assert forall|b: usize| #[trigger] holds(t, b) <==> b == addr || holds(s, b) by {
        if holds(t, b) {
            let i = choose|i: int| 0 <= i < t.len() && t[i] == Some(b);
            if i != f {
                assert(s[i] == Some(b));
            }
        }
        if holds(s, b) {
            let i = choose|i: int| 0 <= i < s.len() && s[i] == Some(b);
            assert(i != f);
            assert(t[i] == Some(b));
        }
    }
}

/// What `with_cleared` does to the addresses that the list holds.
pub proof fn lemma_with_cleared(s: Seq<Option<usize>>, pos: int, addr: usize)
    ensures
        with_cleared(s, pos, addr).len() == s.len(),
        forall|b: usize| b != addr ==> (#[trigger] holds(with_cleared(s, pos, addr), b) <==> holds(s, b)),
        holds(with_cleared(s, pos, addr), addr) ==> holds(s, addr),
        forall|p: int|
            0 <= p < s.len() && #[trigger] with_cleared(s, pos, addr)[p] is Some ==> with_cleared(
                s,
                pos,
                addr,
            )[p] == s[p],
{
    let t = with_cleared(s, pos, addr);
    assert forall|b: usize| b != addr implies (#[trigger] holds(t, b) <==> holds(s, b)) by {
        if holds(t, b) {
            let i = choose|i: int| 0 <= i < t.len() && t[i] == Some(b);
            assert(s[i] == Some(b));
        }
        if holds(s, b) {
            let i = choose|i: int| 0 <= i < s.len() && s[i] == Some(b);
            assert(t[i] == Some(b));
        }
    }
    if holds(t, addr) {
        let i = choose|i: int| 0 <= i < t.len() && t[i] == Some(addr);
        assert(s[i] == Some(addr));
    }
}

/// One slot of the accessor list.
pub struct Node {
    value: Option<usize>,
}

impl Node {
    /// What the slot holds.
    pub closed spec fn view(&self) -> Option<usize> {
        self.value
    }

    /// A slot that holds `value`.
    pub fn new(value: Option<usize>) -> (node: Self)
        ensures
            node@ == value,
    {
        Node { value }
    }

    /// What the slot holds now.
    pub fn load(&self) -> (value: Option<usize>)
        ensures
            value == self@,
    {
        self.value
    }

    /// Occupies the slot with `addr` if it is empty.
    pub fn occupy(&mut self, addr: usize) -> (taken: bool)
        ensures
            taken == old(self)@ is None,
            final(self)@ == if taken { Some(addr) } else { old(self)@ },
    {
        if self.value.is_none() {
            self.value = Some(addr);
            true
        } else {
            false
        }
    }

    /// Clears the slot if it holds `current`.
    pub fn clear(&mut self, current: usize) -> (cleared: bool)
        ensures
            cleared == (old(self)@ == Some(current)),
            final(self)@ == if cleared { None } else { old(self)@ },
    {
        match self.value {
            Some(addr) => {
                if addr == current {
                    self.value = None;
                    true
                } else {
                    false
                }
            },
            None => false,
        }
    }

    /// Clears the slot, whatever it holds.
    pub fn clear_unchecked(&mut self)
        ensures
            final(self)@ is None,
    {
        self.value = None;
    }
}

/// The chain of slots, head first.
pub struct AccessorList {
    nodes: Vec<Node>,
}

impl AccessorList {
    /// The slots in chain order.
    pub closed spec fn view(&self) -> Seq<Option<usize>> {
        Seq::new(self.nodes@.len(), |i: int| self.nodes@[i]@)
    }

    /// A chain of one slot, which holds `value`.
    pub fn new(value: Option<usize>) -> (list: Self)
        ensures
            list@ == seq![value],
    {
        let mut nodes: Vec<Node> = Vec::new();
        nodes.push(Node::new(value));
        let list = AccessorList { nodes };
        assert(list@ =~= seq![value]);
        list
    }

    /// Stores `addr` in the first empty slot, or in a new slot at the end of
    /// the chain. Returns the position of the slot taken.
    pub fn insert(&mut self, addr: usize) -> (pos: usize)
        ensures
            pos == first_free(old(self)@),
            final(self)@ == with_inserted(old(self)@, addr),
            pos < final(self)@.len(),
            final(self)@[pos as int] == Some(addr),
    {
        let mut i: usize = 0;
        while i < self.nodes.len()
            invariant
                i <= self.nodes.len(),
                self.nodes == old(self).nodes,
                forall|j: int| 0 <= j < i ==> self@[j] is Some,
            decreases self.nodes.len() - i,
        {
            assert(self@[i as int] == self.nodes@[i as int]@);
            if self.nodes[i].load().is_none() {
                proof {
                    lemma_first_free_is(self@, i as int);
                }
                let taken = self.nodes[i].occupy(addr);
                assert(self@ =~= with_inserted(old(self)@, addr));
                return i;
            }
            i += 1;
        }
        proof {
            lemma_first_free_is(self@, i as int);
        }
        self.nodes.push(Node::new(Some(addr)));
        assert(self@ =~= with_inserted(old(self)@, addr));
        i
    }

    /// Whether the slot at `pos` holds `addr`.
    pub fn holds_at(&self, pos: usize, addr: usize) -> (held: bool)
        ensures
            held == (pos < self@.len() && self@[pos as int] == Some(addr)),
    {
        if pos < self.nodes.len() {
            assert(self@[pos as int] == self.nodes@[pos as int]@);
            self.nodes[pos].load() == Some(addr)
        } else {
            false
        }
    }

    /// Clears the slot at `pos` if it holds `current`.
    pub fn clear(&mut self, pos: usize, current: usize) -> (cleared: bool)
        ensures
            cleared == (pos < old(self)@.len() && old(self)@[pos as int] == Some(current)),
            final(self)@ == with_cleared(old(self)@, pos as int, current),
    {
        if pos < self.nodes.len() {
            let cleared = self.nodes[pos].clear(current);
            assert(self@ =~= with_cleared(old(self)@, pos as int, current));
            cleared
        } else {
            false
        }
    }

    /// Whether some slot holds `addr`.
    pub fn contains(&self, addr: usize) -> (found: bool)
        ensures
            found == holds(self@, addr),
    {
        let mut i: usize = 0;
        while i < self.nodes.len()
            invariant
                i <= self.nodes.len(),
                forall|j: int| 0 <= j < i ==> self@[j] != Some(addr),
            decreases self.nodes.len() - i,
        {
            assert(self@[i as int] == self.nodes@[i as int]@);
            if self.nodes[i].load() == Some(addr) {
                return true;
            }
            i += 1;
        }
        false
    }

    /// Whether every slot is empty.
    pub fn is_all_empty(&self) -> (empty: bool)
        ensures
            empty == all_empty(self@),
    {
        let mut i: usize = 0;
        while i < self.nodes.len()
            invariant
                i <= self.nodes.len(),
                forall|j: int| 0 <= j < i ==> self@[j] is None,
            decreases self.nodes.len() - i,
        {
            assert(self@[i as int] == self.nodes@[i as int]@);
            if self.nodes[i].load().is_some() {
                return false;
            }
            i += 1;
        }
        true
    }

    /// Looks for `addr` and, in the same pass, finds out whether the list is
    /// empty.
    ///
    /// `None`: no slot is occupied. `Some(false)`: some slot is occupied, none
    /// by `addr`. `Some(true)`: a slot holds `addr`.
    pub fn contains_or_empty(&self, addr: usize) -> (found: Option<bool>)
        ensures
            found == if holds(self@, addr) {
                Some(true)
            } else if all_empty(self@) {
                None
            } else {
                Some(false)
            },
    {
        let mut is_empty = true;
        let mut i: usize = 0;
        while i < self.nodes.len()
            invariant
                i <= self.nodes.len(),
                is_empty == (forall|j: int| 0 <= j < i ==> self@[j] is None),
                forall|j: int| 0 <= j < i ==> self@[j] != Some(addr),
            decreases self.nodes.len() - i,
        {
            let value = self.nodes[i].load();
            assert(self@[i as int] == value);
            if is_empty {
                is_empty = value.is_none();
            }
            if !is_empty && value == Some(addr) {
                return Some(true);
            }
            i += 1;
        }
        if is_empty {
            return None;
        }
        Some(false)
    }

    /// Gives up every slot of the chain.
    pub fn free_list(&mut self)
        ensures
            final(self)@.len() == 0,
    {
        self.nodes = Vec::new();
    }
}

} // verus!
