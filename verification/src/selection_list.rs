use vstd::prelude::*;

verus! {

/// An ordered sequence of items plus a single movable cursor.
///
/// The cursor, when present, always indexes an item.  `next` and
/// `previous` move the cursor one position with wraparound; they must
/// not be called on an empty list.  Replacement is always whole-list:
/// there is no insertion or removal operation.
pub struct SelectionList<T> {
    pub selection: Option<usize>,
    pub items: Vec<T>,
}

/// Cursor index after one forward step with wraparound.
pub open spec fn step_forward(sel: Option<usize>, len: int) -> int {
    match sel {
        Some(i) => if i + 1 >= len { 0 } else { i + 1 },
        None => 0,
    }
}

/// Cursor index after one backward step with wraparound.
pub open spec fn step_back(sel: Option<usize>, len: int) -> int {
    match sel {
        Some(i) => if i == 0 { len - 1 } else { i - 1 },
        None => 0,
    }
}

/// One forward step on a bare cursor index.
pub open spec fn advance(i: int, len: int) -> int {
    if i + 1 >= len { 0 } else { i + 1 }
}

/// One backward step on a bare cursor index.
pub open spec fn retreat(i: int, len: int) -> int {
    if i == 0 { len - 1 } else { i - 1 }
}

/// `k` forward steps on a bare cursor index.
pub open spec fn advance_many(i: int, len: int, k: nat) -> int
    decreases k,
{
    if k == 0 { i } else { advance(advance_many(i, len, (k - 1) as nat), len) }
}

/// `k` backward steps on a bare cursor index.
pub open spec fn retreat_many(i: int, len: int, k: nat) -> int
    decreases k,
{
    if k == 0 { i } else { retreat(retreat_many(i, len, (k - 1) as nat), len) }
}

proof fn lemma_advance_many_mod(i: int, len: int, k: nat)
    requires
        0 <= i < len,
    ensures
        advance_many(i, len, k) == (i + k) % len,
    decreases k,
{
    if k == 0 {
        assert((i + 0) % len == i) by {
            vstd::arithmetic::div_mod::lemma_small_mod(i as nat, len as nat);
        }
    } else {
        lemma_advance_many_mod(i, len, (k - 1) as nat);
        let p = (i + (k - 1)) % len;
        assert(0 <= p < len);
        assert(advance_many(i, len, k) == advance(p, len));
        vstd::arithmetic::div_mod::lemma_add_mod_noop(i + (k - 1) as int, 1, len);
        if p + 1 >= len {
            assert(p == len - 1);
            if len == 1 {
                vstd::arithmetic::div_mod::lemma_small_mod(0nat, len as nat);
            } else {
                vstd::arithmetic::div_mod::lemma_small_mod(1nat, len as nat);
                vstd::arithmetic::div_mod::lemma_mod_self_0(len);
            }
        } else {
            vstd::arithmetic::div_mod::lemma_small_mod(1nat, len as nat);
            vstd::arithmetic::div_mod::lemma_small_mod((p + 1) as nat, len as nat);
        }
    }
}

proof fn lemma_retreat_many_mod(i: int, len: int, k: nat)
    requires
        0 <= i < len,
    ensures
        retreat_many(i, len, k) == (i + (len - 1) * k) % len,
    decreases k,
{
    if k == 0 {
        vstd::arithmetic::div_mod::lemma_small_mod(i as nat, len as nat);
    } else {
        lemma_retreat_many_mod(i, len, (k - 1) as nat);
        let p = (i + (len - 1) * (k - 1)) % len;
        assert(0 <= p < len);
        assert(retreat_many(i, len, k) == retreat(p, len));
        assert((len - 1) * k == (len - 1) * (k - 1) + (len - 1)) by (nonlinear_arith)
            requires
                k >= 1,
        ;
        vstd::arithmetic::div_mod::lemma_add_mod_noop(i + (len - 1) * (k - 1), len - 1, len);
        vstd::arithmetic::div_mod::lemma_small_mod((len - 1) as nat, len as nat);
        if p == 0 {
            vstd::arithmetic::div_mod::lemma_small_mod((len - 1) as nat, len as nat);
            assert(retreat(p, len) == len - 1);
            assert((p + (len - 1)) % len == len - 1);
        } else {
            assert(retreat(p, len) == p - 1);
            assert(p + (len - 1) == (p - 1) + len);
            vstd::arithmetic::div_mod::lemma_mod_add_multiples_vanish(p - 1, len);
            vstd::arithmetic::div_mod::lemma_small_mod((p - 1) as nat, len as nat);
        }
    }
}

/// Wraparound law, forward direction: starting from any valid cursor
/// position of a list of length `len`, `len` successive forward steps
/// return the cursor to where it began.
pub proof fn lemma_next_cycle(i: int, len: int)
    requires
        0 <= i < len,
    ensures
        advance_many(i, len, len as nat) == i,
{
    lemma_advance_many_mod(i, len, len as nat);
    vstd::arithmetic::div_mod::lemma_mod_add_multiples_vanish(i, len);
    vstd::arithmetic::div_mod::lemma_small_mod(i as nat, len as nat);
}

/// Wraparound law, backward direction: `len` successive backward steps
/// return the cursor of a length-`len` list to where it began.
pub proof fn lemma_previous_cycle(i: int, len: int)
    requires
        0 <= i < len,
    ensures
        retreat_many(i, len, len as nat) == i,
{
    lemma_retreat_many_mod(i, len, len as nat);
    assert(i + (len - 1) * len == i + (len - 1) * len);
    assert((len - 1) * len == len * (len - 1)) by {
        vstd::arithmetic::mul::lemma_mul_is_commutative(len - 1, len);
    }
    vstd::arithmetic::div_mod::lemma_mod_multiples_vanish(len - 1, i, len);
    vstd::arithmetic::div_mod::lemma_small_mod(i as nat, len as nat);
}

impl<T> SelectionList<T> {
    /// The cursor, when present, indexes an item.
    pub open spec fn wf(&self) -> bool {
        match self.selection {
            Some(i) => i < self.items@.len(),
            None => true,
        }
    }

    pub fn selection(&self) -> (r: Option<usize>)
        ensures
            r == self.selection,
    {
        self.selection
    }

    pub fn items(&self) -> (r: &Vec<T>)
        ensures
            r == &self.items,
    {
        &self.items
    }

    pub fn with_items(items: Vec<T>) -> (r: SelectionList<T>)
        ensures
            r.items == items,
            r.selection == (if items@.len() == 0 { None::<usize> } else { Some(0usize) }),
            r.wf(),
    {
        SelectionList {
            selection: if items.is_empty() { None } else { Some(0) },
            items,
        }
    }

    pub fn next(&mut self)
        requires
            old(self).wf(),
            old(self).items@.len() > 0,
        ensures
            final(self).items == old(self).items,
            final(self).selection == Some(
                step_forward(old(self).selection, old(self).items@.len() as int) as usize,
            ),
            final(self).wf(),
    {
        let i = match self.selection {
            Some(i) => {
                if i >= self.items.len() - 1 {
                    0
                } else {
                    i + 1
                }
            },
            None => 0,
        };
        self.selection = Some(i);
    }

    pub fn previous(&mut self)
        requires
            old(self).wf(),
            old(self).items@.len() > 0,
        ensures
            final(self).items == old(self).items,
            final(self).selection == Some(
                step_back(old(self).selection, old(self).items@.len() as int) as usize,
            ),
            final(self).wf(),
    {
        let i = match self.selection {
            Some(i) => {
                if i == 0 {
                    self.items.len() - 1
                } else {
                    i - 1
                }
            },
            None => 0,
        };
        self.selection = Some(i);
    }

    pub fn select(&mut self, selection: Option<usize>)
        ensures
            final(self).items == old(self).items,
            final(self).selection == (match selection {
                Some(s) => if s < old(self).items@.len() { Some(s) } else { None::<usize> },
                None => None::<usize>,
            }),
            final(self).wf(),
    {
        if let Some(s) = selection {
            if s < self.items.len() {
                self.selection = selection;
            } else {
                self.selection = None;
            }
        } else {
            self.selection = None;
        }
    }

    pub fn unselect(&mut self)
        ensures
            final(self).items == old(self).items,
            final(self).selection is None,
            final(self).wf(),
    {
        self.selection = None;
    }
}

} // verus!
