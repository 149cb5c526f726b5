use vstd::prelude::*;

verus! {

/// A growable sequence with a movable start: the part from `offset` on is the
/// current scope. Nested users open a scope with `saved`, work on the items
/// they appended, and close it with `restore`.
pub struct List<T> {
    items: Vec<T>,
    offset: usize,
}

impl<T> List<T> {
    /// Every item, the enclosing scopes' included.
    pub closed spec fn backing(&self) -> Seq<T> {
        self.items@
    }

    /// Where the current scope starts.
    pub closed spec fn start(&self) -> nat {
        self.offset as nat
    }

    pub open spec fn wf(&self) -> bool {
        self.start() <= self.backing().len()
    }

    /// The items of the current scope.
    pub open spec fn scope(&self) -> Seq<T> {
        self.backing().subrange(self.start() as int, self.backing().len() as int)
    }

    pub fn new(items: Vec<T>) -> (r: Self)
        ensures
            r.wf(),
            r.backing() == items@,
            r.start() == 0,
    {
        List { items, offset: 0 }
    }

    /// The number of items in the current scope.
    pub fn len(&self) -> (r: usize)
        requires
            self.wf(),
        ensures
            r == self.scope().len(),
    {
        self.items.len() - self.offset
    }

    pub fn is_empty(&self) -> (r: bool)
        requires
            self.wf(),
        ensures
            r == (self.scope().len() == 0),
    {
        self.len() == 0
    }

    pub fn push(&mut self, item: T)
        requires
            old(self).wf(),
        ensures
            final(self).wf(),
            final(self).backing() == old(self).backing().push(item),
            final(self).start() == old(self).start(),
    {
        self.items.push(item);
    }

    /// The item at `index` of the current scope.
    pub fn get(&self, index: usize) -> (r: &T)
        requires
            self.wf(),
            index < self.scope().len(),
        ensures
            *r == self.scope()[index as int],
    {
        let _n = self.items.len();
        &self.items[self.offset + index]
    }

    /// Removes the items `start..end` of the current scope and returns them in
    /// order.
    pub fn drain(&mut self, start: usize, end: usize) -> (r: Vec<T>)
        requires
            old(self).wf(),
            start <= end <= old(self).scope().len(),
        ensures
            final(self).wf(),
            final(self).start() == old(self).start(),
            r@ == old(self).scope().subrange(start as int, end as int),
            final(self).backing() == old(self).backing().subrange(0, old(self).start() + start)
                + old(self).backing().subrange(
                old(self).start() + end,
                old(self).backing().len() as int,
            ),
    {
        let ghost b = self.items@;
        let ghost o = self.offset as int;
        let mut tail: Vec<T> = Vec::new();
        while self.items.len() > self.offset + end
            invariant
                self.offset == o,
                o + end <= self.items@.len() <= b.len(),
                self.items@ == b.subrange(0, self.items@.len() as int),
                tail@.len() == b.len() - self.items@.len(),
                forall|k: int|
                    0 <= k < tail@.len() ==> #[trigger] tail@[k] == b[b.len() - 1 - k],
            decreases self.items@.len(),
        {
            let x = self.items.pop().unwrap();
            tail.push(x);
        }
        let mut removed: Vec<T> = Vec::new();
        while self.items.len() > self.offset + start
            invariant
                self.offset == o,
                o + start <= self.items@.len() <= o + end,
                self.items@ == b.subrange(0, self.items@.len() as int),
                tail@.len() == b.len() - o - end,
                forall|k: int|
                    0 <= k < tail@.len() ==> #[trigger] tail@[k] == b[b.len() - 1 - k],
                removed@.len() == o + end - self.items@.len(),
                forall|k: int|
                    0 <= k < removed@.len() ==> #[trigger] removed@[k] == b[o + end - 1 - k],
            decreases self.items@.len(),
        {
            let x = self.items.pop().unwrap();
            removed.push(x);
        }
        let mut r: Vec<T> = Vec::new();
        while removed.len() > 0
            invariant
                removed@.len() + r@.len() == end - start,
                forall|k: int|
                    0 <= k < removed@.len() ==> #[trigger] removed@[k] == b[o + end - 1 - k],
                forall|k: int| 0 <= k < r@.len() ==> #[trigger] r@[k] == b[o + start + k],
            decreases removed@.len(),
        {
            let x = removed.pop().unwrap();
            r.push(x);
        }
        while tail.len() > 0
            invariant
                self.offset == o,
                self.items@.len() >= o + start,
                self.items@.subrange(0, o + start) == b.subrange(0, o + start),
                self.items@.len() - o - start + tail@.len() == b.len() - o - end,
                forall|k: int|
                    0 <= k < tail@.len() ==> #[trigger] tail@[k] == b[b.len() - 1 - k],
                forall|k: int|
                    o + start <= k < self.items@.len() ==> #[trigger] self.items@[k] == b[k - start
                        + end],
            decreases tail@.len(),
        {
            let x = tail.pop().unwrap();
            self.items.push(x);
            assert(self.items@.subrange(0, o + start) == b.subrange(0, o + start));
        }
        assert(r@ =~= b.subrange(o, b.len() as int).subrange(start as int, end as int));
        assert(self.items@ =~= b.subrange(0, o + start) + b.subrange(o + end, b.len() as int));
        r
    }

    /// Replaces each item `x` of the current scope by `f(x)`, in place.
    pub fn map_in_place<F: Fn(T) -> T>(&mut self, f: F)
        requires
            old(self).wf(),
            forall|x: T| #[trigger] f.requires((x,)),
        ensures
            final(self).wf(),
            final(self).start() == old(self).start(),
            final(self).backing().len() == old(self).backing().len(),
            forall|k: int|
                0 <= k < old(self).start() ==> #[trigger] final(self).backing()[k] == old(
                    self,
                ).backing()[k],
            forall|k: int|
                old(self).start() <= k < old(self).backing().len() ==> f.ensures(
                    (old(self).backing()[k],),
                    #[trigger] final(self).backing()[k],
                ),
    {
        let ghost b = self.items@;
        let ghost o = self.offset as int;
        let mut tail: Vec<T> = Vec::new();
        while self.items.len() > self.offset
            invariant
                self.offset == o,
                o <= self.items@.len() <= b.len(),
                self.items@ == b.subrange(0, self.items@.len() as int),
                tail@.len() == b.len() - self.items@.len(),
                forall|k: int|
                    0 <= k < tail@.len() ==> #[trigger] tail@[k] == b[b.len() - 1 - k],
            decreases self.items@.len(),
        {
            let x = self.items.pop().unwrap();
            tail.push(x);
        }
        while tail.len() > 0
            invariant
                self.offset == o,
                forall|x: T| #[trigger] f.requires((x,)),
                self.items@.len() >= o,
                self.items@.len() + tail@.len() == b.len(),
                forall|k: int| 0 <= k < o ==> #[trigger] self.items@[k] == b[k],
                forall|k: int|
                    0 <= k < tail@.len() ==> #[trigger] tail@[k] == b[b.len() - 1 - k],
                forall|k: int|
                    o <= k < self.items@.len() ==> f.ensures((b[k],), #[trigger] self.items@[k]),
            decreases tail@.len(),
        {
            let x = tail.pop().unwrap();
            let y = f(x);
            self.items.push(y);
        }
    }

    /// Opens a nested scope that starts after the current last item, and
    /// returns where the enclosing scope starts, to be handed to `restore`.
    pub fn saved(&mut self) -> (prev: usize)
        requires
            old(self).wf(),
        ensures
            final(self).wf(),
            final(self).backing() == old(self).backing(),
            final(self).start() == old(self).backing().len(),
            prev == old(self).start(),
    {
        let prev = self.offset;
        self.offset = self.items.len();
        prev
    }

    /// Closes a nested scope: the current scope starts at `offset` again.
    pub fn restore(&mut self, offset: usize)
        requires
            old(self).wf(),
            offset <= old(self).start(),
        ensures
            final(self).wf(),
            final(self).backing() == old(self).backing(),
            final(self).start() == offset,
    {
        self.offset = offset;
    }

    /// Every item, the enclosing scopes' included.
    pub fn into_vec(self) -> (r: Vec<T>)
        ensures
            r@ == self.backing(),
    {
        self.items
    }
}

} // verus!
