use vstd::prelude::*;

verus! {

/// A change of the meshed area waiting to be applied: shapes to add or to subtract.
#[derive(Debug, Clone)]
pub enum PolygonMeshSetOperation<S> {
    /// Add the shapes to the meshed area.
    Add(S),
    /// Remove the shapes from the meshed area.
    Subtract(S),
}

/// Both operations add, or both subtract.
pub open spec fn same_kind<S>(a: PolygonMeshSetOperation<S>, b: PolygonMeshSetOperation<S>) -> bool {
    (a is Add && b is Add) || (a is Subtract && b is Subtract)
}

/// No two consecutive operations are of the same kind.
pub open spec fn alternating<S>(ops: Seq<PolygonMeshSetOperation<S>>) -> bool {
    forall|k: int| 0 <= k < ops.len() - 1 ==> !same_kind(#[trigger] ops[k], ops[k + 1])
}

/// The queue of changes of the meshed area, in the order they will be applied. Consecutive
/// changes of the same kind are merged as they are queued.
#[derive(Debug, Clone)]
pub struct OperationQueue<S> {
    operations: Vec<PolygonMeshSetOperation<S>>,
}

impl<S> OperationQueue<S> {
    /// The queued operations, first to apply first.
    pub closed spec fn operations(&self) -> Seq<PolygonMeshSetOperation<S>> {
        self.operations@
    }

    /// An empty queue.
    pub fn new() -> (q: Self)
        ensures
            q.operations() == Seq::<PolygonMeshSetOperation<S>>::empty(),
    {
        OperationQueue { operations: Vec::new() }
    }

    /// Whether nothing is queued.
    pub fn is_empty(&self) -> (r: bool)
        ensures
            r == (self.operations().len() == 0),
    {
        self.operations.len() == 0
    }

    /// Number of queued operations.
    pub fn len(&self) -> (r: usize)
        ensures
            r == self.operations().len(),
    {
        self.operations.len()
    }

    /// Queue adding `shape`: merged with `union` into the last operation when that one adds too,
    /// appended otherwise.
    pub fn queue_add<F: Fn(&S, &S) -> S>(&mut self, shape: S, union: F)
        requires
            forall|a: &S, b: &S| #[trigger] union.requires((a, b)),
        ensures
            alternating(old(self).operations()) ==> alternating(final(self).operations()),
            match old(self).operations().last() {
                PolygonMeshSetOperation::Add(existing) if old(self).operations().len() > 0 => {
                    &&& final(self).operations().len() == old(self).operations().len()
                    &&& final(self).operations().drop_last() == old(self).operations().drop_last()
                    &&& final(self).operations().last() matches PolygonMeshSetOperation::Add(merged)
                        && union.ensures((&existing, &shape), merged)
                },
                _ => final(self).operations() == old(self).operations().push(PolygonMeshSetOperation::Add(shape)),
            },
    {
        self.queue(shape, true, union)
    }

    /// Queue subtracting `shape`: merged with `union` into the last operation when that one
    /// subtracts too, appended otherwise.
    pub fn queue_subtract<F: Fn(&S, &S) -> S>(&mut self, shape: S, union: F)
        requires
            forall|a: &S, b: &S| #[trigger] union.requires((a, b)),
        ensures
            alternating(old(self).operations()) ==> alternating(final(self).operations()),
            match old(self).operations().last() {
                PolygonMeshSetOperation::Subtract(existing) if old(self).operations().len() > 0 => {
                    &&& final(self).operations().len() == old(self).operations().len()
                    &&& final(self).operations().drop_last() == old(self).operations().drop_last()
                    &&& final(self).operations().last() matches PolygonMeshSetOperation::Subtract(merged)
                        && union.ensures((&existing, &shape), merged)
                },
                _ => final(self).operations() == old(self).operations().push(
                    PolygonMeshSetOperation::Subtract(shape),
                ),
            },
    {
        self.queue(shape, false, union)
    }

    fn queue<F: Fn(&S, &S) -> S>(&mut self, shape: S, add: bool, union: F)
        requires
            forall|a: &S, b: &S| #[trigger] union.requires((a, b)),
        ensures
            alternating(old(self).operations()) ==> alternating(final(self).operations()),
            match old(self).operations().last() {
                PolygonMeshSetOperation::Add(existing) if add && old(self).operations().len() > 0 => {
                    &&& final(self).operations().len() == old(self).operations().len()
                    &&& final(self).operations().drop_last() == old(self).operations().drop_last()
                    &&& final(self).operations().last() matches PolygonMeshSetOperation::Add(merged)
                        && union.ensures((&existing, &shape), merged)
                },
                PolygonMeshSetOperation::Subtract(existing) if !add && old(self).operations().len() > 0 => {
                    &&& final(self).operations().len() == old(self).operations().len()
                    &&& final(self).operations().drop_last() == old(self).operations().drop_last()
                    &&& final(self).operations().last() matches PolygonMeshSetOperation::Subtract(merged)
                        && union.ensures((&existing, &shape), merged)
                },
                _ => final(self).operations() == old(self).operations().push(
                    if add {
                        PolygonMeshSetOperation::Add(shape)
                    } else {
                        PolygonMeshSetOperation::Subtract(shape)
                    },
                ),
            },
    {
        let ghost before = self.operations@;
        match self.operations.pop() {
            Some(PolygonMeshSetOperation::Add(existing)) if add => {
                let merged = union(&existing, &shape);
                self.operations.push(PolygonMeshSetOperation::Add(merged));
                proof {
                    assert(self.operations@.drop_last() =~= before.drop_last());
                    assert forall|k: int| 0 <= k < self.operations@.len() - 1 && alternating(before) implies !same_kind(
                        #[trigger] self.operations@[k],
                        self.operations@[k + 1],
                    ) by {
                        assert(self.operations@[k] == before[k]);
                        assert(same_kind(before[k + 1], self.operations@[k + 1]));
                        assert(!same_kind(before[k], before[k + 1]));
                    }
                }
            },
            Some(PolygonMeshSetOperation::Subtract(existing)) if !add => {
                let merged = union(&existing, &shape);
                self.operations.push(PolygonMeshSetOperation::Subtract(merged));
                proof {
                    assert(self.operations@.drop_last() =~= before.drop_last());
                    assert forall|k: int| 0 <= k < self.operations@.len() - 1 && alternating(before) implies !same_kind(
                        #[trigger] self.operations@[k],
                        self.operations@[k + 1],
                    ) by {
                        assert(self.operations@[k] == before[k]);
                        assert(same_kind(before[k + 1], self.operations@[k + 1]));
                        assert(!same_kind(before[k], before[k + 1]));
                    }
                }
            },
            Some(last) => {
                self.operations.push(last);
                let op = if add {
                    PolygonMeshSetOperation::Add(shape)
                } else {
                    PolygonMeshSetOperation::Subtract(shape)
                };
                self.operations.push(op);
                proof {
                    assert(self.operations@ =~= before.push(op));
                    assert forall|k: int| 0 <= k < self.operations@.len() - 1 && alternating(before) implies !same_kind(
                        #[trigger] self.operations@[k],
                        self.operations@[k + 1],
                    ) by {
                        if k < before.len() - 1 {
                            assert(self.operations@[k] == before[k]);
                            assert(self.operations@[k + 1] == before[k + 1]);
                        }
                    }
                }
            },
            None => {
                let op = if add {
                    PolygonMeshSetOperation::Add(shape)
                } else {
                    PolygonMeshSetOperation::Subtract(shape)
                };
                self.operations.push(op);
                proof {
                    assert(self.operations@ =~= before.push(op));
                }
            },
        }
    }

    /// Take all queued operations, first to apply first, leaving the queue empty.
    pub fn take_operations(&mut self) -> (ops: Vec<PolygonMeshSetOperation<S>>)
        ensures
            ops@ == old(self).operations(),
            final(self).operations() == Seq::<PolygonMeshSetOperation<S>>::empty(),
    {
        let mut ops = Vec::new();
        std::mem::swap(&mut ops, &mut self.operations);
        ops
    }
}

} // verus!
