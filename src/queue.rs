//! The queue of renames of a batch, with the cursor that separates the
//! renames carried out from those still to come.
use crate::conflict::{accepts, pairs_view, rejection, validate};
use crate::error::Error;
use crate::mapping::Mapping;
use crate::resolve::{resolve, resolves, steps, string_views};
use vstd::prelude::*;
use vstd::slice::slice_subrange;

verus! {

/// The rename that comes next when the queue `q` runs forward (the first
/// pending one), or backward (the last one that ran, turned around).
pub open spec fn next_of(q: (Seq<(Seq<char>, Seq<char>)>, nat), forward: bool) -> Option<
    (Seq<char>, Seq<char>),
> {
    if forward {
        if q.1 < q.0.len() {
            Some(q.0[q.1 as int])
        } else {
            None
        }
    } else {
        if 0 < q.1 <= q.0.len() {
            Some((q.0[q.1 - 1].1, q.0[q.1 - 1].0))
        } else {
            None
        }
    }
}

/// The renames of a batch, in the order in which they run, and how many of
/// them have run.
#[derive(Debug)]
pub struct RenameQueue {
    queue: Vec<Mapping>,
    renamed: usize,
}

impl View for RenameQueue {
    type V = (Seq<(Seq<char>, Seq<char>)>, nat);

    /// The steps of the queue and the number of those that have run.
    closed spec fn view(&self) -> (Seq<(Seq<char>, Seq<char>)>, nat) {
        (steps(self.queue@), self.renamed as nat)
    }
}

impl RenameQueue {
    #[verifier::type_invariant]
    spec fn cursor_in_range(self) -> bool {
        self.renamed <= self.queue.len()
    }

    /// The cursor never passes the end of the queue.
    pub fn check_cursor(&self)
        ensures
            self@.1 <= self@.0.len(),
    {
        proof {
            use_type_invariant(self);
        }
    }

    /// Checks the batch `pairs` and orders its renames; nothing has run yet.
    /// `occupied` lists paths known to exist: the temporary paths that break
    /// cycles avoid them.
    pub fn new(pairs: &Vec<(String, String)>, occupied: &Vec<String>) -> (r: Result<RenameQueue, Error>)
        ensures
            match r {
                Ok(q) => {
                    &&& accepts(pairs_view(pairs@))
                    &&& q@.1 == 0
                    &&& resolves(pairs_view(pairs@), string_views(occupied@), q@.0)
                },
                Err(e) => rejection(pairs_view(pairs@), e),
            },
    {
        match validate(pairs) {
            Ok(g) => {
                let queue = resolve(&g, occupied, Ghost(pairs_view(pairs@)));
                Ok(RenameQueue { queue, renamed: 0 })
            },
            Err(e) => Err(e),
        }
    }

    /// A queue of which the renames `renamed` have run and the renames
    /// `pending` are still to come, in that order.
    pub fn from_parts(renamed: Vec<Mapping>, pending: Vec<Mapping>) -> (q: RenameQueue)
        ensures
            q@.0 == steps(renamed@) + steps(pending@),
            q@.1 == renamed@.len(),
    {
        let mut queue = renamed;
        let mut rest = pending;
        let count = queue.len();
        queue.append(&mut rest);
        assert(steps(queue@) =~= steps(renamed@) + steps(pending@));
        RenameQueue { queue, renamed: count }
    }

    /// The rename that comes next in the given direction.
    pub fn next(&self, forward: bool) -> (r: Option<Mapping>)
        ensures
            r is Some == next_of(self@, forward) is Some,
            r is Some ==> r->0@ == next_of(self@, forward)->0,
    {
        proof {
            use_type_invariant(self);
        }
        if forward {
            if self.renamed < self.queue.len() {
                Some(self.queue[self.renamed].duplicate())
            } else {
                None
            }
        } else {
            if self.renamed > 0 {
                Some(self.queue[self.renamed - 1].invert())
            } else {
                None
            }
        }
    }

    /// Records that the next rename in the given direction has run: the
    /// cursor moves one step that way.
    pub(crate) fn moved(&mut self, forward: bool)
        requires
            next_of(old(self)@, forward) is Some,
        ensures
            final(self)@.0 == old(self)@.0,
            forward ==> final(self)@.1 == old(self)@.1 + 1,
            !forward ==> final(self)@.1 == old(self)@.1 - 1,
    {
        assert(steps(self.queue@).len() == self.queue@.len());
        assert(self@.0 == steps(self.queue@) && self@.1 == self.renamed);
        if forward {
            assert(next_of(self@, true) is Some);
            assert(self.renamed < self.queue.len());
            self.renamed = self.renamed + 1;
        } else {
            self.renamed = self.renamed - 1;
        }
    }

    /// The renames that have run.
    pub fn renamed(&self) -> (r: &[Mapping])
        ensures
            steps(r@) == self@.0.take(self@.1 as int),
    {
        proof {
            use_type_invariant(self);
        }
        let r = slice_subrange(self.queue.as_slice(), 0, self.renamed);
        assert(steps(r@) =~= self@.0.take(self@.1 as int));
        r
    }

    /// The renames still to come.
    pub fn pending(&self) -> (r: &[Mapping])
        ensures
            steps(r@) == self@.0.skip(self@.1 as int),
    {
        proof {
            use_type_invariant(self);
        }
        let r = slice_subrange(self.queue.as_slice(), self.renamed, self.queue.len());
        assert(steps(r@) =~= self@.0.skip(self@.1 as int));
        r
    }
}

} // verus!
