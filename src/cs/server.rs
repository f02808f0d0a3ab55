//! The server: a linear history of committed states.
use vstd::prelude::*;
use crate::Operation;
use crate::cs::{Id, State};

verus! {

/// The composition of `acc` with each of `diffs` in turn; `None` where one of
/// them does not follow what comes before it.
pub open spec fn fold_patch<O: Operation>(acc: O::Model, diffs: Seq<O::Model>) -> Option<O::Model>
    decreases diffs.len(),
{
    if diffs.len() == 0 {
        Some(acc)
    } else if !O::composable(acc, diffs[0]) {
        None
    } else {
        fold_patch::<O>(O::compose_model(acc, diffs[0]), diffs.drop_first())
    }
}

/// The message of the error for an id that the history does not hold.
pub open spec fn index_error() -> Seq<char> {
    "index out of range"@
}

/// The message of the error for stored edits that do not follow each other.
pub open spec fn history_error() -> Seq<char> {
    "the history does not compose"@
}

/// The message of the error for an edit that does not line up with the
/// server's state.
pub open spec fn fit_error() -> Seq<char> {
    "the operation does not fit the server's state"@
}

/// The history of a server: committed states, the first one empty.
pub struct Server<O: Operation> {
    history: Vec<State<O>>,
}

impl<O: Operation> Server<O> {
    /// At least the initial state is there, each state's id is its index, and
    /// every stored edit is valid.
    pub closed spec fn inv(&self) -> bool {
        &&& self.history@.len() >= 1
        &&& forall|i: int| 0 <= i < self.history@.len() ==> (#[trigger] self.history@[i]).id.0 == i
        &&& forall|i: int| 0 <= i < self.history@.len() ==> (#[trigger] self.history@[i]).diff.op_valid()
    }

    /// The history is never empty, and each state's id is its index.
    pub proof fn lemma_inv(&self)
        requires
            self.inv(),
        ensures
            self.states().len() >= 1,
            forall|i: int| 0 <= i < self.states().len() ==> (#[trigger] self.states()[i]).id.0 == i,
    {
    }

    /// The committed states, in order.
    pub closed spec fn states(&self) -> Seq<State<O>> {
        self.history@
    }

    /// The models of the stored edits, in order.
    pub open spec fn diffs(&self) -> Seq<O::Model> {
        self.states().map_values(|s: State<O>| s.diff.op_model())
    }

    /// What `get_patch` composes for the state `since`, where it fits.
    pub open spec fn patch_since(&self, since: int) -> Option<O::Model> {
        fold_patch::<O>(
            O::nop_model(O::target_model(&self.states()[since].content)),
            self.diffs().subrange(since + 1, self.states().len() as int),
        )
    }

    pub fn new() -> (r: Server<O>)
        ensures
            r.inv(),
            r.states().len() == 1,
            r.states()[0].parent == Id(0),
            r.states()[0].id == Id(0),
            r.states()[0].diff.op_model() == O::empty_model(),
            O::target_model(&r.states()[0].content) == O::empty_content(),
    {
        let initial = State { parent: Id(0), id: Id(0), diff: O::empty(), content: O::empty_target() };
        let mut history: Vec<State<O>> = Vec::new();
        history.push(initial);
        Server { history }
    }

    /// The latest committed state.
    pub fn current_state(&self) -> (r: &State<O>)
        requires
            self.inv(),
        ensures
            *r == self.states().last(),
            r.id.0 == self.states().len() - 1,
    {
        &self.history[self.history.len() - 1]
    }

    /// The id of the latest state, and the composition of every edit committed
    /// after the state `since_id`.
    pub fn get_patch(&self, since_id: &Id) -> (r: Result<(Id, O), String>)
        requires
            self.inv(),
        ensures
            r is Ok <==> since_id.0 < self.states().len() && self.patch_since(since_id.0 as int) is Some,
            r matches Ok((id, op)) ==> id.0 == self.states().len() - 1 && op.op_valid() && Some(op.op_model())
                == self.patch_since(since_id.0 as int),
            since_id.0 >= self.states().len() ==> (r matches Err(e) && e@ == index_error()),
            since_id.0 < self.states().len() && self.patch_since(since_id.0 as int) is None ==> (r matches Err(e)
                && e@ == history_error()),
    {
        let n = self.history.len();
        if n <= since_id.0 {
            return Err(String::from_str("index out of range"));
        }
        let start = since_id.0;
        let mut op = O::nop(&self.history[start].content);
        let mut i: usize = start + 1;
        let ghost ds = self.diffs();
        while i < n
            invariant
                self.inv(),
                n == self.states().len(),
                ds == self.diffs(),
                start < i <= n,
                start == since_id.0,
                op.op_valid(),
                fold_patch::<O>(op.op_model(), ds.subrange(i as int, n as int)) == self.patch_since(start as int),
            decreases n - i,
        {
            proof {
                assert(ds.subrange(i as int, n as int)[0] == self.history@[i as int].diff.op_model());
                assert(ds.subrange(i as int, n as int).drop_first() =~= ds.subrange(i + 1, n as int));
            }
            if !op.composes_with(&self.history[i].diff) {
                assert(fold_patch::<O>(op.op_model(), ds.subrange(i as int, n as int)) is None);
                assert(self.patch_since(start as int) is None);
                return Err(String::from_str("the history does not compose"));
            }
            let d = self.history[i].diff.copy_op();
            op = op.compose(d);
            i = i + 1;
        }
        proof {
            assert(ds.subrange(n as int, n as int) =~= Seq::<O::Model>::empty());
            assert(fold_patch::<O>(op.op_model(), ds.subrange(n as int, n as int)) == Some(op.op_model()));
        }
        Ok((Id(n - 1), op))
    }

    /// The edits that `modify` makes of `op` sent against the state `parent`:
    /// the one to store, and the one for the client.
    pub open spec fn rebased(&self, parent: Id, op: O::Model) -> (O::Model, O::Model) {
        O::transform_model(op, self.patch_since(parent.0 as int)->0)
    }

    /// The content of the state that `modify` commits for `op` sent against
    /// the state `parent`.
    pub open spec fn committed_content(&self, parent: Id, op: O::Model) -> O::Content {
        O::apply_model(
            O::compose_model(self.patch_since(parent.0 as int)->0, self.rebased(parent, op).0),
            O::target_model(&self.states()[parent.0 as int].content),
        )
    }

    /// `op` sent against the state `parent` can be committed: the state is
    /// there, its patch composes, and `op` lines up with it.
    pub open spec fn accepts(&self, parent: Id, op: O::Model) -> bool {
        &&& parent.0 < self.states().len()
        &&& self.patch_since(parent.0 as int) is Some
        &&& O::transformable(op, self.patch_since(parent.0 as int)->0)
        &&& O::composable(self.patch_since(parent.0 as int)->0, self.rebased(parent, op).0)
        &&& O::fits(
            O::compose_model(self.patch_since(parent.0 as int)->0, self.rebased(parent, op).0),
            O::target_model(&self.states()[parent.0 as int].content),
        )
    }

    /// Commits `operation`, written against the state `parent`: it is
    /// transformed against everything committed since, the server's side is
    /// stored as a new state, and the client's side is returned with the new id.
    pub fn modify(&mut self, parent: Id, operation: O) -> (r: Result<(Id, O), String>)
        requires
            old(self).inv(),
            operation.op_valid(),
        ensures
            final(self).inv(),
            r is Ok <==> old(self).accepts(parent, operation.op_model()),
            r is Err ==> final(self).states() == old(self).states(),
            r matches Ok((id, cd)) ==> id.0 == old(self).states().len() && cd.op_valid()
                && cd.op_model() == old(self).rebased(parent, operation.op_model()).1,
            r is Ok ==> final(self).states().len() == old(self).states().len() + 1,
            r is Ok ==> final(self).states().subrange(0, old(self).states().len() as int) == old(self).states(),
            r is Ok ==> final(self).states().last().parent.0 == old(self).states().len() - 1,
            r is Ok ==> final(self).states().last().diff.op_model() == old(self).rebased(parent, operation.op_model()).0,
            r is Ok ==> O::target_model(&final(self).states().last().content) == old(self).committed_content(parent, operation.op_model()),
            parent.0 >= old(self).states().len() ==> (r matches Err(e) && e@ == index_error()),
            parent.0 < old(self).states().len() && old(self).patch_since(parent.0 as int) is None ==> (r matches Err(e)
                && e@ == history_error()),
            parent.0 < old(self).states().len() && old(self).patch_since(parent.0 as int) is Some && !old(self).accepts(
                parent,
                operation.op_model(),
            ) ==> (r matches Err(e) && e@ == fit_error()),
    {
        let (parent_id, server_op) = match self.get_patch(&parent) {
            Ok(p) => p,
            Err(e) => {
                return Err(e);
            },
        };
        if !operation.transforms_with(&server_op) {
            return Err(String::from_str("the operation does not fit the server's state"));
        }
        let (server_diff, client_diff) = operation.transform(server_op.copy_op());
        if !server_op.composes_with(&server_diff) {
            return Err(String::from_str("the operation does not fit the server's state"));
        }
        let composed = server_op.compose(server_diff.copy_op());
        if !composed.fits_target(&self.history[parent.0].content) {
            return Err(String::from_str("the operation does not fit the server's state"));
        }
        let content = composed.apply(&self.history[parent.0].content);
        let id = Id(self.history.len());
        let ghost old_h = self.history@;
        self.history.push(State { parent: parent_id, id, diff: server_diff, content });
        proof {
            assert(self.history@.subrange(0, old_h.len() as int) =~= old_h);
        }
        Ok((id, client_diff))
    }
}

} // verus!
