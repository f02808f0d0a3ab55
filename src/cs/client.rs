//! The client side of the protocol: a state machine that buffers local edits,
//! sends them one batch at a time, and rebases what is buffered on what the
//! server answers. The transport is not part of it: the caller sends what
//! `send_to_server` hands out and feeds the answers back.
use vstd::prelude::*;
use crate::Operation;
use crate::cs::{Id, State};

verus! {

/// The last state a client has fully reconciled.
#[derive(Debug)]
pub struct ClientState<T> {
    pub id: Id,
    pub content: T,
}

/// Why a client refused a call.
#[derive(Debug)]
pub enum ClientError {
    /// The transport failed, with its message.
    ConnectionError(String),
    /// A response is awaited; the call has to wait for it.
    Syncing,
    /// No response is awaited, so there is nothing to apply it to.
    NotWaiting,
    /// The client is in its error state, with its message.
    NotConnected(String),
}

/// The client state machine.
pub enum Client<O: Operation> {
    /// An edit was sent and its answer is awaited; new local edits gather in
    /// `current_diff`.
    WaitingForResponse { base_state: ClientState<O::Target>, sent_diff: O, current_diff: Option<O> },
    /// Idle: local edits gather in `current_diff`.
    Buffering { base_state: ClientState<O::Target>, current_diff: Option<O> },
    /// Stopped, with a message.
    Error(String),
}

/// The message of `send_to_server` for an idle client with nothing buffered.
pub open spec fn no_buffer_error() -> Seq<char> {
    "client has no diff in buffer"@
}

/// The message of `send_to_server` for a client that is not idle.
pub open spec fn not_buffering_error() -> Seq<char> {
    "client is not in buffering state"@
}

/// The model of an edit that may be absent.
pub open spec fn opt_model<O: Operation>(o: Option<O>) -> Option<O::Model> {
    match o {
        Some(x) => Some(x.op_model()),
        None => None,
    }
}

pub open spec fn opt_valid<O: Operation>(o: Option<O>) -> bool {
    match o {
        Some(x) => x.op_valid(),
        None => true,
    }
}

/// What a client makes of the answer `op` to the edit `sent` that it sent from
/// `base`, with `current` buffered since: the new base content and the
/// buffer rebased on `op`; `None` where the edits do not line up.
pub open spec fn fold_answer<O: Operation>(
    base: O::Content,
    sent: O::Model,
    current: Option<O::Model>,
    op: O::Model,
) -> Option<(O::Content, Option<O::Model>)> {
    if !O::composable(sent, op) || !O::fits(O::compose_model(sent, op), base) {
        None
    } else {
        match current {
            None => Some((O::apply_model(O::compose_model(sent, op), base), None)),
            Some(c) => if O::transformable(c, op) {
                Some((O::apply_model(O::compose_model(sent, op), base), Some(O::transform_model(c, op).0)))
            } else {
                None
            },
        }
    }
}

/// What an idle client makes of the patch `diff` from `base`, with `current`
/// buffered: the new base content and the buffer rebased on `diff`; `None`
/// where the edits do not line up.
pub open spec fn fold_patch_in<O: Operation>(base: O::Content, current: Option<O::Model>, diff: O::Model) -> Option<
    (O::Content, Option<O::Model>),
> {
    match current {
        None => if O::fits(diff, base) {
            Some((O::apply_model(diff, base), None))
        } else {
            None
        },
        Some(c) => if !O::transformable(c, diff) {
            None
        } else {
            let c2 = O::transform_model(c, diff).0;
            if O::composable(diff, c2) && O::fits(O::compose_model(diff, c2), base) {
                Some((O::apply_model(O::compose_model(diff, c2), base), Some(c2)))
            } else {
                None
            }
        },
    }
}

impl<O: Operation> Client<O> {
    /// Every edit the client holds is valid.
    pub open spec fn valid(&self) -> bool {
        match self {
            Client::WaitingForResponse { sent_diff, current_diff, .. } => sent_diff.op_valid() && opt_valid(
                *current_diff,
            ),
            Client::Buffering { current_diff, .. } => opt_valid(*current_diff),
            Client::Error(_) => true,
        }
    }

    /// Idle at state `id` with `content`, with `current` buffered.
    pub open spec fn is_buffering(&self, id: Id, content: O::Content, current: Option<O::Model>) -> bool {
        match self {
            Client::Buffering { base_state, current_diff } => base_state.id == id && O::target_model(
                &base_state.content,
            ) == content && opt_model(*current_diff) == current,
            _ => false,
        }
    }

    /// Waiting for the answer to `sent`, from state `id` with `content`, with
    /// `current` buffered since.
    pub open spec fn is_waiting(&self, id: Id, content: O::Content, sent: O::Model, current: Option<O::Model>) -> bool {
        match self {
            Client::WaitingForResponse { base_state, sent_diff, current_diff } => base_state.id == id
                && O::target_model(&base_state.content) == content && sent_diff.op_model() == sent && opt_model(
                *current_diff,
            ) == current,
            _ => false,
        }
    }

    /// The client that starts from the server state `state`.
    pub fn with_state(state: State<O>) -> (r: Client<O>)
        ensures
            r.valid(),
            r.is_buffering(state.id, O::target_model(&state.content), None),
    {
        Client::Buffering { base_state: ClientState { id: state.id, content: state.content }, current_diff: None }
    }

    /// The last acknowledged content.
    pub fn current_content(&self) -> (r: Result<O::Target, String>)
        ensures
            self matches Client::Error(e) ==> r == Err::<O::Target, String>(*e),
            self matches Client::Buffering { base_state, .. } ==> r matches Ok(t) && O::target_model(&t)
                == O::target_model(&base_state.content),
            self matches Client::WaitingForResponse { base_state, .. } ==> r matches Ok(t) && O::target_model(&t)
                == O::target_model(&base_state.content),
    {
        match self {
            Client::WaitingForResponse { base_state, .. } => Ok(O::copy_target(&base_state.content)),
            Client::Buffering { base_state, .. } => Ok(O::copy_target(&base_state.content)),
            Client::Error(e) => Err(e.clone()),
        }
    }

    /// The acknowledged content with the buffered edits applied.
    pub fn unsynced_content(&self) -> (r: Result<O::Target, String>)
        requires
            self.valid(),
        ensures
            self matches Client::Error(e) ==> r == Err::<O::Target, String>(*e),
            !(self is Error) ==> match self.current_diff() {
                None => r matches Ok(t) && O::target_model(&t) == O::target_model(self.base_content()),
                Some(c) => if O::fits(c.op_model(), O::target_model(self.base_content())) {
                    r matches Ok(t) && O::target_model(&t) == O::apply_model(
                        c.op_model(),
                        O::target_model(self.base_content()),
                    )
                } else {
                    r is Err
                },
            },
    {
        match self {
            Client::WaitingForResponse { base_state, current_diff, .. } => Self::content_with(
                &base_state.content,
                current_diff,
            ),
            Client::Buffering { base_state, current_diff } => Self::content_with(&base_state.content, current_diff),
            Client::Error(e) => Err(e.clone()),
        }
    }

    /// The buffered edit, in the two connected states.
    pub open spec fn current_diff(&self) -> Option<O> {
        match self {
            Client::WaitingForResponse { current_diff, .. } => *current_diff,
            Client::Buffering { current_diff, .. } => *current_diff,
            Client::Error(_) => None,
        }
    }

    /// The acknowledged content, in the two connected states.
    pub open spec fn base_content(&self) -> &O::Target {
        match self {
            Client::WaitingForResponse { base_state, .. } => &base_state.content,
            Client::Buffering { base_state, .. } => &base_state.content,
            Client::Error(_) => arbitrary(),
        }
    }

    fn content_with(content: &O::Target, current: &Option<O>) -> (r: Result<O::Target, String>)
        requires
            opt_valid(*current),
        ensures
            match *current {
                None => r matches Ok(t) && O::target_model(&t) == O::target_model(content),
                Some(c) => if O::fits(c.op_model(), O::target_model(content)) {
                    r matches Ok(t) && O::target_model(&t) == O::apply_model(c.op_model(), O::target_model(content))
                } else {
                    r is Err
                },
            },
    {
        match current {
            Some(c) => {
                if c.fits_target(content) {
                    Ok(c.apply(content))
                } else {
                    Err(String::from_str("the buffered operation does not fit the content"))
                }
            },
            None => Ok(O::copy_target(content)),
        }
    }
}


impl<O: Operation> Client<O> {
    /// Adds a local edit to the buffer: composed after what is buffered, or as
    /// the buffer where none is. An edit that does not follow the buffer stops
    /// the client. Nothing happens in the error state.
    pub fn push_operation(&mut self, operation: O)
        requires
            old(self).valid(),
            operation.op_valid(),
        ensures
            final(self).valid(),
            (*old(self)) is Error ==> *final(self) == *old(self),
            (*old(self)) matches Client::Buffering { base_state, current_diff } ==> match current_diff {
                None => final(self).is_buffering(base_state.id, O::target_model(&base_state.content), Some(operation.op_model())),
                Some(c) => if O::composable(c.op_model(), operation.op_model()) {
                    final(self).is_buffering(
                        base_state.id,
                        O::target_model(&base_state.content),
                        Some(O::compose_model(c.op_model(), operation.op_model())),
                    )
                } else {
                    (*final(self)) is Error
                },
            },
            (*old(self)) matches Client::WaitingForResponse { base_state, sent_diff, current_diff } ==> match current_diff {
                None => final(self).is_waiting(
                    base_state.id,
                    O::target_model(&base_state.content),
                    sent_diff.op_model(),
                    Some(operation.op_model()),
                ),
                Some(c) => if O::composable(c.op_model(), operation.op_model()) {
                    final(self).is_waiting(
                        base_state.id,
                        O::target_model(&base_state.content),
                        sent_diff.op_model(),
                        Some(O::compose_model(c.op_model(), operation.op_model())),
                    )
                } else {
                    (*final(self)) is Error
                },
            },
    {
        let mut taken = Client::Error(String::new());
        std::mem::swap(self, &mut taken);
        match taken {
            Client::Error(e) => {
                *self = Client::Error(e);
            },
            Client::Buffering { base_state, current_diff } => {
                match Self::push_into(current_diff, operation) {
                    Some(c) => {
                        *self = Client::Buffering { base_state, current_diff: Some(c) };
                    },
                    None => {
                        *self = Client::Error(String::from_str("the pushed operation does not follow the buffer"));
                    },
                }
            },
            Client::WaitingForResponse { base_state, sent_diff, current_diff } => {
                match Self::push_into(current_diff, operation) {
                    Some(c) => {
                        *self = Client::WaitingForResponse { base_state, sent_diff, current_diff: Some(c) };
                    },
                    None => {
                        *self = Client::Error(String::from_str("the pushed operation does not follow the buffer"));
                    },
                }
            },
        }
    }

    fn push_into(current: Option<O>, operation: O) -> (r: Option<O>)
        requires
            opt_valid(current),
            operation.op_valid(),
        ensures
            opt_valid(r),
            match current {
                None => opt_model(r) == Some(operation.op_model()),
                Some(c) => if O::composable(c.op_model(), operation.op_model()) {
                    opt_model(r) == Some(O::compose_model(c.op_model(), operation.op_model()))
                } else {
                    r is None
                },
            },
    {
        match current {
            None => Some(operation),
            Some(c) => {
                if c.composes_with(&operation) {
                    Some(c.compose(operation))
                } else {
                    None
                }
            },
        }
    }

    /// Hands out what is buffered to be sent against the base state: the base
    /// id and the edit. The client then waits for the answer.
    pub fn send_to_server(&mut self) -> (r: Result<(Id, O), String>)
        requires
            old(self).valid(),
        ensures
            final(self).valid(),
            r is Err ==> *final(self) == *old(self),
            r is Ok <==> ((*old(self)) matches Client::Buffering { current_diff: Some(_), .. }),
            (*old(self)) matches Client::Buffering { current_diff: None, .. } ==> (r matches Err(e) && e@
                == no_buffer_error()),
            !((*old(self)) is Buffering) ==> (r matches Err(e) && e@ == not_buffering_error()),
            (*old(self)) matches Client::Buffering { base_state, current_diff: Some(c) } ==> r matches Ok((id, op))
                && id == base_state.id && op.op_valid() && op.op_model() == c.op_model() && final(self).is_waiting(
                base_state.id,
                O::target_model(&base_state.content),
                c.op_model(),
                None,
            ),
    {
        let ready = match self {
            Client::Buffering { current_diff: Some(_), .. } => true,
            _ => false,
        };
        if !ready {
            if let Client::Buffering { .. } = self {
                return Err(String::from_str("client has no diff in buffer"));
            }
            return Err(String::from_str("client is not in buffering state"));
        }
        let mut taken = Client::Error(String::new());
        std::mem::swap(self, &mut taken);
        match taken {
            Client::Buffering { base_state, current_diff: Some(c) } => {
                let id = base_state.id;
                let sent = c.copy_op();
                *self = Client::WaitingForResponse { base_state, sent_diff: c, current_diff: None };
                Ok((id, sent))
            },
            other => {
                *self = other;
                Err(String::from_str("client is not in buffering state"))
            },
        }
    }

    /// The id to ask the server for a patch from. Only an idle client asks.
    pub fn send_get_patch(&self) -> (r: Result<Id, ClientError>)
        ensures
            self matches Client::Error(e) ==> r matches Err(ClientError::NotConnected(m)) && m == *e,
            self is WaitingForResponse ==> r matches Err(ClientError::Syncing),
            self matches Client::Buffering { base_state, .. } ==> r == Ok::<Id, ClientError>(base_state.id),
    {
        match self {
            Client::Error(e) => Err(ClientError::NotConnected(e.clone())),
            Client::WaitingForResponse { .. } => Err(ClientError::Syncing),
            Client::Buffering { base_state, .. } => Ok(base_state.id),
        }
    }
}


impl<O: Operation> Client<O> {
    fn answer_into(base: &O::Target, sent: O, current: Option<O>, op: O) -> (r: Option<(O::Target, Option<O>)>)
        requires
            sent.op_valid(),
            opt_valid(current),
            op.op_valid(),
        ensures
            match fold_answer::<O>(O::target_model(base), sent.op_model(), opt_model(current), op.op_model()) {
                None => r is None,
                Some(f) => r matches Some((t, c)) && O::target_model(&t) == f.0 && opt_model(c) == f.1 && opt_valid(c),
            },
    {
        if !sent.composes_with(&op) {
            return None;
        }
        let composed = sent.compose(op.copy_op());
        if !composed.fits_target(base) {
            return None;
        }
        match current {
            None => Some((composed.apply(base), None)),
            Some(c) => {
                if !c.transforms_with(&op) {
                    return None;
                }
                let (c2, _) = c.transform(op);
                Some((composed.apply(base), Some(c2)))
            },
        }
    }

    fn patch_into(base: &O::Target, current: Option<O>, diff: O) -> (r: Option<(O::Target, Option<O>)>)
        requires
            opt_valid(current),
            diff.op_valid(),
        ensures
            match fold_patch_in::<O>(O::target_model(base), opt_model(current), diff.op_model()) {
                None => r is None,
                Some(f) => r matches Some((t, c)) && O::target_model(&t) == f.0 && opt_model(c) == f.1 && opt_valid(c),
            },
    {
        match current {
            None => {
                if diff.fits_target(base) {
                    Some((diff.apply(base), None))
                } else {
                    None
                }
            },
            Some(c) => {
                if !c.transforms_with(&diff) {
                    return None;
                }
                let (c2, _) = c.transform(diff.copy_op());
                if !diff.composes_with(&c2) {
                    return None;
                }
                let composed = diff.compose(c2.copy_op());
                if !composed.fits_target(base) {
                    return None;
                }
                Some((composed.apply(base), Some(c2)))
            },
        }
    }

    /// Applies the server's answer `(id, op)` to the edit in flight: the base
    /// becomes the state `id`, with the sent edit and `op` applied, and the
    /// buffer is rebased on `op`. Where the edits do not line up the client
    /// stops.
    pub fn apply_response(&mut self, id: Id, op: O) -> (r: Result<(), ClientError>)
        requires
            old(self).valid(),
            op.op_valid(),
        ensures
            final(self).valid(),
            (*old(self)) matches Client::Error(e) ==> *final(self) == *old(self)
                && (r matches Err(ClientError::NotConnected(m)) && m == e),
            (*old(self)) is Buffering ==> *final(self) == *old(self) && (r matches Err(ClientError::NotWaiting)),
            (*old(self)) matches Client::WaitingForResponse { base_state, sent_diff, current_diff } ==> match fold_answer::<O>(
                O::target_model(&base_state.content),
                sent_diff.op_model(),
                opt_model(current_diff),
                op.op_model(),
            ) {
                None => r is Err && (*final(self)) is Error,
                Some(f) => r is Ok && final(self).is_buffering(id, f.0, f.1),
            },
    {
        let mut taken = Client::Error(String::new());
        std::mem::swap(self, &mut taken);
        match taken {
            Client::Error(e) => {
                let m = e.clone();
                *self = Client::Error(e);
                Err(ClientError::NotConnected(m))
            },
            Client::Buffering { base_state, current_diff } => {
                *self = Client::Buffering { base_state, current_diff };
                Err(ClientError::NotWaiting)
            },
            Client::WaitingForResponse { base_state, sent_diff, current_diff } => {
                match Self::answer_into(&base_state.content, sent_diff, current_diff, op) {
                    Some((content, current)) => {
                        *self = Client::Buffering { base_state: ClientState { id, content }, current_diff: current };
                        Ok(())
                    },
                    None => {
                        let m = String::from_str("the answer does not fit the sent operation");
                        *self = Client::Error(m.clone());
                        Err(ClientError::NotConnected(m))
                    },
                }
            },
        }
    }

    /// Applies the patch `diff` that leads to the state `latest_id`. While an
    /// edit is in flight the patch is its answer. An idle client rebases its
    /// buffer on `diff` and moves its base past both. Where the edits do not
    /// line up the client stops.
    pub fn apply_patch(&mut self, latest_id: Id, diff: O) -> (r: Result<(), ClientError>)
        requires
            old(self).valid(),
            diff.op_valid(),
        ensures
            final(self).valid(),
            (*old(self)) matches Client::Error(e) ==> *final(self) == *old(self)
                && (r matches Err(ClientError::NotConnected(m)) && m == e),
            (*old(self)) matches Client::WaitingForResponse { base_state, sent_diff, current_diff } ==> match fold_answer::<O>(
                O::target_model(&base_state.content),
                sent_diff.op_model(),
                opt_model(current_diff),
                diff.op_model(),
            ) {
                None => r is Err && (*final(self)) is Error,
                Some(f) => r is Ok && final(self).is_buffering(latest_id, f.0, f.1),
            },
            (*old(self)) matches Client::Buffering { base_state, current_diff } ==> match fold_patch_in::<O>(
                O::target_model(&base_state.content),
                opt_model(current_diff),
                diff.op_model(),
            ) {
                None => r is Err && (*final(self)) is Error,
                Some(f) => r is Ok && final(self).is_buffering(latest_id, f.0, f.1),
            },
    {
        let mut taken = Client::Error(String::new());
        std::mem::swap(self, &mut taken);
        match taken {
            Client::Error(e) => {
                let m = e.clone();
                *self = Client::Error(e);
                Err(ClientError::NotConnected(m))
            },
            Client::WaitingForResponse { base_state, sent_diff, current_diff } => {
                match Self::answer_into(&base_state.content, sent_diff, current_diff, diff) {
                    Some((content, current)) => {
                        *self = Client::Buffering {
                            base_state: ClientState { id: latest_id, content },
                            current_diff: current,
                        };
                        Ok(())
                    },
                    None => {
                        let m = String::from_str("the patch does not fit the sent operation");
                        *self = Client::Error(m.clone());
                        Err(ClientError::NotConnected(m))
                    },
                }
            },
            Client::Buffering { base_state, current_diff } => {
                match Self::patch_into(&base_state.content, current_diff, diff) {
                    Some((content, current)) => {
                        *self = Client::Buffering {
                            base_state: ClientState { id: latest_id, content },
                            current_diff: current,
                        };
                        Ok(())
                    },
                    None => {
                        let m = String::from_str("the patch does not fit the buffered operation");
                        *self = Client::Error(m.clone());
                        Err(ClientError::NotConnected(m))
                    },
                }
            },
        }
    }
}

} // verus!
