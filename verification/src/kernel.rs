//! The per-kernel handle: a mailbox with pre-connection buffering.
//!
//! A handle starts in `Init`, buffering messages in order. When the
//! kernel's connection logs in, the handle becomes `Ready`: the buffered
//! messages are drained, in order, to the connection's mailbox, and
//! every later message is forwarded directly. `Ready` never goes back to
//! `Init`. The model keeps, as ghost state, the full sequence delivered
//! to the mailbox, so the order guarantee is a statement about it.

use vstd::prelude::*;

use crate::client_messages::KernelInfo;
use crate::ids::{KernelId, NotebookId, RunId};
use crate::messages::{ToKernelMessage, ToKernelMessageView};

verus! {

broadcast use vstd::seq::group_seq_axioms, vstd::std_specs::vec::group_vec_axioms;

/// The coordinates of a kernel: which run of which notebook it serves.
#[derive(Clone, Copy, Debug, PartialEq, Eq, Structural)]
pub struct KernelCtx {
    pub kernel_id: KernelId,
    pub notebook_id: NotebookId,
    pub run_id: RunId,
}

/// The mailbox state of a handle.
enum KernelHandleState {
    /// Spawned, not yet logged in: messages wait here.
    Init { pending: Vec<ToKernelMessage> },
    /// Logged in: messages go straight out. `delivered` records, in
    /// order, everything handed to the connection's mailbox.
    Ready { delivered: Ghost<Seq<ToKernelMessageView>> },
}

/// A handle to one spawned kernel process.
pub struct KernelHandle {
    state: KernelHandleState,
    kernel_ctx: KernelCtx,
    pid: u32,
}

/// Model of a handle's mailbox state.
pub enum HandleStateView {
    Init { pending: Seq<ToKernelMessageView> },
    Ready { delivered: Seq<ToKernelMessageView> },
}

/// Model of a [`KernelHandle`].
#[verifier::ext_equal]
pub struct KernelHandleView {
    pub state: HandleStateView,
    pub kernel_ctx: KernelCtx,
    pub pid: u32,
}

impl View for KernelHandle {
    type V = KernelHandleView;

    closed spec fn view(&self) -> KernelHandleView {
        KernelHandleView {
            state: match self.state {
                KernelHandleState::Init { pending } => HandleStateView::Init {
                    pending: Seq::new(pending@.len(), |i: int| pending@[i]@),
                },
                KernelHandleState::Ready { delivered } => HandleStateView::Ready {
                    delivered: delivered@,
                },
            },
            kernel_ctx: self.kernel_ctx,
            pid: self.pid,
        }
    }
}

/// One `send_message` step on the mailbox state: buffered while `Init`,
/// delivered while `Ready`.
pub open spec fn handle_send(s: HandleStateView, m: ToKernelMessageView) -> HandleStateView {
    match s {
        HandleStateView::Init { pending } => HandleStateView::Init { pending: pending.push(m) },
        HandleStateView::Ready { delivered } => HandleStateView::Ready {
            delivered: delivered.push(m),
        },
    }
}

/// The `set_to_ready` step: the pending messages become, in their
/// buffering order, the first messages delivered.
pub open spec fn handle_ready(s: HandleStateView) -> HandleStateView {
    match s {
        HandleStateView::Init { pending } => HandleStateView::Ready { delivered: pending },
        HandleStateView::Ready { delivered } => HandleStateView::Ready { delivered },
    }
}

/// `handle_send` folded over a sequence of messages, first first.
pub open spec fn handle_send_all(s: HandleStateView, ms: Seq<ToKernelMessageView>) -> HandleStateView
    decreases ms.len(),
{
    if ms.len() == 0 {
        s
    } else {
        handle_send_all(handle_send(s, ms[0]), ms.drop_first())
    }
}

/// Law: messages sent while `Init`, in order `xs`, then a transition to
/// `Ready`, then messages sent in order `ys`, deliver to the mailbox
/// exactly `xs + ys`: buffering and draining preserve the send order.
pub proof fn lemma_mailbox_order(xs: Seq<ToKernelMessageView>, ys: Seq<ToKernelMessageView>)
    ensures
        handle_send_all(
            handle_ready(handle_send_all(HandleStateView::Init { pending: Seq::empty() }, xs)),
            ys,
        ) == (HandleStateView::Ready { delivered: xs + ys }),
{
    lemma_send_all_init(Seq::empty(), xs);
    assert(Seq::empty() + xs =~= xs);
    lemma_send_all_ready(xs, ys);
}

/// Sending while `Init` appends to the pending buffer.
proof fn lemma_send_all_init(p: Seq<ToKernelMessageView>, ms: Seq<ToKernelMessageView>)
    ensures
        handle_send_all(HandleStateView::Init { pending: p }, ms) == (HandleStateView::Init {
            pending: p + ms,
        }),
    decreases ms.len(),
{
    if ms.len() == 0 {
        assert(p + ms =~= p);
    } else {
        lemma_send_all_init(p.push(ms[0]), ms.drop_first());
        assert(p.push(ms[0]) + ms.drop_first() =~= p + ms);
    }
}

/// Sending while `Ready` appends to the delivered sequence.
proof fn lemma_send_all_ready(d: Seq<ToKernelMessageView>, ms: Seq<ToKernelMessageView>)
    ensures
        handle_send_all(HandleStateView::Ready { delivered: d }, ms) == (HandleStateView::Ready {
            delivered: d + ms,
        }),
    decreases ms.len(),
{
    if ms.len() == 0 {
        assert(d + ms =~= d);
    } else {
        lemma_send_all_ready(d.push(ms[0]), ms.drop_first());
        assert(d.push(ms[0]) + ms.drop_first() =~= d + ms);
    }
}

impl KernelHandle {
    /// A handle for a freshly spawned kernel: nothing buffered yet.
    pub fn new(kernel_ctx: KernelCtx, pid: u32) -> (r: Self)
        ensures
            r@ == (KernelHandleView {
                state: HandleStateView::Init { pending: Seq::empty() },
                kernel_ctx,
                pid,
            }),
    {
        let r = KernelHandle {
            state: KernelHandleState::Init { pending: Vec::new() },
            kernel_ctx,
            pid,
        };
        proof {
            assert(r@.state->Init_pending =~= Seq::<ToKernelMessageView>::empty());
            assert(r@ =~= (KernelHandleView {
                state: HandleStateView::Init { pending: Seq::empty() },
                kernel_ctx,
                pid,
            }));
        }
        r
    }

    /// The listing entry for this kernel.
    pub fn kernel_info(&self, kernel_id: KernelId) -> (r: KernelInfo)
        ensures
            r == (KernelInfo {
                kernel_id,
                notebook_id: self@.kernel_ctx.notebook_id,
                run_id: self@.kernel_ctx.run_id,
                pid: self@.pid,
            }),
    {
        KernelInfo {
            kernel_id,
            notebook_id: self.kernel_ctx.notebook_id,
            run_id: self.kernel_ctx.run_id,
            pid: self.pid,
        }
    }

    /// The coordinates this handle serves.
    pub fn kernel_ctx(&self) -> (r: KernelCtx)
        ensures
            r == self@.kernel_ctx,
    {
        self.kernel_ctx
    }

    pub fn notebook_id(&self) -> (r: NotebookId)
        ensures
            r == self@.kernel_ctx.notebook_id,
    {
        self.kernel_ctx.notebook_id
    }

    pub fn run_id(&self) -> (r: RunId)
        ensures
            r == self@.kernel_ctx.run_id,
    {
        self.kernel_ctx.run_id
    }

    pub fn is_init(&self) -> (r: bool)
        ensures
            r == (self@.state is Init),
    {
        match &self.state {
            KernelHandleState::Init { .. } => true,
            KernelHandleState::Ready { .. } => false,
        }
    }

    /// The transition to `Ready` on login. The pending messages are
    /// returned, in their buffering order, for the caller to put into
    /// the connection's mailbox; the model counts them delivered.
    /// `Ready` never goes back to `Init`.
    pub fn set_to_ready(&mut self) -> (drained: Vec<ToKernelMessage>)
        requires
            old(self)@.state is Init,
        ensures
            Seq::new(drained@.len(), |i: int| drained@[i]@) == old(self)@.state->Init_pending,
            final(self)@ == (KernelHandleView {
                state: handle_ready(old(self)@.state),
                ..old(self)@
            }),
    {
        let mut state = KernelHandleState::Ready {
            delivered: Ghost(old(self)@.state->Init_pending),
        };
        core::mem::swap(&mut self.state, &mut state);
        match state {
            KernelHandleState::Init { pending } => {
                proof {
                    assert(Seq::new(pending@.len(), |i: int| pending@[i]@) == old(self)@.state->Init_pending);
                    assert(final(self)@ =~= (KernelHandleView {
                        state: handle_ready(old(self)@.state),
                        ..old(self)@
                    }));
                }
                pending
            },
            KernelHandleState::Ready { .. } => {
                proof {
                    assert(false);
                }
                Vec::new()
            },
        }
    }

    /// Accept a message: buffered in order while `Init`; handed back for
    /// immediate delivery while `Ready`. The mailbox model advances by
    /// one `handle_send` step either way.
    pub fn send_message(&mut self, message: ToKernelMessage) -> (forward: Option<ToKernelMessage>)
        ensures
            final(self)@ == (KernelHandleView {
                state: handle_send(old(self)@.state, message@),
                ..old(self)@
            }),
            old(self)@.state is Init ==> forward is None,
            old(self)@.state is Ready ==> forward == Option::Some(message),
    {
        match &mut self.state {
            KernelHandleState::Init { pending } => {
                let ghost mv = message@;
                pending.push(message);
                proof {
                    assert(final(self)@.state->Init_pending =~= old(self)@.state->Init_pending.push(mv));
                    assert(final(self)@ =~= (KernelHandleView {
                        state: handle_send(old(self)@.state, mv),
                        ..old(self)@
                    }));
                }
                None
            },
            KernelHandleState::Ready { delivered } => {
                *delivered = Ghost(delivered@.push(message@));
                proof {
                    assert(final(self)@ =~= (KernelHandleView {
                        state: handle_send(old(self)@.state, message@),
                        ..old(self)@
                    }));
                }
                Some(message)
            },
        }
    }
}

} // verus!
