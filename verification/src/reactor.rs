//! The reactor: synchronous handlers that turn client requests and
//! kernel messages into model mutations and effects.
//!
//! Each handler mutates the [`AppState`] and returns the list of
//! [`Effect`]s the surrounding shell must perform: messages to emit to
//! observer sessions, messages to forward to kernel mailboxes, and the
//! asynchronous work (spawning, stopping, saving, loading, listing)
//! that the library cannot do itself. Handlers never block and never
//! leave the state ill-formed: a handler that fails changes nothing.

use vstd::prelude::*;
use vstd::string::StringExecFns;

use crate::client_messages::{
    notebook_desc_of, DirEntry, DirEntryType, DirEntryView, ToClientMessage, ToClientMessageView,
};
use crate::errors::CoreError;
use crate::ids::{KernelId, NotebookId, OutputCellId, RunId};
use crate::kernel::{handle_ready, handle_send, KernelCtx, KernelHandle, KernelHandleView};
use crate::messages::{
    ComputeMsg, FromKernelMessage, OutputFlag, ToKernelMessage, ToKernelMessageView,
};
use crate::notebook::{
    find_last_cell, kernel_state_desc_of, run_add_output, run_wf, EditorGroup, KernelState,
    KernelStateView, Notebook, NotebookView, OutputCell, OutputValue, Run, RunView,
};
use crate::scopes::{apply_ok, apply_view, SerializedGlobals};
use crate::state::{kernel_index, notebook_index, notebook_path_index, state_wf, AppState};

verus! {

broadcast use
    vstd::seq::group_seq_axioms,
    vstd::std_specs::vec::group_vec_axioms,
    vstd::seq_lib::group_to_multiset_ensures,
    vstd::multiset::group_multiset_axioms;

/// Work the surrounding shell performs after a handler returns.
pub enum Effect {
    /// Send a client message to the observer channel `target`.
    Emit { target: u64, message: ToClientMessage },
    /// Put a message into the mailbox of a kernel that is `Ready`.
    SendKernel { kernel_id: KernelId, message: ToKernelMessage },
    /// Spawn a kernel child process for this run, connecting back to
    /// the kernel listener port.
    SpawnKernel { kernel_ctx: KernelCtx, kernel_port: u16 },
    /// Signal the cancellation of a kernel whose handle was removed.
    StopKernel { kernel_id: KernelId },
    /// Serialize the notebook and write it to disk, then report back
    /// through `save_completed`.
    SaveNotebook { notebook_id: NotebookId, new_notebook: bool },
    /// Read the notebook at `path` from disk, then report back through
    /// `notebook_loaded`, or emit an error to the observer.
    LoadNotebook { path: String, observer: u64 },
    /// Enumerate the current directory, then report back through
    /// `dir_listing`.
    QueryDir { observer: u64 },
}

/// Model of an [`Effect`].
pub enum EffectView {
    Emit { target: u64, message: ToClientMessageView },
    SendKernel { kernel_id: u128, message: ToKernelMessageView },
    SpawnKernel { kernel_ctx: KernelCtx, kernel_port: u16 },
    StopKernel { kernel_id: u128 },
    SaveNotebook { notebook_id: u32, new_notebook: bool },
    LoadNotebook { path: Seq<char>, observer: u64 },
    QueryDir { observer: u64 },
}

impl View for Effect {
    type V = EffectView;

    open spec fn view(&self) -> EffectView {
        match self {
            Effect::Emit { target, message } => EffectView::Emit {
                target: *target,
                message: message@,
            },
            Effect::SendKernel { kernel_id, message } => EffectView::SendKernel {
                kernel_id: kernel_id.id,
                message: message@,
            },
            Effect::SpawnKernel { kernel_ctx, kernel_port } => EffectView::SpawnKernel {
                kernel_ctx: *kernel_ctx,
                kernel_port: *kernel_port,
            },
            Effect::StopKernel { kernel_id } => EffectView::StopKernel { kernel_id: kernel_id.id },
            Effect::SaveNotebook { notebook_id, new_notebook } => EffectView::SaveNotebook {
                notebook_id: notebook_id.id,
                new_notebook: *new_notebook,
            },
            Effect::LoadNotebook { path, observer } => EffectView::LoadNotebook {
                path: path@,
                observer: *observer,
            },
            Effect::QueryDir { observer } => EffectView::QueryDir { observer: *observer },
        }
    }
}

/// View of a vector of effects.
pub open spec fn effects_view(es: Seq<Effect>) -> Seq<EffectView> {
    Seq::new(es.len(), |i: int| es[i]@)
}

/// The request to execute one cell of a run.
pub struct RunCodeMsg {
    pub notebook_id: NotebookId,
    pub run_id: RunId,
    pub cell_id: OutputCellId,
    pub editor_node: EditorGroup,
    pub called_id: crate::ids::EditorId,
}

/// Appending an emission toward an observer slot: nothing happens when
/// the slot is empty; send failures on a live channel are the shell's
/// concern and are ignored there.
pub open spec fn emit_spec(
    es: Seq<EffectView>,
    observer: Option<u64>,
    m: ToClientMessageView,
) -> Seq<EffectView> {
    match observer {
        Option::Some(t) => es.push(EffectView::Emit { target: t, message: m }),
        Option::None => es,
    }
}

/// Emit a message to an observer slot, if one is attached.
fn emit_to(observer: Option<u64>, message: ToClientMessage, effects: &mut Vec<Effect>)
    ensures
        effects_view(final(effects)@) == emit_spec(
            effects_view(old(effects)@),
            observer,
            message@,
        ),
{
    let ghost mv = message@;
    match observer {
        Some(target) => {
            effects.push(Effect::Emit { target, message });
            proof {
                assert(effects_view(effects@) =~= effects_view(old(effects)@).push(
                    EffectView::Emit { target, message: mv },
                ));
            }
        },
        None => {
            proof {
                assert(effects_view(effects@) =~= effects_view(old(effects)@));
            }
        },
    }
}

/// The kernel listing of a state.
pub open spec fn kernel_infos_of(sv: crate::state::AppStateView) -> Seq<
    crate::client_messages::KernelInfo,
> {
    Seq::new(
        sv.kernels.len(),
        |i: int|
            crate::client_messages::KernelInfo {
                kernel_id: KernelId { id: sv.kernels[i].0 },
                notebook_id: sv.kernels[i].1.kernel_ctx.notebook_id,
                run_id: sv.kernels[i].1.kernel_ctx.run_id,
                pid: sv.kernels[i].1.pid,
            },
    )
}

/// Answer a kernel-listing request: one `Kernels` emission to the
/// requesting observer.
pub fn kernel_list_request(state: &AppState, observer: u64) -> (r: Vec<Effect>)
    ensures
        effects_view(r@) == seq![
            EffectView::Emit {
                target: observer,
                message: ToClientMessageView::Kernels { kernels: kernel_infos_of(state@) },
            },
        ],
{
    let kernels = state.kernel_list();
    proof {
        assert(kernels@ =~= kernel_infos_of(state@));
    }
    let mut r: Vec<Effect> = Vec::new();
    r.push(Effect::Emit { target: observer, message: ToClientMessage::Kernels { kernels } });
    proof {
        assert(effects_view(r@) =~= seq![
            EffectView::Emit {
                target: observer,
                message: ToClientMessageView::Kernels { kernels: kernel_infos_of(state@) },
            },
        ]);
    }
    r
}

/// A successful kernel-index search lands in range, on the key.
proof fn lemma_kernel_index_bounds(s: Seq<(u128, KernelHandleView)>, id: u128, i: int)
    requires
        0 <= i,
        kernel_index(s, id, i) is Some,
    ensures
        i <= kernel_index(s, id, i).unwrap() < s.len(),
        s[kernel_index(s, id, i).unwrap()].0 == id,
    decreases s.len() - i,
{
    if i < s.len() && s[i].0 != id {
        lemma_kernel_index_bounds(s, id, i + 1);
    }
}

/// A successful notebook-index search lands in range, on the key.
proof fn lemma_notebook_index_bounds(s: Seq<(u32, NotebookView)>, id: u32, i: int)
    requires
        0 <= i,
        notebook_index(s, id, i) is Some,
    ensures
        i <= notebook_index(s, id, i).unwrap() < s.len(),
        s[notebook_index(s, id, i).unwrap()].0 == id,
    decreases s.len() - i,
{
    if i < s.len() && s[i].0 != id {
        lemma_notebook_index_bounds(s, id, i + 1);
    }
}

/// A successful run-index search lands in range, on the key.
proof fn lemma_run_index_bounds(s: Seq<(u128, RunView)>, id: u128, i: int)
    requires
        0 <= i,
        crate::notebook::run_index(s, id, i) is Some,
    ensures
        i <= crate::notebook::run_index(s, id, i).unwrap() < s.len(),
        s[crate::notebook::run_index(s, id, i).unwrap()].0 == id,
    decreases s.len() - i,
{
    if i < s.len() && s[i].0 != id {
        lemma_run_index_bounds(s, id, i + 1);
    }
}

/// Distinct keys stay distinct when an entry is removed.
proof fn lemma_distinct_remove<K, V>(s: Seq<(K, V)>, j: int)
    requires
        crate::scopes::keys_distinct(s),
        0 <= j < s.len(),
    ensures
        crate::scopes::keys_distinct(s.remove(j)),
{
    let t = s.remove(j);
    assert forall|a: int, b: int| 0 <= a < b < t.len() implies t[a].0 != t[b].0 by {
        let a0 = if a < j { a } else { a + 1 };
        let b0 = if b < j { b } else { b + 1 };
        assert(t[a] == s[a0]);
        assert(t[b] == s[b0]);
    }
}

/// A state stays well-formed when one notebook is replaced by a
/// well-formed notebook under the same key, all else equal.
proof fn lemma_state_wf_update_notebook(
    pre: crate::state::AppStateView,
    post: crate::state::AppStateView,
    i: int,
)
    requires
        state_wf(pre),
        0 <= i < pre.notebooks.len(),
        post.notebooks.len() == pre.notebooks.len(),
        post.notebooks[i].0 == pre.notebooks[i].0,
        crate::notebook::notebook_wf(post.notebooks[i].1),
        forall|j: int|
            0 <= j < pre.notebooks.len() && j != i ==> post.notebooks[j] == pre.notebooks[j],
        post.kernels == pre.kernels,
        post.id_counter == pre.id_counter,
    ensures
        state_wf(post),
{
    assert forall|a: int, b: int| 0 <= a < b < post.notebooks.len() implies post.notebooks[a].0
        != post.notebooks[b].0 by {
        assert(post.notebooks[a].0 == pre.notebooks[a].0);
        assert(post.notebooks[b].0 == pre.notebooks[b].0);
    }
    assert forall|j: int| 0 <= j < post.notebooks.len() implies crate::notebook::notebook_wf(
        (#[trigger] post.notebooks[j]).1,
    ) by {
        if j != i {
            assert(post.notebooks[j] == pre.notebooks[j]);
        }
    }
    assert forall|j: int| 0 <= j < post.notebooks.len() implies (#[trigger] post.notebooks[j]).0
        <= post.id_counter by {
        assert(post.notebooks[j].0 == pre.notebooks[j].0);
    }
}

/// Close a run: it is removed from its notebook; if it still referenced
/// a live kernel, that kernel's handle is removed and its cancellation
/// is signalled. Fails with `NotFound`, changing nothing, when the
/// notebook or the run does not exist.
pub fn close_run(state: &mut AppState, notebook_id: NotebookId, run_id: RunId) -> (r: Result<
    Vec<Effect>,
    CoreError,
>)
    requires
        state_wf(old(state)@),
    ensures
        state_wf(final(state)@),
        r is Err ==> final(state)@ == old(state)@ && r->Err_0 == CoreError::NotFound,
        r is Err <==> (match notebook_index(old(state)@.notebooks, notebook_id.id, 0) {
            Option::Some(ni) => crate::notebook::run_index(
                old(state)@.notebooks[ni].1.runs,
                run_id.id,
                0,
            ) is None,
            Option::None => true,
        }),
        r is Ok ==> {
            let ni = notebook_index(old(state)@.notebooks, notebook_id.id, 0).unwrap();
            let nb = old(state)@.notebooks[ni].1;
            let rj = crate::notebook::run_index(nb.runs, run_id.id, 0).unwrap();
            let rv = nb.runs[rj].1;
            let nb2 = NotebookView {
                runs: nb.runs.remove(rj),
                run_order: nb.run_order.remove(rj),
                ..nb
            };
            &&& final(state)@.notebooks == old(state)@.notebooks.update(ni, (notebook_id.id, nb2))
            &&& final(state)@.id_counter == old(state)@.id_counter
            &&& final(state)@.kernel_port == old(state)@.kernel_port
            &&& final(state)@.http_port == old(state)@.http_port
            &&& match rv.kernel {
                KernelStateView::Init(k) => stop_effects(old(state)@, final(state)@, k, r->Ok_0),
                KernelStateView::Running(k) => stop_effects(
                    old(state)@,
                    final(state)@,
                    k,
                    r->Ok_0,
                ),
                KernelStateView::Crashed(_) => final(state)@.kernels == old(state)@.kernels
                    && effects_view((r->Ok_0)@) == Seq::<EffectView>::empty(),
                KernelStateView::Closed => final(state)@.kernels == old(state)@.kernels
                    && effects_view((r->Ok_0)@) == Seq::<EffectView>::empty(),
            }
        },
{
    let ni = match state.notebook_index_of(notebook_id) {
        Some(ni) => ni,
        None => {
            return Err(CoreError::NotFound);
        },
    };
    let notebook = state.notebook_mut(ni);
    let run = match notebook.remove_run_by_id(run_id) {
        Ok(run) => run,
        Err(e) => {
            proof {
                assert(final(state)@.notebooks =~= old(state)@.notebooks);
                assert(final(state)@ =~= old(state)@);
            }
            return Err(e);
        },
    };
    proof {
        lemma_state_wf_update_notebook(old(state)@, state@, ni as int);
        lemma_notebook_index_bounds(old(state)@.notebooks, notebook_id.id, 0);
        let ni_i = ni as int;
        let nb = old(state)@.notebooks[ni_i].1;
        let rj = crate::notebook::run_index(nb.runs, run_id.id, 0).unwrap();
        let nb2 = NotebookView {
            runs: nb.runs.remove(rj),
            run_order: nb.run_order.remove(rj),
            ..nb
        };
        assert(state@.notebooks =~= old(state)@.notebooks.update(ni_i, (notebook_id.id, nb2)));
    }
    let mut effects: Vec<Effect> = Vec::new();
    let kernel_id = match run.kernel_state() {
        KernelState::Init(kernel_id) => Some(*kernel_id),
        KernelState::Running(kernel_id) => Some(*kernel_id),
        KernelState::Crashed(_) => None,
        KernelState::Closed => None,
    };
    match kernel_id {
        Some(kernel_id) => {
            let ghost mid = state@;
            match state.stop_kernel(kernel_id) {
                Some(_) => {
                    effects.push(Effect::StopKernel { kernel_id });
                    proof {
                        lemma_kernel_index_bounds(mid.kernels, kernel_id.id, 0);
                        let kj = kernel_index(mid.kernels, kernel_id.id, 0).unwrap();
                        lemma_distinct_remove(mid.kernels, kj);
                        assert(effects_view(effects@) =~= seq![
                            EffectView::StopKernel { kernel_id: kernel_id.id },
                        ]);
                    }
                },
                None => {
                    proof {
                        assert(effects_view(effects@) =~= Seq::<EffectView>::empty());
                    }
                },
            }
        },
        None => {
            proof {
                assert(effects_view(effects@) =~= Seq::<EffectView>::empty());
            }
        },
    }
    Ok(effects)
}

/// What starting a kernel under minted id `k` does: the run appears in
/// `Init(k)` with fresh fields, appended to the notebook, and exactly
/// one spawn effect is issued with the listener port.
pub open spec fn start_kernel_outcome(
    pre: crate::state::AppStateView,
    post: crate::state::AppStateView,
    effects: Seq<EffectView>,
    notebook_id: NotebookId,
    run_id: RunId,
    title: Seq<char>,
    created: int,
    k: u128,
) -> bool {
    let ni = notebook_index(pre.notebooks, notebook_id.id, 0).unwrap();
    let nb = pre.notebooks[ni].1;
    let rv0 = RunView {
        title,
        output_cells: Seq::empty(),
        kernel: KernelStateView::Init(k),
        queue: 0,
        globals: crate::scopes::empty_globals_view(),
        created,
    };
    let nb2 = NotebookView {
        runs: nb.runs.push((run_id.id, rv0)),
        run_order: nb.run_order.push(run_id.id),
        ..nb
    };
    &&& post == (crate::state::AppStateView {
        notebooks: pre.notebooks.update(ni, (notebook_id.id, nb2)),
        ..pre
    })
    &&& effects == seq![
        EffectView::SpawnKernel {
            kernel_ctx: KernelCtx { kernel_id: KernelId { id: k }, notebook_id, run_id },
            kernel_port: pre.kernel_port,
        },
    ]
}

/// Start a kernel for a fresh run: the run is created in `Init` under a
/// newly minted kernel id, appended to the notebook, and the shell is
/// asked to spawn the child process. The kernel id is random, so the
/// contract only fixes everything relative to it.
pub fn start_kernel(
    state: &mut AppState,
    notebook_id: NotebookId,
    run_id: RunId,
    run_title: String,
    created: i128,
) -> (r: Result<(KernelId, Vec<Effect>), CoreError>)
    requires
        state_wf(old(state)@),
    ensures
        state_wf(final(state)@),
        r is Err ==> final(state)@ == old(state)@,
        r is Err ==> (match notebook_index(old(state)@.notebooks, notebook_id.id, 0) {
            Option::Some(ni) => r->Err_0 == CoreError::DuplicateRun && crate::notebook::run_index(
                old(state)@.notebooks[ni].1.runs,
                run_id.id,
                0,
            ) is Some,
            Option::None => r->Err_0 == CoreError::NotFound,
        }),
        r is Ok ==> notebook_index(old(state)@.notebooks, notebook_id.id, 0) is Some,
        r is Ok ==> {
            let ni = notebook_index(old(state)@.notebooks, notebook_id.id, 0).unwrap();
            let nb = old(state)@.notebooks[ni].1;
            &&& crate::notebook::run_index(nb.runs, run_id.id, 0) is None
            &&& start_kernel_outcome(
                old(state)@,
                final(state)@,
                effects_view((r->Ok_0).1@),
                notebook_id,
                run_id,
                run_title@,
                created as int,
                (r->Ok_0).0.id,
            )
        },
{
    let kernel_port = state.kernel_port();
    let ni = match state.notebook_index_of(notebook_id) {
        Some(ni) => ni,
        None => {
            return Err(CoreError::NotFound);
        },
    };
    let kernel_id = KernelId::new(crate::ids::fresh_uuid_bits());
    let notebook = state.notebook_mut(ni);
    if notebook.has_run(run_id) {
        proof {
            assert(final(state)@.notebooks =~= old(state)@.notebooks);
            assert(final(state)@ =~= old(state)@);
        }
        return Err(CoreError::DuplicateRun);
    }
    let run = Run::new(
        run_title,
        Vec::new(),
        KernelState::Init(kernel_id),
        SerializedGlobals::default(),
        created,
    );
    proof {
        assert(run@.output_cells =~= Seq::<crate::notebook::OutputCellView>::empty());
    }
    notebook.add_run(run_id, run);
    proof {
        lemma_state_wf_update_notebook(old(state)@, state@, ni as int);
        lemma_notebook_index_bounds(old(state)@.notebooks, notebook_id.id, 0);
        let ni_i = ni as int;
        let nb = old(state)@.notebooks[ni_i].1;
        let rv0 = RunView {
            title: run_title@,
            output_cells: Seq::empty(),
            kernel: KernelStateView::Init(kernel_id.id),
            queue: 0,
            globals: crate::scopes::empty_globals_view(),
            created: created as int,
        };
        let nb2 = NotebookView {
            runs: nb.runs.push((run_id.id, rv0)),
            run_order: nb.run_order.push(run_id.id),
            ..nb
        };
        assert(state@.notebooks =~= old(state)@.notebooks.update(ni_i, (notebook_id.id, nb2)));
        assert(state@ =~= (crate::state::AppStateView {
            notebooks: old(state)@.notebooks.update(ni_i, (notebook_id.id, nb2)),
            ..old(state)@
        }));
    }
    let kernel_ctx = KernelCtx { kernel_id, notebook_id, run_id };
    let mut effects: Vec<Effect> = Vec::new();
    effects.push(Effect::SpawnKernel { kernel_ctx, kernel_port });
    proof {
        assert(effects_view(effects@) =~= seq![
            EffectView::SpawnKernel { kernel_ctx, kernel_port: old(state)@.kernel_port },
        ]);
        assert(start_kernel_outcome(
            old(state)@,
            state@,
            effects_view(effects@),
            notebook_id,
            run_id,
            run_title@,
            created as int,
            kernel_id.id,
        ));
    }
    Ok((kernel_id, effects))
}

/// Register the handle of a successfully spawned kernel child.
pub fn kernel_spawned(state: &mut AppState, kernel_ctx: KernelCtx, pid: u32) -> (r: Result<
    (),
    CoreError,
>)
    requires
        state_wf(old(state)@),
    ensures
        state_wf(final(state)@),
        r is Ok <==> kernel_index(old(state)@.kernels, kernel_ctx.kernel_id.id, 0) is None,
        r is Ok ==> final(state)@ == (crate::state::AppStateView {
            kernels: old(state)@.kernels.push(
                (
                    kernel_ctx.kernel_id.id,
                    KernelHandleView {
                        state: crate::kernel::HandleStateView::Init { pending: Seq::empty() },
                        kernel_ctx,
                        pid,
                    },
                ),
            ),
            ..old(state)@
        }),
        r is Err ==> final(state)@ == old(state)@ && r->Err_0 == CoreError::DuplicateKernel,
{
    match state.kernel_index_of(kernel_ctx.kernel_id) {
        Some(_) => Err(CoreError::DuplicateKernel),
        None => {
            let handle = KernelHandle::new(kernel_ctx, pid);
            state.add_kernel(kernel_ctx.kernel_id, handle);
            proof {
                let post = final(state)@;
                assert forall|a: int, b: int|
                    0 <= a < b < post.kernels.len() implies post.kernels[a].0
                    != post.kernels[b].0 by {
                    if b < post.kernels.len() - 1 {
                        assert(post.kernels[a] == old(state)@.kernels[a]);
                        assert(post.kernels[b] == old(state)@.kernels[b]);
                    } else {
                        lemma_kernel_index_none(
                            old(state)@.kernels,
                            kernel_ctx.kernel_id.id,
                            0,
                        );
                        assert(post.kernels[a] == old(state)@.kernels[a]);
                    }
                }
            }
            Ok(())
        },
    }
}

/// A failed index search means no entry has the key.
proof fn lemma_kernel_index_none(s: Seq<(u128, KernelHandleView)>, id: u128, i: int)
    requires
        0 <= i,
        kernel_index(s, id, i) is None,
    ensures
        forall|j: int| i <= j < s.len() ==> (#[trigger] s[j]).0 != id,
    decreases s.len() - i,
{
    if i < s.len() {
        lemma_kernel_index_none(s, id, i + 1);
    }
}

/// What crashing the run at notebook `ni`, run `rj` with `message`
/// means: the run is detached as crashed with an empty queue, and a
/// `KernelCrashed` message goes to the notebook's observer slot.
pub open spec fn crashed_outcome(
    pre: crate::state::AppStateView,
    post: crate::state::AppStateView,
    effects: Seq<EffectView>,
    ni: int,
    rj: int,
    message: Seq<char>,
) -> bool {
    let nb = pre.notebooks[ni].1;
    let rv = nb.runs[rj].1;
    let rv2 = RunView { kernel: KernelStateView::Crashed(message), queue: 0, ..rv };
    let nb2 = NotebookView { runs: nb.runs.update(rj, (nb.runs[rj].0, rv2)), ..nb };
    &&& post == (crate::state::AppStateView {
        notebooks: pre.notebooks.update(ni, (pre.notebooks[ni].0, nb2)),
        ..pre
    })
    &&& effects == emit_spec(
        Seq::<EffectView>::empty(),
        nb.observer,
        ToClientMessageView::KernelCrashed {
            notebook_id: pre.notebooks[ni].0,
            run_id: nb.runs[rj].0,
            message,
        },
    )
}

/// Mark a run crashed and tell its observer. Shared by the
/// spawn-failure and child-exit paths; if the notebook or run is gone,
/// nothing happens.
fn crash_run(
    state: &mut AppState,
    notebook_id: NotebookId,
    run_id: RunId,
    message: String,
) -> (r: Vec<Effect>)
    requires
        state_wf(old(state)@),
    ensures
        state_wf(final(state)@),
        match notebook_index(old(state)@.notebooks, notebook_id.id, 0) {
            Option::Some(ni) => match crate::notebook::run_index(
                old(state)@.notebooks[ni].1.runs,
                run_id.id,
                0,
            ) {
                Option::Some(rj) => crashed_outcome(
                    old(state)@,
                    final(state)@,
                    effects_view(r@),
                    ni,
                    rj,
                    message@,
                ),
                Option::None => final(state)@ == old(state)@ && effects_view(r@) == Seq::<
                    EffectView,
                >::empty(),
            },
            Option::None => final(state)@ == old(state)@ && effects_view(r@) == Seq::<
                EffectView,
            >::empty(),
        },
{
    let mut effects: Vec<Effect> = Vec::new();
    let ni = match state.notebook_index_of(notebook_id) {
        Some(ni) => ni,
        None => {
            proof {
                assert(effects_view(effects@) =~= Seq::<EffectView>::empty());
            }
            return effects;
        },
    };
    let notebook = state.notebook_mut(ni);
    let rj = match notebook.run_index_of(run_id) {
        Some(rj) => rj,
        None => {
            proof {
                assert(final(state)@.notebooks =~= old(state)@.notebooks);
                assert(final(state)@ =~= old(state)@);
                assert(effects_view(effects@) =~= Seq::<EffectView>::empty());
            }
            return effects;
        },
    };
    let ghost message_v = message@;
    let message_for_observer = message.clone();
    let observer = notebook.observer();
    let run = notebook.run_mut(rj);
    run.set_crashed_kernel(message);
    proof {
        lemma_notebook_index_bounds(old(state)@.notebooks, notebook_id.id, 0);
        lemma_run_index_bounds(old(state)@.notebooks[ni as int].1.runs, run_id.id, 0);
        let nb = old(state)@.notebooks[ni as int].1;
        let rv = nb.runs[rj as int].1;
        let rv2 = RunView { kernel: KernelStateView::Crashed(message_v), queue: 0, ..rv };
        let nb2 = NotebookView { runs: nb.runs.update(rj as int, (nb.runs[rj as int].0, rv2)), ..nb };
        assert(state@.notebooks[ni as int].1.runs =~= nb2.runs);
        assert(state@.notebooks[ni as int].1 =~= nb2);
        assert(state@.notebooks =~= old(state)@.notebooks.update(
            ni as int,
            (old(state)@.notebooks[ni as int].0, nb2),
        ));
        assert(state@ =~= (crate::state::AppStateView {
            notebooks: old(state)@.notebooks.update(
                ni as int,
                (old(state)@.notebooks[ni as int].0, nb2),
            ),
            ..old(state)@
        }));
        assert(nb2.run_order =~= Seq::new(nb2.runs.len(), |i: int| nb2.runs[i].0));
        lemma_state_wf_update_notebook(old(state)@, state@, ni as int);
    }
    emit_to(
        observer,
        ToClientMessage::KernelCrashed { notebook_id, run_id, message: message_for_observer },
        &mut effects,
    );
    proof {
        assert(effects_view(effects@) == emit_spec(
            Seq::<EffectView>::empty(),
            observer,
            ToClientMessageView::KernelCrashed {
                notebook_id: notebook_id.id,
                run_id: run_id.id,
                message: message_v,
            },
        ));
    }
    effects
}

/// The child of a spawned kernel could not be started: its run crashes
/// with the spawn error's message.
pub fn kernel_spawn_failed(state: &mut AppState, kernel_ctx: KernelCtx, message: String) -> (r:
    Vec<Effect>)
    requires
        state_wf(old(state)@),
    ensures
        state_wf(final(state)@),
        match notebook_index(old(state)@.notebooks, kernel_ctx.notebook_id.id, 0) {
            Option::Some(ni) => match crate::notebook::run_index(
                old(state)@.notebooks[ni].1.runs,
                kernel_ctx.run_id.id,
                0,
            ) {
                Option::Some(rj) => crashed_outcome(
                    old(state)@,
                    final(state)@,
                    effects_view(r@),
                    ni,
                    rj,
                    message@,
                ),
                Option::None => final(state)@ == old(state)@ && effects_view(r@) == Seq::<
                    EffectView,
                >::empty(),
            },
            Option::None => final(state)@ == old(state)@ && effects_view(r@) == Seq::<
                EffectView,
            >::empty(),
        },
{
    crash_run(state, kernel_ctx.notebook_id, kernel_ctx.run_id, message)
}

/// A kernel child exited on its own: its run crashes with the fixed
/// message "Process unexpectedly closed". The handle, if any, stays
/// registered, as the shell's watcher owns its teardown.
pub fn kernel_exited(state: &mut AppState, kernel_id: KernelId) -> (r: Vec<Effect>)
    requires
        state_wf(old(state)@),
    ensures
        state_wf(final(state)@),
        match kernel_index(old(state)@.kernels, kernel_id.id, 0) {
            Option::Some(ki) => {
                let ctx = old(state)@.kernels[ki].1.kernel_ctx;
                match notebook_index(old(state)@.notebooks, ctx.notebook_id.id, 0) {
                    Option::Some(ni) => match crate::notebook::run_index(
                        old(state)@.notebooks[ni].1.runs,
                        ctx.run_id.id,
                        0,
                    ) {
                        Option::Some(rj) => crashed_outcome(
                            old(state)@,
                            final(state)@,
                            effects_view(r@),
                            ni,
                            rj,
                            "Process unexpectedly closed"@,
                        ),
                        Option::None => final(state)@ == old(state)@ && effects_view(r@) == Seq::<
                            EffectView,
                        >::empty(),
                    },
                    Option::None => final(state)@ == old(state)@ && effects_view(r@) == Seq::<
                        EffectView,
                    >::empty(),
                }
            },
            Option::None => final(state)@ == old(state)@ && effects_view(r@) == Seq::<
                EffectView,
            >::empty(),
        },
{
    let ki = match state.kernel_index_of(kernel_id) {
        Some(ki) => ki,
        None => {
            let effects: Vec<Effect> = Vec::new();
            proof {
                assert(effects_view(effects@) =~= Seq::<EffectView>::empty());
            }
            return effects;
        },
    };
    let handle = state.kernel_at(ki);
    let notebook_id = handle.notebook_id();
    let run_id = handle.run_id();
    crash_run(state, notebook_id, run_id, String::from_str("Process unexpectedly closed"))
}

/// A state stays well-formed when one kernel handle is replaced under
/// the same key, all else equal.
proof fn lemma_state_wf_update_kernel(
    pre: crate::state::AppStateView,
    post: crate::state::AppStateView,
    i: int,
)
    requires
        state_wf(pre),
        0 <= i < pre.kernels.len(),
        post.kernels.len() == pre.kernels.len(),
        post.kernels[i].0 == pre.kernels[i].0,
        forall|j: int| 0 <= j < pre.kernels.len() && j != i ==> post.kernels[j] == pre.kernels[j],
        post.notebooks == pre.notebooks,
        post.id_counter == pre.id_counter,
    ensures
        state_wf(post),
{
    assert forall|a: int, b: int| 0 <= a < b < post.kernels.len() implies post.kernels[a].0
        != post.kernels[b].0 by {
        assert(post.kernels[a].0 == pre.kernels[a].0);
        assert(post.kernels[b].0 == pre.kernels[b].0);
    }
}

/// The id of the kernel a run still references, if its state is live.
pub open spec fn live_kernel(k: KernelStateView) -> Option<u128> {
    match k {
        KernelStateView::Init(id) => Option::Some(id),
        KernelStateView::Running(id) => Option::Some(id),
        KernelStateView::Crashed(_) => Option::None,
        KernelStateView::Closed => Option::None,
    }
}

/// What dispatching `Compute(cell_id, code)` toward the run's kernel
/// does: with no live kernel id, or no registered handle, nothing; with
/// a handle, one `handle_send` step on its mailbox, and a forward
/// effect exactly when the handle was already `Ready`.
pub open spec fn dispatch_outcome(
    pre: crate::state::AppStateView,
    post: crate::state::AppStateView,
    effects: Seq<EffectView>,
    kernel: KernelStateView,
    code: crate::messages::CodeGroupView,
    cell_id: u128,
) -> bool {
    let m = ToKernelMessageView::Compute(cell_id, code);
    match live_kernel(kernel) {
        Option::Some(k) => match kernel_index(pre.kernels, k, 0) {
            Option::Some(ki) => {
                let h = pre.kernels[ki].1;
                &&& post.kernels == pre.kernels.update(
                    ki,
                    (
                        pre.kernels[ki].0,
                        KernelHandleView { state: handle_send(h.state, m), ..h },
                    ),
                )
                &&& effects == if h.state is Ready {
                    seq![EffectView::SendKernel { kernel_id: k, message: m }]
                } else {
                    Seq::<EffectView>::empty()
                }
            },
            Option::None => post.kernels == pre.kernels && effects == Seq::<EffectView>::empty(),
        },
        Option::None => post.kernels == pre.kernels && effects == Seq::<EffectView>::empty(),
    }
}

/// What a `run_code` request does: a fresh running output cell `cellv`
/// is appended to the run, the queue counts one more pending
/// computation, and the compute message is dispatched toward the run's
/// kernel.
pub open spec fn run_code_outcome(
    pre: crate::state::AppStateView,
    post: crate::state::AppStateView,
    effects: Seq<EffectView>,
    notebook_id: NotebookId,
    run_id: RunId,
    cellv: crate::notebook::OutputCellView,
    code: crate::messages::CodeGroupView,
    cell_id: u128,
) -> bool {
    let ni = notebook_index(pre.notebooks, notebook_id.id, 0).unwrap();
    let nb = pre.notebooks[ni].1;
    let rj = crate::notebook::run_index(nb.runs, run_id.id, 0).unwrap();
    let rv = nb.runs[rj].1;
    let rv2 = RunView {
        output_cells: rv.output_cells.push(cellv),
        queue: (rv.queue + 1) as nat,
        ..rv
    };
    let nb2 = NotebookView { runs: nb.runs.update(rj, (nb.runs[rj].0, rv2)), ..nb };
    &&& post.notebooks == pre.notebooks.update(ni, (pre.notebooks[ni].0, nb2))
    &&& post.id_counter == pre.id_counter
    &&& post.kernel_port == pre.kernel_port
    &&& post.http_port == pre.http_port
    &&& dispatch_outcome(pre, post, effects, rv.kernel, code, cell_id)
}

/// Execute a cell: append a fresh output cell to the run, count the
/// pending computation, and dispatch the compute message to the run's
/// kernel if one is live. Fails with `NotFound`, changing nothing, when
/// the notebook or the run does not exist.
pub fn run_code(state: &mut AppState, msg: RunCodeMsg) -> (r: Result<Vec<Effect>, CoreError>)
    requires
        state_wf(old(state)@),
    ensures
        state_wf(final(state)@),
        r is Err ==> final(state)@ == old(state)@ && r->Err_0 == CoreError::NotFound,
        r is Err <==> (match notebook_index(old(state)@.notebooks, msg.notebook_id.id, 0) {
            Option::Some(ni) => crate::notebook::run_index(
                old(state)@.notebooks[ni].1.runs,
                msg.run_id.id,
                0,
            ) is None,
            Option::None => true,
        }),
        r is Ok ==> run_code_outcome(
            old(state)@,
            final(state)@,
            effects_view((r->Ok_0)@),
            msg.notebook_id,
            msg.run_id,
            crate::notebook::OutputCellView {
                id: msg.cell_id.id,
                values: Seq::empty(),
                flag: OutputFlag::Running,
                editor_node: msg.editor_node@,
                called_id: msg.called_id.id,
            },
            crate::notebook::code_of_editor_group(msg.editor_node@),
            msg.cell_id.id,
        ),
{
    let RunCodeMsg { notebook_id, run_id, cell_id, editor_node, called_id } = msg;
    let ni = match state.notebook_index_of(notebook_id) {
        Some(ni) => ni,
        None => {
            return Err(CoreError::NotFound);
        },
    };
    let notebook = state.notebook_mut(ni);
    let rj = match notebook.run_index_of(run_id) {
        Some(rj) => rj,
        None => {
            proof {
                assert(final(state)@.notebooks =~= old(state)@.notebooks);
                assert(final(state)@ =~= old(state)@);
            }
            return Err(CoreError::NotFound);
        },
    };
    let ghost editor_v = editor_node@;
    let code = editor_node.to_code_group();
    let cell = OutputCell::new(cell_id, editor_node, called_id);
    let ghost cellv = cell@;
    proof {
        assert(cellv =~= (crate::notebook::OutputCellView {
            id: cell_id.id,
            values: Seq::empty(),
            flag: OutputFlag::Running,
            editor_node: editor_v,
            called_id: called_id.id,
        }));
    }
    proof {
        assert(run_wf(old(state)@.notebooks[ni as int].1.runs[rj as int].1));
    }
    let run = notebook.run_mut(rj);
    run.add_output_cell(cell);
    run.queue_increment();
    let kid_opt = run.kernel_id();
    proof {
        lemma_notebook_index_bounds(old(state)@.notebooks, notebook_id.id, 0);
        lemma_run_index_bounds(old(state)@.notebooks[ni as int].1.runs, run_id.id, 0);
        let nb = old(state)@.notebooks[ni as int].1;
        let rj_i = rj as int;
        let rv = nb.runs[rj_i].1;
        let rv2 = RunView {
            output_cells: rv.output_cells.push(cellv),
            queue: (rv.queue + 1) as nat,
            ..rv
        };
        let nb2 = NotebookView { runs: nb.runs.update(rj_i, (nb.runs[rj_i].0, rv2)), ..nb };
        assert(state@.notebooks[ni as int].1.runs =~= nb2.runs);
        assert(state@.notebooks[ni as int].1 =~= nb2);
        assert(state@.notebooks =~= old(state)@.notebooks.update(
            ni as int,
            (old(state)@.notebooks[ni as int].0, nb2),
        ));
        assert(nb2.run_order =~= Seq::new(nb2.runs.len(), |i: int| nb2.runs[i].0));
        lemma_state_wf_update_notebook(old(state)@, state@, ni as int);
    }
    let ghost mid = state@;
    let mut effects: Vec<Effect> = Vec::new();
    let kid = match kid_opt {
        Some(kid) => kid,
        None => {
            proof {
                assert(effects_view(effects@) =~= Seq::<EffectView>::empty());
            }
            return Ok(effects);
        },
    };
    let ki = match state.kernel_index_of(kid) {
        Some(ki) => ki,
        None => {
            proof {
                assert(effects_view(effects@) =~= Seq::<EffectView>::empty());
            }
            return Ok(effects);
        },
    };
    let handle = state.kernel_mut(ki);
    let ghost hv = (*handle)@;
    let message = ToKernelMessage::Compute(ComputeMsg { cell_id, code });
    let ghost mv = message@;
    let fwd = handle.send_message(message);
    proof {
        lemma_kernel_index_bounds(mid.kernels, kid.id, 0);
        assert(state@.kernels =~= mid.kernels.update(
            ki as int,
            (mid.kernels[ki as int].0, (KernelHandleView { state: handle_send(hv.state, mv), ..hv })),
        ));
        lemma_state_wf_update_kernel(mid, state@, ki as int);
    }
    match fwd {
        Some(m) => {
            effects.push(Effect::SendKernel { kernel_id: kid, message: m });
            proof {
                assert(effects_view(effects@) =~= seq![
                    EffectView::SendKernel { kernel_id: kid.id, message: mv },
                ]);
            }
        },
        None => {
            proof {
                assert(effects_view(effects@) =~= Seq::<EffectView>::empty());
            }
        },
    }
    Ok(effects)
}

/// A successful last-cell search lands in range, on the id.
proof fn lemma_find_last_cell_bounds(
    cells: Seq<crate::notebook::OutputCellView>,
    id: u128,
    i: int,
)
    requires
        find_last_cell(cells, id, i) is Some,
    ensures
        0 <= find_last_cell(cells, id, i).unwrap() <= i,
        find_last_cell(cells, id, i).unwrap() < cells.len(),
        cells[find_last_cell(cells, id, i).unwrap()].id == id,
    decreases i + 1,
{
    if 0 <= i < cells.len() && cells[i].id != id {
        lemma_find_last_cell_bounds(cells, id, i - 1);
    }
}

/// Whether a flag is terminal.
pub open spec fn flag_final(flag: OutputFlag) -> bool {
    flag == OutputFlag::Success || flag == OutputFlag::Fail
}

/// What a kernel `Output` message does, once its run is found, its
/// queue can take a terminal flag, and its update applies: the globals
/// take the update, a terminal flag releases one queue slot, one
/// `Output` message goes to the observer carrying the translated value,
/// the forwarded update and the projected kernel state, and the value
/// lands in the last cell with the given id — or, if no such cell
/// exists, the value is ignored and an `Error` message follows.
pub open spec fn output_outcome(
    pre: crate::state::AppStateView,
    post: crate::state::AppStateView,
    effects: Seq<EffectView>,
    kernel_ctx: KernelCtx,
    value: crate::messages::OutputValueView,
    cell: u128,
    flag: OutputFlag,
    upd: Option<crate::scopes::GlobalsUpdateView>,
) -> bool {
    let ni = notebook_index(pre.notebooks, kernel_ctx.notebook_id.id, 0).unwrap();
    let nb = pre.notebooks[ni].1;
    let rj = crate::notebook::run_index(nb.runs, kernel_ctx.run_id.id, 0).unwrap();
    let rv = nb.runs[rj].1;
    let g2 = match upd {
        Option::Some(u) => apply_view(u, Option::Some(rv.globals)),
        Option::None => rv.globals,
    };
    let q2 = if flag_final(flag) {
        (rv.queue - 1) as nat
    } else {
        rv.queue
    };
    let rv2 = RunView { globals: g2, queue: q2, ..rv };
    let outmsg = ToClientMessageView::Output {
        notebook_id: kernel_ctx.notebook_id.id,
        run_id: kernel_ctx.run_id.id,
        cell_id: cell,
        value,
        flag,
        update: upd,
        kernel_state: kernel_state_desc_of(rv2.kernel, q2),
    };
    let found = find_last_cell(rv.output_cells, cell, rv.output_cells.len() - 1);
    let rv3 = if found is Some {
        run_add_output(rv2, cell, value, flag)
    } else {
        rv2
    };
    let effs = if found is Some {
        emit_spec(Seq::empty(), nb.observer, outmsg)
    } else {
        emit_spec(
            emit_spec(Seq::empty(), nb.observer, outmsg),
            nb.observer,
            ToClientMessageView::Error {
                message: crate::errors::message_of(CoreError::CellNotFound),
            },
        )
    };
    &&& post == (crate::state::AppStateView {
        notebooks: pre.notebooks.update(
            ni,
            (
                pre.notebooks[ni].0,
                NotebookView { runs: nb.runs.update(rj, (nb.runs[rj].0, rv3)), ..nb },
            ),
        ),
        ..pre
    })
    &&& effects == effs
}

/// Route one message from a kernel connection. A second `Login` is a
/// protocol violation; an `Output` lands in its run as
/// [`output_outcome`] says. Failures change nothing: an unknown run, a
/// terminal flag on an empty queue, or an update whose unchanged
/// sentinels find no previous value.
pub fn process_kernel_message(
    state: &mut AppState,
    kernel_ctx: KernelCtx,
    msg: FromKernelMessage,
) -> (r: Result<Vec<Effect>, CoreError>)
    requires
        state_wf(old(state)@),
    ensures
        state_wf(final(state)@),
        r is Err ==> final(state)@ == old(state)@,
        (match msg {
            FromKernelMessage::Login { .. } => r is Err && r->Err_0 == CoreError::Codec,
            FromKernelMessage::Output { value, cell_id, flag, update } => {
                let uv = match update {
                    Option::Some(u) => Option::Some(u@),
                    Option::None => Option::<crate::scopes::GlobalsUpdateView>::None,
                };
                match notebook_index(old(state)@.notebooks, kernel_ctx.notebook_id.id, 0) {
                    Option::None => r is Err && r->Err_0 == CoreError::NotFound,
                    Option::Some(ni) => {
                        let nb = old(state)@.notebooks[ni].1;
                        match crate::notebook::run_index(nb.runs, kernel_ctx.run_id.id, 0) {
                            Option::None => r is Err && r->Err_0 == CoreError::NotFound,
                            Option::Some(rj) => {
                                let rv = nb.runs[rj].1;
                                if flag_final(flag) && rv.queue == 0 {
                                    r is Err && r->Err_0 == CoreError::QueueEmpty
                                } else if uv is Some && !apply_ok(
                                    uv.unwrap(),
                                    Option::Some(rv.globals),
                                ) {
                                    r is Err && r->Err_0 == CoreError::IllFormedUpdate
                                } else {
                                    r is Ok && output_outcome(
                                        old(state)@,
                                        final(state)@,
                                        effects_view((r->Ok_0)@),
                                        kernel_ctx,
                                        value@,
                                        cell_id.id,
                                        flag,
                                        uv,
                                    )
                                }
                            },
                        }
                    },
                }
            },
        }),
{
    let (value, cell_id, flag, update) = match msg {
        FromKernelMessage::Login { .. } => {
            return Err(CoreError::Codec);
        },
        FromKernelMessage::Output { value, cell_id, flag, update } => (
            value,
            cell_id,
            flag,
            update,
        ),
    };
    let ghost uv: Option<crate::scopes::GlobalsUpdateView> = match &update {
        Option::Some(u) => Option::Some(u@),
        Option::None => Option::None,
    };
    let ni = match state.notebook_index_of(kernel_ctx.notebook_id) {
        Some(ni) => ni,
        None => {
            return Err(CoreError::NotFound);
        },
    };
    let notebook = state.notebook_mut(ni);
    let rj = match notebook.run_index_of(kernel_ctx.run_id) {
        Some(rj) => rj,
        None => {
            proof {
                assert(final(state)@.notebooks =~= old(state)@.notebooks);
                assert(final(state)@ =~= old(state)@);
            }
            return Err(CoreError::NotFound);
        },
    };
    let observer = notebook.observer();
    let run = notebook.run_mut(rj);
    let is_final = flag.is_final();
    if is_final && run.queue_depth() == 0 {
        proof {
            assert(final(state)@.notebooks[ni as int].1.runs =~= old(
                state,
            )@.notebooks[ni as int].1.runs);
            assert(final(state)@.notebooks[ni as int].1 =~= old(state)@.notebooks[ni as int].1);
            assert(final(state)@.notebooks =~= old(state)@.notebooks);
            assert(final(state)@ =~= old(state)@);
        }
        return Err(CoreError::QueueEmpty);
    }
    match &update {
        Some(u) => {
            match run.update_globals(u) {
                Ok(()) => {},
                Err(e) => {
                    proof {
                        assert(final(state)@.notebooks[ni as int].1.runs =~= old(
                            state,
                        )@.notebooks[ni as int].1.runs);
                        assert(final(state)@.notebooks[ni as int].1 =~= old(
                            state,
                        )@.notebooks[ni as int].1);
                        assert(final(state)@.notebooks =~= old(state)@.notebooks);
                        assert(final(state)@ =~= old(state)@);
                    }
                    return Err(e);
                },
            }
        },
        None => {},
    }
    if is_final {
        run.queue_decrement();
    }
    let kernel_state = run.kernel_state_desc();
    let translated = OutputValue::new(value);
    let value_for_store = translated.duplicate();
    let mut effects: Vec<Effect> = Vec::new();
    proof {
        assert(effects_view(effects@) =~= Seq::<EffectView>::empty());
    }
    emit_to(
        observer,
        ToClientMessage::Output {
            notebook_id: kernel_ctx.notebook_id,
            run_id: kernel_ctx.run_id,
            cell_id,
            value: translated,
            flag,
            update,
            kernel_state,
        },
        &mut effects,
    );
    let stored = run.add_output(cell_id, value_for_store, flag);
    match stored {
        Ok(()) => {},
        Err(e) => {
            emit_to(
                observer,
                ToClientMessage::Error { message: String::from_str(e.message()) },
                &mut effects,
            );
        },
    }
    proof {
        lemma_notebook_index_bounds(old(state)@.notebooks, kernel_ctx.notebook_id.id, 0);
        lemma_run_index_bounds(
            old(state)@.notebooks[ni as int].1.runs,
            kernel_ctx.run_id.id,
            0,
        );
        let nb = old(state)@.notebooks[ni as int].1;
        let rj_i = rj as int;
        let rv = nb.runs[rj_i].1;
        let g2 = match uv {
            Option::Some(u) => apply_view(u, Option::Some(rv.globals)),
            Option::None => rv.globals,
        };
        let q2 = if flag_final(flag) {
            (rv.queue - 1) as nat
        } else {
            rv.queue
        };
        let rv2 = RunView { globals: g2, queue: q2, ..rv };
        let found = find_last_cell(rv.output_cells, cell_id.id, rv.output_cells.len() - 1);
        let rv3 = if found is Some {
            run_add_output(rv2, cell_id.id, translated@, flag)
        } else {
            rv2
        };
        assert(state@.notebooks[ni as int].1.runs[rj_i].1 =~= rv3);
        let nb2 = NotebookView { runs: nb.runs.update(rj_i, (nb.runs[rj_i].0, rv3)), ..nb };
        assert(state@.notebooks[ni as int].1.runs =~= nb2.runs);
        assert(state@.notebooks[ni as int].1 =~= nb2);
        assert(state@.notebooks =~= old(state)@.notebooks.update(
            ni as int,
            (old(state)@.notebooks[ni as int].0, nb2),
        ));
        assert(state@ =~= (crate::state::AppStateView {
            notebooks: old(state)@.notebooks.update(
                ni as int,
                (old(state)@.notebooks[ni as int].0, nb2),
            ),
            ..old(state)@
        }));
        assert(nb2.run_order =~= Seq::new(nb2.runs.len(), |i: int| nb2.runs[i].0));
        assert(crate::notebook::notebook_wf(nb));
        assert(run_wf(rv));
        if found is Some {
            lemma_find_last_cell_bounds(rv.output_cells, cell_id.id, rv.output_cells.len() - 1);
        }
        assert(run_wf(rv3));
        lemma_state_wf_update_notebook(old(state)@, state@, ni as int);
    }
    Ok(effects)
}

/// What a successful kernel login does: the handle's pending messages
/// are drained, in order, for the connection's mailbox; the handle is
/// `Ready`; the run is `Running`; its observer learns `KernelReady`.
pub open spec fn login_outcome(
    pre: crate::state::AppStateView,
    post: crate::state::AppStateView,
    drained: Seq<ToKernelMessageView>,
    effects: Seq<EffectView>,
    kernel_id: KernelId,
) -> bool {
    let ki = kernel_index(pre.kernels, kernel_id.id, 0).unwrap();
    let h = pre.kernels[ki].1;
    let ni = notebook_index(pre.notebooks, h.kernel_ctx.notebook_id.id, 0).unwrap();
    let nb = pre.notebooks[ni].1;
    let rj = crate::notebook::run_index(nb.runs, h.kernel_ctx.run_id.id, 0).unwrap();
    let rv = nb.runs[rj].1;
    let rv2 = RunView { kernel: KernelStateView::Running(kernel_id.id), ..rv };
    let nb2 = NotebookView { runs: nb.runs.update(rj, (nb.runs[rj].0, rv2)), ..nb };
    let h2 = KernelHandleView { state: handle_ready(h.state), ..h };
    &&& drained == h.state->Init_pending
    &&& post == (crate::state::AppStateView {
        notebooks: pre.notebooks.update(ni, (pre.notebooks[ni].0, nb2)),
        kernels: pre.kernels.update(ki, (pre.kernels[ki].0, h2)),
        ..pre
    })
    &&& effects == emit_spec(
        Seq::empty(),
        nb.observer,
        ToClientMessageView::KernelReady {
            notebook_id: h.kernel_ctx.notebook_id.id,
            run_id: h.kernel_ctx.run_id.id,
        },
    )
}

/// Handle a kernel's `Login`: only accepted for a registered handle
/// still in its initial state whose run still awaits this kernel; then
/// the buffered messages are drained in order for the connection, the
/// run becomes `Running`, and the observer learns `KernelReady`. Any
/// failure changes nothing and the caller closes the connection.
pub fn kernel_login(state: &mut AppState, kernel_id: KernelId) -> (r: Result<
    (KernelCtx, Vec<ToKernelMessage>, Vec<Effect>),
    CoreError,
>)
    requires
        state_wf(old(state)@),
    ensures
        state_wf(final(state)@),
        r is Err ==> final(state)@ == old(state)@,
        (match kernel_index(old(state)@.kernels, kernel_id.id, 0) {
            Option::None => r is Err && r->Err_0 == CoreError::NotFound,
            Option::Some(ki) => {
                let h = old(state)@.kernels[ki].1;
                if !(h.state is Init) {
                    r is Err && r->Err_0 == CoreError::KernelNotInit
                } else {
                    match notebook_index(old(state)@.notebooks, h.kernel_ctx.notebook_id.id, 0) {
                        Option::None => r is Err && r->Err_0 == CoreError::NotFound,
                        Option::Some(ni) => {
                            let nb = old(state)@.notebooks[ni].1;
                            match crate::notebook::run_index(nb.runs, h.kernel_ctx.run_id.id, 0) {
                                Option::None => r is Err && r->Err_0 == CoreError::NotFound,
                                Option::Some(rj) => {
                                    if nb.runs[rj].1.kernel != KernelStateView::Init(
                                        kernel_id.id,
                                    ) {
                                        r is Err && r->Err_0 == CoreError::KernelNotInit
                                    } else {
                                        r is Ok && (r->Ok_0).0 == h.kernel_ctx && login_outcome(
                                            old(state)@,
                                            final(state)@,
                                            Seq::new(
                                                (r->Ok_0).1@.len(),
                                                |i: int| (r->Ok_0).1@[i]@,
                                            ),
                                            effects_view((r->Ok_0).2@),
                                            kernel_id,
                                        )
                                    }
                                },
                            }
                        },
                    }
                }
            },
        }),
{
    let ki = match state.kernel_index_of(kernel_id) {
        Some(ki) => ki,
        None => {
            return Err(CoreError::NotFound);
        },
    };
    if !state.kernel_at(ki).is_init() {
        return Err(CoreError::KernelNotInit);
    }
    let kernel_ctx = state.kernel_at(ki).kernel_ctx();
    let ni = match state.notebook_index_of(kernel_ctx.notebook_id) {
        Some(ni) => ni,
        None => {
            return Err(CoreError::NotFound);
        },
    };
    let notebook = state.notebook_mut(ni);
    let rj = match notebook.run_index_of(kernel_ctx.run_id) {
        Some(rj) => rj,
        None => {
            proof {
                assert(final(state)@.notebooks =~= old(state)@.notebooks);
                assert(final(state)@ =~= old(state)@);
            }
            return Err(CoreError::NotFound);
        },
    };
    let run_awaits = match notebook.run_at(rj).kernel_state() {
        KernelState::Init(k) => *k == kernel_id,
        _ => false,
    };
    if !run_awaits {
        proof {
            assert(final(state)@.notebooks =~= old(state)@.notebooks);
            assert(final(state)@ =~= old(state)@);
        }
        return Err(CoreError::KernelNotInit);
    }
    let observer = notebook.observer();
    let run = notebook.run_mut(rj);
    run.set_running_kernel(kernel_id);
    proof {
        lemma_notebook_index_bounds(old(state)@.notebooks, kernel_ctx.notebook_id.id, 0);
        lemma_run_index_bounds(
            old(state)@.notebooks[ni as int].1.runs,
            kernel_ctx.run_id.id,
            0,
        );
        let nb = old(state)@.notebooks[ni as int].1;
        let rj_i = rj as int;
        let rv = nb.runs[rj_i].1;
        let rv2 = RunView { kernel: KernelStateView::Running(kernel_id.id), ..rv };
        let nb2 = NotebookView { runs: nb.runs.update(rj_i, (nb.runs[rj_i].0, rv2)), ..nb };
        assert(state@.notebooks[ni as int].1.runs =~= nb2.runs);
        assert(state@.notebooks[ni as int].1 =~= nb2);
        assert(state@.notebooks =~= old(state)@.notebooks.update(
            ni as int,
            (old(state)@.notebooks[ni as int].0, nb2),
        ));
        assert(nb2.run_order =~= Seq::new(nb2.runs.len(), |i: int| nb2.runs[i].0));
        assert(crate::notebook::notebook_wf(nb));
        lemma_state_wf_update_notebook(old(state)@, state@, ni as int);
    }
    let ghost mid = state@;
    let handle = state.kernel_mut(ki);
    let ghost hv = (*handle)@;
    let drained = handle.set_to_ready();
    proof {
        lemma_kernel_index_bounds(old(state)@.kernels, kernel_id.id, 0);
        assert(state@.kernels =~= mid.kernels.update(
            ki as int,
            (mid.kernels[ki as int].0, (KernelHandleView { state: handle_ready(hv.state), ..hv })),
        ));
        lemma_state_wf_update_kernel(mid, state@, ki as int);
    }
    let mut effects: Vec<Effect> = Vec::new();
    proof {
        assert(effects_view(effects@) =~= Seq::<EffectView>::empty());
    }
    emit_to(
        observer,
        ToClientMessage::KernelReady {
            notebook_id: kernel_ctx.notebook_id,
            run_id: kernel_ctx.run_id,
        },
        &mut effects,
    );
    Ok((kernel_ctx, drained, effects))
}

/// Replace a notebook's editor tree and ask the shell to save it; the
/// shell reports back through `save_completed`.
pub fn save_notebook(
    state: &mut AppState,
    notebook_id: NotebookId,
    editor_root: EditorGroup,
) -> (r: Result<Vec<Effect>, CoreError>)
    requires
        state_wf(old(state)@),
    ensures
        state_wf(final(state)@),
        r is Err <==> notebook_index(old(state)@.notebooks, notebook_id.id, 0) is None,
        r is Err ==> final(state)@ == old(state)@ && r->Err_0 == CoreError::NotFound,
        r is Ok ==> {
            let ni = notebook_index(old(state)@.notebooks, notebook_id.id, 0).unwrap();
            let nb = old(state)@.notebooks[ni].1;
            let nb2 = NotebookView { editor_root: editor_root@, ..nb };
            &&& final(state)@ == (crate::state::AppStateView {
                notebooks: old(state)@.notebooks.update(ni, (old(state)@.notebooks[ni].0, nb2)),
                ..old(state)@
            })
            &&& effects_view((r->Ok_0)@) == seq![
                EffectView::SaveNotebook { notebook_id: notebook_id.id, new_notebook: false },
            ]
        },
{
    let ni = match state.notebook_index_of(notebook_id) {
        Some(ni) => ni,
        None => {
            return Err(CoreError::NotFound);
        },
    };
    let ghost ev = editor_root@;
    let notebook = state.notebook_mut(ni);
    notebook.set_editor_root(editor_root);
    proof {
        lemma_notebook_index_bounds(old(state)@.notebooks, notebook_id.id, 0);
        let nb = old(state)@.notebooks[ni as int].1;
        let nb2 = NotebookView { editor_root: ev, ..nb };
        assert(state@.notebooks =~= old(state)@.notebooks.update(
            ni as int,
            (old(state)@.notebooks[ni as int].0, nb2),
        ));
        assert(state@ =~= (crate::state::AppStateView {
            notebooks: old(state)@.notebooks.update(
                ni as int,
                (old(state)@.notebooks[ni as int].0, nb2),
            ),
            ..old(state)@
        }));
        assert(crate::notebook::notebook_wf(nb));
        lemma_state_wf_update_notebook(old(state)@, state@, ni as int);
    }
    let mut effects: Vec<Effect> = Vec::new();
    effects.push(Effect::SaveNotebook { notebook_id, new_notebook: false });
    proof {
        assert(effects_view(effects@) =~= seq![
            EffectView::SaveNotebook { notebook_id: notebook_id.id, new_notebook: false },
        ]);
    }
    Ok(effects)
}

/// A save finished: an ordinary save reports `SaveCompleted` to the
/// notebook's observer; the save of a fresh notebook refreshes the
/// directory listing instead.
pub fn save_completed(
    state: &AppState,
    notebook_id: NotebookId,
    error: Option<String>,
    new_notebook: bool,
) -> (r: Vec<Effect>)
    ensures
        (match notebook_index(state@.notebooks, notebook_id.id, 0) {
            Option::Some(ni) => {
                let nb = state@.notebooks[ni].1;
                if new_notebook {
                    effects_view(r@) == (match nb.observer {
                        Option::Some(t) => seq![EffectView::QueryDir { observer: t }],
                        Option::None => Seq::<EffectView>::empty(),
                    })
                } else {
                    effects_view(r@) == emit_spec(
                        Seq::empty(),
                        nb.observer,
                        ToClientMessageView::SaveCompleted {
                            notebook_id: notebook_id.id,
                            error: match error {
                                Option::Some(e) => Option::Some(e@),
                                Option::None => Option::None,
                            },
                        },
                    )
                }
            },
            Option::None => effects_view(r@) == Seq::<EffectView>::empty(),
        }),
{
    let mut effects: Vec<Effect> = Vec::new();
    proof {
        assert(effects_view(effects@) =~= Seq::<EffectView>::empty());
    }
    let ni = match state.notebook_index_of(notebook_id) {
        Some(ni) => ni,
        None => {
            return effects;
        },
    };
    let observer = state.notebook_at(ni).observer();
    if new_notebook {
        match observer {
            Some(t) => {
                effects.push(Effect::QueryDir { observer: t });
                proof {
                    assert(effects_view(effects@) =~= seq![EffectView::QueryDir { observer: t }]);
                }
            },
            None => {},
        }
    } else {
        emit_to(observer, ToClientMessage::SaveCompleted { notebook_id, error }, &mut effects);
    }
    effects
}

/// Attach an observer to a notebook already loaded at `path` and show
/// it the current state; otherwise ask the shell to read the file, to
/// be handed back through `notebook_loaded`.
pub fn load_notebook(state: &mut AppState, path: String, observer: u64) -> (r: Vec<Effect>)
    requires
        state_wf(old(state)@),
    ensures
        state_wf(final(state)@),
        (match notebook_path_index(old(state)@.notebooks, path@, 0) {
            Option::Some(ni) => {
                let nb = old(state)@.notebooks[ni].1;
                let nb2 = NotebookView { observer: Option::Some(observer), ..nb };
                &&& final(state)@ == (crate::state::AppStateView {
                    notebooks: old(state)@.notebooks.update(
                        ni,
                        (old(state)@.notebooks[ni].0, nb2),
                    ),
                    ..old(state)@
                })
                &&& effects_view(r@) == seq![
                    EffectView::Emit {
                        target: observer,
                        message: ToClientMessageView::NewNotebook {
                            notebook: notebook_desc_of(old(state)@.notebooks[ni].0, nb2),
                        },
                    },
                ]
            },
            Option::None => final(state)@ == old(state)@ && effects_view(r@) == seq![
                EffectView::LoadNotebook { path: path@, observer },
            ],
        }),
{
    let ghost pv = path@;
    let mut effects: Vec<Effect> = Vec::new();
    let ni = match state.notebook_by_path_index(&path) {
        Some(ni) => ni,
        None => {
            effects.push(Effect::LoadNotebook { path, observer });
            proof {
                assert(effects_view(effects@) =~= seq![
                    EffectView::LoadNotebook { path: pv, observer },
                ]);
            }
            return effects;
        },
    };
    let notebook_id = state.notebook_key_at(ni);
    let notebook = state.notebook_mut(ni);
    notebook.set_observer(observer);
    let desc = notebook.notebook_desc(notebook_id);
    proof {
        lemma_notebook_path_index_bounds(old(state)@.notebooks, path@, 0);
        let nb = old(state)@.notebooks[ni as int].1;
        let nb2 = NotebookView { observer: Option::Some(observer), ..nb };
        assert(state@.notebooks =~= old(state)@.notebooks.update(
            ni as int,
            (old(state)@.notebooks[ni as int].0, nb2),
        ));
        assert(state@ =~= (crate::state::AppStateView {
            notebooks: old(state)@.notebooks.update(
                ni as int,
                (old(state)@.notebooks[ni as int].0, nb2),
            ),
            ..old(state)@
        }));
        assert(crate::notebook::notebook_wf(nb));
        lemma_state_wf_update_notebook(old(state)@, state@, ni as int);
    }
    effects.push(Effect::Emit { target: observer, message: ToClientMessage::NewNotebook { notebook: desc } });
    proof {
        let nb = old(state)@.notebooks[ni as int].1;
        let nb2 = NotebookView { observer: Option::Some(observer), ..nb };
        assert(effects_view(effects@) =~= seq![
            EffectView::Emit {
                target: observer,
                message: ToClientMessageView::NewNotebook {
                    notebook: notebook_desc_of(old(state)@.notebooks[ni as int].0, nb2),
                },
            },
        ]);
    }
    effects
}

/// A successful path-index search lands in range, on the path.
proof fn lemma_notebook_path_index_bounds(s: Seq<(u32, NotebookView)>, path: Seq<char>, i: int)
    requires
        0 <= i,
        notebook_path_index(s, path, i) is Some,
    ensures
        i <= notebook_path_index(s, path, i).unwrap() < s.len(),
        s[notebook_path_index(s, path, i).unwrap()].1.path == path,
    decreases s.len() - i,
{
    if i < s.len() && s[i].1.path != path {
        lemma_notebook_path_index_bounds(s, path, i + 1);
    }
}

/// No key matches, so the index search fails.
proof fn lemma_notebook_index_absent(s: Seq<(u32, NotebookView)>, id: u32, i: int)
    requires
        0 <= i,
        forall|j: int| i <= j < s.len() ==> (#[trigger] s[j]).0 != id,
    ensures
        notebook_index(s, id, i) is None,
    decreases s.len() - i,
{
    if i < s.len() {
        lemma_notebook_index_absent(s, id, i + 1);
    }
}

/// The fresh-notebook editor tree: one `Own` root group named
/// "project" holding a sample cell and an empty cell, and the root as
/// the only open node.
pub open spec fn default_editor_tree(nv: NotebookView) -> bool {
    &&& nv.editor_root.name == "project"@
    &&& nv.editor_root.scope == crate::notebook::ScopeType::Own
    &&& nv.editor_root.children.len() == 2
    &&& nv.editor_root.children[0] is Cell
    &&& nv.editor_root.children[0]->Cell_1 == "print(\"Hello world\")\n\nx = 10\nx"@
    &&& nv.editor_root.children[1] is Cell
    &&& nv.editor_root.children[1]->Cell_1 == ""@
    &&& nv.editor_open_nodes == seq![nv.editor_root.id]
}

/// Create a fresh notebook at `path` under the next id, attach the
/// requesting observer, show it the new notebook, and ask the shell to
/// persist it. The editor node ids are random, so the contract fixes
/// everything else about the appended notebook.
pub fn new_notebook(state: &mut AppState, path: String, observer: u64) -> (r: Vec<Effect>)
    requires
        state_wf(old(state)@),
        old(state)@.id_counter < u32::MAX,
    ensures
        state_wf(final(state)@),
        final(state)@.id_counter == old(state)@.id_counter + 1,
        final(state)@.kernels == old(state)@.kernels,
        final(state)@.kernel_port == old(state)@.kernel_port,
        final(state)@.http_port == old(state)@.http_port,
        final(state)@.notebooks.len() == old(state)@.notebooks.len() + 1,
        forall|j: int|
            0 <= j < old(state)@.notebooks.len() ==> final(state)@.notebooks[j] == old(
                state,
            )@.notebooks[j],
        ({
            let nid = old(state)@.id_counter + 1;
            let nbv = final(state)@.notebooks.last().1;
            &&& final(state)@.notebooks.last().0 == nid
            &&& nbv.path == path@
            &&& nbv.observer == Option::Some(observer)
            &&& nbv.runs == Seq::<(u128, RunView)>::empty()
            &&& nbv.run_order == Seq::<u128>::empty()
            &&& crate::notebook::notebook_wf(nbv)
            &&& default_editor_tree(nbv)
            &&& effects_view(r@) == seq![
                EffectView::Emit {
                    target: observer,
                    message: ToClientMessageView::NewNotebook {
                        notebook: notebook_desc_of(nid as u32, nbv),
                    },
                },
                EffectView::SaveNotebook { notebook_id: nid as u32, new_notebook: true },
            ]
        }),
{
    let notebook_id = state.new_notebook_id();
    let mut notebook = Notebook::new(path);
    notebook.set_observer(observer);
    let desc = notebook.notebook_desc(notebook_id);
    let ghost nbv = notebook@;
    proof {
        assert forall|j: int| 0 <= j < state@.notebooks.len() implies (
        #[trigger] state@.notebooks[j]).0 != notebook_id.id by {
            assert(old(state)@.notebooks[j].0 <= old(state)@.id_counter);
        }
        lemma_notebook_index_absent(state@.notebooks, notebook_id.id, 0);
    }
    state.add_notebook(notebook_id, notebook);
    proof {
        let post = state@;
        assert(post.notebooks.last() == (notebook_id.id, nbv));
        assert forall|a: int, b: int| 0 <= a < b < post.notebooks.len() implies post.notebooks[a].0
            != post.notebooks[b].0 by {
            if b < post.notebooks.len() - 1 {
                assert(post.notebooks[a] == old(state)@.notebooks[a]);
                assert(post.notebooks[b] == old(state)@.notebooks[b]);
            } else {
                assert(post.notebooks[a] == old(state)@.notebooks[a]);
                assert(old(state)@.notebooks[a].0 <= old(state)@.id_counter);
            }
        }
        assert forall|j: int| 0 <= j < post.notebooks.len() implies crate::notebook::notebook_wf(
            (#[trigger] post.notebooks[j]).1,
        ) && post.notebooks[j].0 <= post.id_counter by {
            if j < post.notebooks.len() - 1 {
                assert(post.notebooks[j] == old(state)@.notebooks[j]);
                assert(old(state)@.notebooks[j].0 <= old(state)@.id_counter);
            }
        }
    }
    let mut effects: Vec<Effect> = Vec::new();
    effects.push(
        Effect::Emit { target: observer, message: ToClientMessage::NewNotebook { notebook: desc } },
    );
    effects.push(Effect::SaveNotebook { notebook_id, new_notebook: true });
    proof {
        assert(effects_view(effects@) =~= seq![
            EffectView::Emit {
                target: observer,
                message: ToClientMessageView::NewNotebook {
                    notebook: notebook_desc_of(notebook_id.id, nbv),
                },
            },
            EffectView::SaveNotebook { notebook_id: notebook_id.id, new_notebook: true },
        ]);
    }
    effects
}

/// One entry as the shell reads it from the file system.
pub struct RawDirEntry {
    pub name: String,
    pub is_file: bool,
    pub is_dir: bool,
}

/// Model of a [`RawDirEntry`].
pub struct RawDirEntryView {
    pub name: Seq<char>,
    pub is_file: bool,
    pub is_dir: bool,
}

impl View for RawDirEntry {
    type V = RawDirEntryView;

    open spec fn view(&self) -> RawDirEntryView {
        RawDirEntryView { name: self.name@, is_file: self.is_file, is_dir: self.is_dir }
    }
}

/// Whether `s` ends with `suffix`.
pub open spec fn spec_ends_with(s: Seq<char>, suffix: Seq<char>) -> bool {
    s.len() >= suffix.len() && s.subrange(s.len() - suffix.len(), s.len() as int) == suffix
}

/// Lexicographic order on character sequences from position `i` on,
/// by code point; the same order Rust gives strings.
pub open spec fn lex_le_from(a: Seq<char>, b: Seq<char>, i: int) -> bool
    decreases a.len() - i,
{
    if i < 0 || i >= a.len() {
        true
    } else if i >= b.len() {
        false
    } else if (a[i] as u32) < (b[i] as u32) {
        true
    } else if (a[i] as u32) > (b[i] as u32) {
        false
    } else {
        lex_le_from(a, b, i + 1)
    }
}

/// Lexicographic order on character sequences, by code point.
pub open spec fn lex_le(a: Seq<char>, b: Seq<char>) -> bool {
    lex_le_from(a, b, 0)
}

/// The order is total.
proof fn lemma_lex_le_total(a: Seq<char>, b: Seq<char>, i: int)
    ensures
        lex_le_from(a, b, i) || lex_le_from(b, a, i),
    decreases a.len() - i,
{
    if 0 <= i && i < a.len() && i < b.len() && (a[i] as u32) == (b[i] as u32) {
        lemma_lex_le_total(a, b, i + 1);
    }
}

/// The order is transitive.
proof fn lemma_lex_le_trans(a: Seq<char>, b: Seq<char>, c: Seq<char>, i: int)
    requires
        lex_le_from(a, b, i),
        lex_le_from(b, c, i),
    ensures
        lex_le_from(a, c, i),
    decreases a.len() - i,
{
    if 0 <= i && i < a.len() {
        if i < b.len() && i < c.len() && (a[i] as u32) == (b[i] as u32) && (b[i] as u32) == (
        c[i] as u32) {
            lemma_lex_le_trans(a, b, c, i + 1);
        }
    }
}

/// Whether `s` ends with `suffix`; character-wise.
fn str_ends_with(s: &String, suffix: &str) -> (r: bool)
    ensures
        r == spec_ends_with(s@, suffix@),
{
    let n = s.as_str().unicode_len();
    let m = suffix.unicode_len();
    if m > n {
        return false;
    }
    let mut i: usize = 0;
    while i < m
        invariant
            i <= m,
            m <= n,
            n == s@.len(),
            m == suffix@.len(),
            forall|j: int| 0 <= j < i ==> s@[n - m + j] == suffix@[j],
        decreases m - i,
    {
        if s.as_str().get_char(n - m + i) != suffix.get_char(i) {
            proof {
                assert(s@[n - m + i as int] != suffix@[i as int]);
                assert(s@.subrange(n - m, n as int)[i as int] != suffix@[i as int]);
            }
            return false;
        }
        i += 1;
    }
    proof {
        assert(s@.subrange(n - m, n as int) =~= suffix@);
    }
    true
}

/// Whether `a` comes at or before `b` in the listing order.
fn str_le(a: &String, b: &String) -> (r: bool)
    ensures
        r == lex_le(a@, b@),
{
    let an = a.as_str().unicode_len();
    let bn = b.as_str().unicode_len();
    let mut i: usize = 0;
    while i < an
        invariant
            i <= an,
            an == a@.len(),
            bn == b@.len(),
            lex_le(a@, b@) == lex_le_from(a@, b@, i as int),
        decreases an - i,
    {
        if i >= bn {
            return false;
        }
        let ca = a.as_str().get_char(i) as u32;
        let cb = b.as_str().get_char(i) as u32;
        if ca < cb {
            return true;
        }
        if ca > cb {
            return false;
        }
        i += 1;
    }
    true
}

/// How one raw entry is classified: a regular file with the notebook
/// extension is a notebook, loaded or not; directories are listed but
/// run sidecar directories are hidden; everything else is a plain file.
pub open spec fn classify_entry(
    sv: crate::state::AppStateView,
    e: RawDirEntryView,
) -> Option<DirEntryView> {
    if e.is_file && spec_ends_with(e.name, ".tsnb"@) {
        if notebook_path_index(sv.notebooks, e.name, 0) is Some {
            Option::Some(DirEntryView { path: e.name, entry_type: DirEntryType::LoadedNotebook })
        } else {
            Option::Some(DirEntryView { path: e.name, entry_type: DirEntryType::Notebook })
        }
    } else if e.is_dir {
        if spec_ends_with(e.name, ".tsnb.runs"@) {
            Option::None
        } else {
            Option::Some(DirEntryView { path: e.name, entry_type: DirEntryType::Dir })
        }
    } else {
        Option::Some(DirEntryView { path: e.name, entry_type: DirEntryType::File })
    }
}

/// The classification of the first `i` raw entries, in their order.
pub open spec fn classified_to(
    sv: crate::state::AppStateView,
    raw: Seq<RawDirEntryView>,
    i: int,
) -> Seq<DirEntryView>
    decreases i,
{
    if i <= 0 {
        Seq::empty()
    } else {
        classified_to(sv, raw, i - 1) + (match classify_entry(sv, raw[i - 1]) {
            Option::Some(d) => seq![d],
            Option::None => Seq::empty(),
        })
    }
}

/// View of a vector of raw entries.
pub open spec fn raw_views(s: Seq<RawDirEntry>) -> Seq<RawDirEntryView> {
    Seq::new(s.len(), |i: int| s[i]@)
}

/// View of a vector of listing entries.
pub open spec fn dir_views(s: Seq<DirEntry>) -> Seq<DirEntryView> {
    Seq::new(s.len(), |i: int| s[i]@)
}

/// Ascending by path.
pub open spec fn entries_sorted(s: Seq<DirEntryView>) -> bool {
    forall|i: int, j: int| 0 <= i < j < s.len() ==> lex_le(#[trigger] s[i].path, #[trigger] s[j].path)
}

/// Answer a directory query from what the shell enumerated: classify
/// each entry against the loaded notebooks, sort ascending by path, and
/// emit one `DirList` to the requesting observer.
pub fn query_dir(state: &AppState, entries: Vec<RawDirEntry>, observer: u64) -> (r: Vec<Effect>)
    ensures
        effects_view(r@).len() == 1,
        effects_view(r@)[0] is Emit,
        effects_view(r@)[0]->Emit_target == observer,
        effects_view(r@)[0]->Emit_message is DirList,
        ({
            let es = effects_view(r@)[0]->Emit_message->DirList_entries;
            &&& entries_sorted(es)
            &&& es.to_multiset() == classified_to(
                state@,
                raw_views(entries@),
                entries@.len() as int,
            ).to_multiset()
        }),
{
    let ghost raws = raw_views(entries@);
    let mut listed: Vec<DirEntry> = Vec::new();
    let mut i: usize = 0;
    while i < entries.len()
        invariant
            i <= entries.len(),
            raws == raw_views(entries@),
            raws.len() == entries@.len(),
            dir_views(listed@) == classified_to(state@, raws, i as int),
        decreases entries.len() - i,
    {
        let ghost pre = dir_views(listed@);
        let e = &entries[i];
        let entry_type = if e.is_file && str_ends_with(&e.name, ".tsnb") {
            if state.notebook_by_path_index(&e.name).is_some() {
                Some(DirEntryType::LoadedNotebook)
            } else {
                Some(DirEntryType::Notebook)
            }
        } else if e.is_dir {
            if str_ends_with(&e.name, ".tsnb.runs") {
                None
            } else {
                Some(DirEntryType::Dir)
            }
        } else {
            Some(DirEntryType::File)
        };
        proof {
            assert(raws[i as int] == entries@[i as int]@);
        }
        match entry_type {
            Some(entry_type) => {
                listed.push(DirEntry { path: e.name.clone(), entry_type });
                proof {
                    assert(dir_views(listed@) =~= pre.push(
                        classify_entry(state@, raws[i as int]).unwrap(),
                    ));
                    assert(dir_views(listed@) =~= classified_to(state@, raws, i as int + 1));
                }
            },
            None => {
                proof {
                    assert(dir_views(listed@) =~= classified_to(state@, raws, i as int + 1));
                }
            },
        }
        i += 1;
    }
    let sorted = sort_entries(listed);
    let mut r: Vec<Effect> = Vec::new();
    r.push(Effect::Emit { target: observer, message: ToClientMessage::DirList { entries: sorted } });
    proof {
        assert(effects_view(r@)[0] == r@[0]@);
    }
    r
}

/// Sort listing entries ascending by path; the result holds exactly the
/// given entries.
fn sort_entries(entries: Vec<DirEntry>) -> (r: Vec<DirEntry>)
    ensures
        entries_sorted(dir_views(r@)),
        dir_views(r@).to_multiset() == dir_views(entries@).to_multiset(),
{
    let ghost orig = dir_views(entries@);
    let mut rest = entries;
    let mut out: Vec<DirEntry> = Vec::new();
    proof {
        assert(dir_views(out@) =~= Seq::<DirEntryView>::empty());
        assert(dir_views(out@).to_multiset().add(dir_views(rest@).to_multiset()) =~= orig.to_multiset());
    }
    while rest.len() > 0
        invariant
            dir_views(out@).to_multiset().add(dir_views(rest@).to_multiset())
                == orig.to_multiset(),
            entries_sorted(dir_views(out@)),
            forall|i: int, j: int|
                0 <= i < out@.len() && 0 <= j < rest@.len() ==> lex_le(
                    (#[trigger] dir_views(out@)[i]).path,
                    (#[trigger] dir_views(rest@)[j]).path,
                ),
        decreases rest.len(),
    {
        proof {
            lemma_lex_le_total(dir_views(rest@)[0].path, dir_views(rest@)[0].path, 0);
        }
        let mut mi: usize = 0;
        let mut k: usize = 1;
        while k < rest.len()
            invariant
                rest@.len() > 0,
                mi < k <= rest@.len(),
                forall|j: int|
                    0 <= j < k ==> lex_le(
                        dir_views(rest@)[mi as int].path,
                        (#[trigger] dir_views(rest@)[j]).path,
                    ),
            decreases rest.len() - k,
        {
            if str_le(&rest[k].path, &rest[mi].path) {
                proof {
                    let rv = dir_views(rest@);
                    assert forall|j: int| 0 <= j < k + 1 implies lex_le(
                        rv[k as int].path,
                        (#[trigger] rv[j]).path,
                    ) by {
                        if j < k {
                            lemma_lex_le_trans(rv[k as int].path, rv[mi as int].path, rv[j].path, 0);
                        } else {
                            lemma_lex_le_total(rv[k as int].path, rv[k as int].path, 0);
                        }
                    }
                }
                mi = k;
            } else {
                proof {
                    let rv = dir_views(rest@);
                    lemma_lex_le_total(rv[k as int].path, rv[mi as int].path, 0);
                }
            }
            k += 1;
        }
        let ghost pre_out = dir_views(out@);
        let ghost pre_rest = dir_views(rest@);
        let e = rest.remove(mi);
        out.push(e);
        proof {
            let ev = pre_rest[mi as int];
            assert(dir_views(out@) =~= pre_out.push(ev));
            assert(dir_views(rest@) =~= pre_rest.remove(mi as int));
            assert(pre_out.push(ev).to_multiset() =~= pre_out.to_multiset().insert(ev));
            assert(pre_rest.remove(mi as int).to_multiset() =~= pre_rest.to_multiset().remove(ev));
            assert(pre_rest.to_multiset().count(ev) > 0);
            assert(dir_views(out@).to_multiset().add(dir_views(rest@).to_multiset())
                =~= pre_out.to_multiset().add(pre_rest.to_multiset()));
            assert forall|i: int, j: int|
                0 <= i < out@.len() && 0 <= j < rest@.len() implies lex_le(
                (#[trigger] dir_views(out@)[i]).path,
                (#[trigger] dir_views(rest@)[j]).path,
            ) by {
                let j0 = if j < mi { j } else { j + 1 };
                assert(dir_views(rest@)[j] == pre_rest[j0]);
                if i < out@.len() - 1 {
                    assert(dir_views(out@)[i] == pre_out[i]);
                } else {
                    assert(dir_views(out@)[i] == ev);
                }
            }
            assert(entries_sorted(dir_views(out@)));
        }
    }
    proof {
        assert(dir_views(rest@).to_multiset() =~= vstd::multiset::Multiset::<DirEntryView>::empty());
        assert(dir_views(out@).to_multiset().add(vstd::multiset::Multiset::<DirEntryView>::empty())
            =~= dir_views(out@).to_multiset());
    }
    out
}

/// What stopping kernel `k` leaves behind: if a handle was present it
/// is removed and one stop effect is returned; else nothing changes.
pub open spec fn stop_effects(
    pre: crate::state::AppStateView,
    post: crate::state::AppStateView,
    k: u128,
    effects: Vec<Effect>,
) -> bool {
    match kernel_index(pre.kernels, k, 0) {
        Option::Some(kj) => post.kernels == pre.kernels.remove(kj) && effects_view(effects@)
            == seq![EffectView::StopKernel { kernel_id: k }],
        Option::None => post.kernels == pre.kernels && effects_view(effects@) == Seq::<
            EffectView,
        >::empty(),
    }
}


/// A notebook file and its run files were read from disk: decode them,
/// place the notebook at `path` under the next id with the requesting
/// observer attached, and show it the loaded state. Fails, changing
/// nothing, when the bytes are malformed or carry another version; the
/// shell then reports the error to the observer.
pub fn notebook_loaded(
    state: &mut AppState,
    notebook_data: Vec<u8>,
    run_files: Vec<Vec<u8>>,
    path: String,
    observer: u64,
) -> (r: Result<Vec<Effect>, CoreError>)
    requires
        state_wf(old(state)@),
        old(state)@.id_counter < u32::MAX,
    ensures
        state_wf(final(state)@),
        r is Err ==> final(state)@ == old(state)@ && (r->Err_0 == CoreError::VersionMismatch
            || r->Err_0 == CoreError::Codec),
        r is Ok <==> crate::persist::load_accepted(
            notebook_data@,
            Seq::new(run_files@.len(), |i: int| run_files@[i]@),
        ),
        (r is Err && r->Err_0 == CoreError::VersionMismatch)
            <==> crate::persist::version_differs(notebook_data@),
        r is Ok ==> {
            let nid = old(state)@.id_counter + 1;
            let nbv = final(state)@.notebooks.last().1;
            &&& final(state)@.id_counter == nid
            &&& final(state)@.kernels == old(state)@.kernels
            &&& final(state)@.kernel_port == old(state)@.kernel_port
            &&& final(state)@.http_port == old(state)@.http_port
            &&& final(state)@.notebooks.len() == old(state)@.notebooks.len() + 1
            &&& (forall|j: int|
                0 <= j < old(state)@.notebooks.len() ==> final(state)@.notebooks[j] == old(
                    state,
                )@.notebooks[j])
            &&& final(state)@.notebooks.last().0 == nid
            &&& crate::persist::dec_notebook_file(
                notebook_data@,
                crate::persist::fuel_for(notebook_data@.len()),
            ) == Option::Some(nbv.editor_root)
            &&& nbv.path == path@
            &&& nbv.observer == Option::Some(observer)
            &&& crate::notebook::notebook_wf(nbv)
            &&& nbv.runs.to_multiset() == crate::persist::decoded_runs(
                Seq::new(run_files@.len(), |i: int| run_files@[i]@),
            ).to_multiset()
            &&& (forall|i: int, j: int|
                0 <= i < j < nbv.runs.len() ==> (#[trigger] nbv.runs[i]).1.created <= (
                #[trigger] nbv.runs[j]).1.created)
            &&& effects_view((r->Ok_0)@) == seq![
                EffectView::Emit {
                    target: observer,
                    message: ToClientMessageView::NewNotebook {
                        notebook: notebook_desc_of(nid as u32, nbv),
                    },
                },
            ]
        },
{
    let mut notebook = match crate::persist::deserialize_notebook(&notebook_data, &run_files) {
        Ok(nb) => nb,
        Err(e) => {
            return Err(e);
        },
    };
    notebook.set_path(path);
    notebook.set_observer(observer);
    let notebook_id = state.new_notebook_id();
    let desc = notebook.notebook_desc(notebook_id);
    let ghost nbv = notebook@;
    proof {
        assert forall|j: int| 0 <= j < state@.notebooks.len() implies (
        #[trigger] state@.notebooks[j]).0 != notebook_id.id by {
            assert(old(state)@.notebooks[j].0 <= old(state)@.id_counter);
        }
        lemma_notebook_index_absent(state@.notebooks, notebook_id.id, 0);
    }
    state.add_notebook(notebook_id, notebook);
    proof {
        let post = state@;
        assert(post.notebooks.last() == (notebook_id.id, nbv));
        assert forall|a: int, b: int| 0 <= a < b < post.notebooks.len() implies post.notebooks[a].0
            != post.notebooks[b].0 by {
            if b < post.notebooks.len() - 1 {
                assert(post.notebooks[a] == old(state)@.notebooks[a]);
                assert(post.notebooks[b] == old(state)@.notebooks[b]);
            } else {
                assert(post.notebooks[a] == old(state)@.notebooks[a]);
                assert(old(state)@.notebooks[a].0 <= old(state)@.id_counter);
            }
        }
        assert forall|j: int| 0 <= j < post.notebooks.len() implies crate::notebook::notebook_wf(
            (#[trigger] post.notebooks[j]).1,
        ) && post.notebooks[j].0 <= post.id_counter by {
            if j < post.notebooks.len() - 1 {
                assert(post.notebooks[j] == old(state)@.notebooks[j]);
                assert(old(state)@.notebooks[j].0 <= old(state)@.id_counter);
            }
        }
    }
    let mut effects: Vec<Effect> = Vec::new();
    effects.push(
        Effect::Emit { target: observer, message: ToClientMessage::NewNotebook { notebook: desc } },
    );
    proof {
        assert(effects_view(effects@) =~= seq![
            EffectView::Emit {
                target: observer,
                message: ToClientMessageView::NewNotebook {
                    notebook: notebook_desc_of(notebook_id.id, nbv),
                },
            },
        ]);
    }
    Ok(effects)
}

} // verus!
