//! The process-wide state: all notebooks and all live kernel handles.

use vstd::prelude::*;

use crate::client_messages::KernelInfo;
use crate::ids::{KernelId, NotebookId};
use crate::kernel::{KernelHandle, KernelHandleView};
use crate::notebook::{notebook_wf, Notebook, NotebookView};
use crate::scopes::keys_distinct;

verus! {

broadcast use vstd::seq::group_seq_axioms, vstd::std_specs::vec::group_vec_axioms;

/// The owning container of all notebooks and kernel handles. All
/// mutation goes through the reactor, under one process-wide lock held
/// by the unverified shell.
pub struct AppState {
    notebooks: Vec<(NotebookId, Notebook)>,
    kernels: Vec<(KernelId, KernelHandle)>,
    id_counter: u32,
    kernel_port: u16,
    http_port: u16,
}

/// Model of the [`AppState`].
#[verifier::ext_equal]
pub struct AppStateView {
    pub notebooks: Seq<(u32, NotebookView)>,
    pub kernels: Seq<(u128, KernelHandleView)>,
    pub id_counter: u32,
    pub kernel_port: u16,
    pub http_port: u16,
}

impl View for AppState {
    type V = AppStateView;

    closed spec fn view(&self) -> AppStateView {
        AppStateView {
            notebooks: Seq::new(
                self.notebooks@.len(),
                |i: int| (self.notebooks@[i].0.id, self.notebooks@[i].1@),
            ),
            kernels: Seq::new(
                self.kernels@.len(),
                |i: int| (self.kernels@[i].0.id, self.kernels@[i].1@),
            ),
            id_counter: self.id_counter,
            kernel_port: self.kernel_port,
            http_port: self.http_port,
        }
    }
}

/// Well-formedness of the whole state: distinct notebook and kernel
/// keys, well-formed notebooks, and every notebook id at most the
/// counter that minted it.
pub open spec fn state_wf(sv: AppStateView) -> bool {
    &&& keys_distinct(sv.notebooks)
    &&& keys_distinct(sv.kernels)
    &&& forall|i: int|
        0 <= i < sv.notebooks.len() ==> notebook_wf((#[trigger] sv.notebooks[i]).1)
    &&& forall|i: int|
        0 <= i < sv.notebooks.len() ==> (#[trigger] sv.notebooks[i]).0 <= sv.id_counter
}

/// The index of the notebook keyed `id`, at or after `i`.
pub open spec fn notebook_index(s: Seq<(u32, NotebookView)>, id: u32, i: int) -> Option<int>
    decreases s.len() - i,
{
    if i < 0 || i >= s.len() {
        Option::None
    } else if s[i].0 == id {
        Option::Some(i)
    } else {
        notebook_index(s, id, i + 1)
    }
}

/// The index of the kernel keyed `id`, at or after `i`.
pub open spec fn kernel_index(s: Seq<(u128, KernelHandleView)>, id: u128, i: int) -> Option<int>
    decreases s.len() - i,
{
    if i < 0 || i >= s.len() {
        Option::None
    } else if s[i].0 == id {
        Option::Some(i)
    } else {
        kernel_index(s, id, i + 1)
    }
}

/// The index of the first notebook at `path`, at or after `i`.
pub open spec fn notebook_path_index(s: Seq<(u32, NotebookView)>, path: Seq<char>, i: int) -> Option<
    int,
>
    decreases s.len() - i,
{
    if i < 0 || i >= s.len() {
        Option::None
    } else if s[i].1.path == path {
        Option::Some(i)
    } else {
        notebook_path_index(s, path, i + 1)
    }
}

impl AppState {
    /// A fresh state: no notebooks, no kernels, ids from zero, kernel
    /// port not yet known.
    pub fn new(http_port: u16) -> (r: Self)
        ensures
            r@ == (AppStateView {
                notebooks: Seq::empty(),
                kernels: Seq::empty(),
                id_counter: 0,
                kernel_port: 0,
                http_port,
            }),
            state_wf(r@),
    {
        let r = AppState {
            notebooks: Vec::new(),
            kernels: Vec::new(),
            id_counter: 0,
            kernel_port: 0,
            http_port,
        };
        proof {
            assert(r@.notebooks =~= Seq::<(u32, NotebookView)>::empty());
            assert(r@.kernels =~= Seq::<(u128, KernelHandleView)>::empty());
            assert(r@ =~= (AppStateView {
                notebooks: Seq::empty(),
                kernels: Seq::empty(),
                id_counter: 0,
                kernel_port: 0,
                http_port,
            }));
        }
        r
    }

    /// The live kernels, in insertion order.
    pub fn kernel_list(&self) -> (r: Vec<KernelInfo>)
        ensures
            r@.len() == self@.kernels.len(),
            forall|i: int|
                0 <= i < r@.len() ==> #[trigger] r@[i] == (KernelInfo {
                    kernel_id: KernelId { id: self@.kernels[i].0 },
                    notebook_id: self@.kernels[i].1.kernel_ctx.notebook_id,
                    run_id: self@.kernels[i].1.kernel_ctx.run_id,
                    pid: self@.kernels[i].1.pid,
                }),
    {
        let mut r: Vec<KernelInfo> = Vec::new();
        let mut i: usize = 0;
        while i < self.kernels.len()
            invariant
                i <= self.kernels.len(),
                self.kernels@.len() == self@.kernels.len(),
                r@.len() == i,
                forall|j: int|
                    0 <= j < i ==> #[trigger] r@[j] == (KernelInfo {
                        kernel_id: KernelId { id: self@.kernels[j].0 },
                        notebook_id: self@.kernels[j].1.kernel_ctx.notebook_id,
                        run_id: self@.kernels[j].1.kernel_ctx.run_id,
                        pid: self@.kernels[j].1.pid,
                    }),
            decreases self.kernels.len() - i,
        {
            let info = self.kernels[i].1.kernel_info(self.kernels[i].0);
            r.push(info);
            i += 1;
        }
        r
    }

    /// Mint the next notebook id: the counter is monotonically
    /// increasing, one per call.
    pub fn new_notebook_id(&mut self) -> (r: NotebookId)
        requires
            old(self)@.id_counter < u32::MAX,
        ensures
            r.id == old(self)@.id_counter + 1,
            final(self)@ == (AppStateView { id_counter: r.id, ..old(self)@ }),
    {
        self.id_counter = self.id_counter + 1;
        let r = NotebookId::new(self.id_counter);
        proof {
            assert(final(self)@ =~= (AppStateView { id_counter: r.id, ..old(self)@ }));
        }
        r
    }

    /// Whether the counter can still mint a fresh id.
    pub fn can_mint_notebook_id(&self) -> (r: bool)
        ensures
            r == (self@.id_counter < u32::MAX),
    {
        self.id_counter < u32::MAX
    }

    /// Insert a notebook under a fresh id.
    pub fn add_notebook(&mut self, notebook_id: NotebookId, notebook: Notebook)
        requires
            notebook_index(old(self)@.notebooks, notebook_id.id, 0) is None,
        ensures
            final(self)@ == (AppStateView {
                notebooks: old(self)@.notebooks.push((notebook_id.id, notebook@)),
                ..old(self)@
            }),
    {
        let ghost nv = notebook@;
        self.notebooks.push((notebook_id, notebook));
        proof {
            assert(final(self)@.notebooks =~= old(self)@.notebooks.push((notebook_id.id, nv)));
            assert(final(self)@ =~= (AppStateView {
                notebooks: old(self)@.notebooks.push((notebook_id.id, nv)),
                ..old(self)@
            }));
        }
    }

    /// The position of the notebook keyed `id`, if any.
    pub fn notebook_index_of(&self, id: NotebookId) -> (r: Option<usize>)
        ensures
            match r {
                Option::Some(i) => notebook_index(self@.notebooks, id.id, 0) == Option::Some(
                    i as int,
                ) && i < self@.notebooks.len(),
                Option::None => notebook_index(self@.notebooks, id.id, 0) is None,
            },
    {
        let mut i: usize = 0;
        while i < self.notebooks.len()
            invariant
                i <= self.notebooks.len(),
                self.notebooks@.len() == self@.notebooks.len(),
                notebook_index(self@.notebooks, id.id, 0) == notebook_index(
                    self@.notebooks,
                    id.id,
                    i as int,
                ),
            decreases self.notebooks.len() - i,
        {
            if self.notebooks[i].0 == id {
                proof {
                    assert(self@.notebooks[i as int].0 == id.id);
                }
                return Some(i);
            }
            proof {
                assert(self@.notebooks[i as int].0 != id.id);
            }
            i += 1;
        }
        None
    }

    /// The key of the notebook at a position.
    pub fn notebook_key_at(&self, i: usize) -> (r: NotebookId)
        requires
            i < self@.notebooks.len(),
        ensures
            r.id == self@.notebooks[i as int].0,
    {
        self.notebooks[i].0
    }

    /// The notebook at a position, for reading.
    pub fn notebook_at(&self, i: usize) -> (r: &Notebook)
        requires
            i < self@.notebooks.len(),
        ensures
            r@ == self@.notebooks[i as int].1,
    {
        &self.notebooks[i].1
    }

    /// The notebook at a position, for mutation. The caller's changes
    /// become the state's; the key at the position is unchanged.
    pub fn notebook_mut(&mut self, i: usize) -> (r: &mut Notebook)
        requires
            i < old(self)@.notebooks.len(),
        ensures
            (*r)@ == old(self)@.notebooks[i as int].1,
            final(self)@.notebooks.len() == old(self)@.notebooks.len(),
            final(self)@.notebooks[i as int].0 == old(self)@.notebooks[i as int].0,
            final(self)@.notebooks[i as int].1 == (*final(r))@,
            forall|j: int|
                0 <= j < old(self)@.notebooks.len() && j != i ==> final(self)@.notebooks[j] == old(self)@.notebooks[j],
            final(self)@.kernels == old(self)@.kernels,
            final(self)@.id_counter == old(self)@.id_counter,
            final(self)@.kernel_port == old(self)@.kernel_port,
            final(self)@.http_port == old(self)@.http_port,
    {
        &mut self.notebooks[i].1
    }

    /// Insert a handle for a freshly spawned kernel.
    pub fn add_kernel(&mut self, kernel_id: KernelId, kernel: KernelHandle)
        requires
            kernel_index(old(self)@.kernels, kernel_id.id, 0) is None,
        ensures
            final(self)@ == (AppStateView {
                kernels: old(self)@.kernels.push((kernel_id.id, kernel@)),
                ..old(self)@
            }),
    {
        let ghost kv = kernel@;
        self.kernels.push((kernel_id, kernel));
        proof {
            assert(final(self)@.kernels =~= old(self)@.kernels.push((kernel_id.id, kv)));
            assert(final(self)@ =~= (AppStateView {
                kernels: old(self)@.kernels.push((kernel_id.id, kv)),
                ..old(self)@
            }));
        }
    }

    /// The position of the kernel keyed `id`, if any.
    pub fn kernel_index_of(&self, id: KernelId) -> (r: Option<usize>)
        ensures
            match r {
                Option::Some(i) => kernel_index(self@.kernels, id.id, 0) == Option::Some(i as int)
                    && i < self@.kernels.len(),
                Option::None => kernel_index(self@.kernels, id.id, 0) is None,
            },
    {
        let mut i: usize = 0;
        while i < self.kernels.len()
            invariant
                i <= self.kernels.len(),
                self.kernels@.len() == self@.kernels.len(),
                kernel_index(self@.kernels, id.id, 0) == kernel_index(
                    self@.kernels,
                    id.id,
                    i as int,
                ),
            decreases self.kernels.len() - i,
        {
            if self.kernels[i].0 == id {
                proof {
                    assert(self@.kernels[i as int].0 == id.id);
                }
                return Some(i);
            }
            proof {
                assert(self@.kernels[i as int].0 != id.id);
            }
            i += 1;
        }
        None
    }

    /// The kernel handle at a position, for reading.
    pub fn kernel_at(&self, i: usize) -> (r: &KernelHandle)
        requires
            i < self@.kernels.len(),
        ensures
            r@ == self@.kernels[i as int].1,
    {
        &self.kernels[i].1
    }

    /// The kernel handle at a position, for mutation.
    pub fn kernel_mut(&mut self, i: usize) -> (r: &mut KernelHandle)
        requires
            i < old(self)@.kernels.len(),
        ensures
            (*r)@ == old(self)@.kernels[i as int].1,
            final(self)@.kernels.len() == old(self)@.kernels.len(),
            final(self)@.kernels[i as int].0 == old(self)@.kernels[i as int].0,
            final(self)@.kernels[i as int].1 == (*final(r))@,
            forall|j: int|
                0 <= j < old(self)@.kernels.len() && j != i ==> final(self)@.kernels[j] == old(self)@.kernels[j],
            final(self)@.notebooks == old(self)@.notebooks,
            final(self)@.id_counter == old(self)@.id_counter,
            final(self)@.kernel_port == old(self)@.kernel_port,
            final(self)@.http_port == old(self)@.http_port,
    {
        &mut self.kernels[i].1
    }

    /// Remove the handle of a kernel that is being stopped; the caller
    /// signals its cancellation. Nothing happens if the id is unknown.
    pub fn stop_kernel(&mut self, kernel_id: KernelId) -> (r: Option<KernelHandle>)
        ensures
            match kernel_index(old(self)@.kernels, kernel_id.id, 0) {
                Option::Some(j) => r is Some && (r->0)@ == old(self)@.kernels[j].1 && final(self)@ == (AppStateView { kernels: old(self)@.kernels.remove(j), ..old(self)@ }),
                Option::None => r is None && *final(self) == *old(self),
            },
    {
        let mut i: usize = 0;
        while i < self.kernels.len()
            invariant
                *self == *old(self),
                i <= self.kernels.len(),
                self.kernels@.len() == self@.kernels.len(),
                kernel_index(self@.kernels, kernel_id.id, 0) == kernel_index(
                    self@.kernels,
                    kernel_id.id,
                    i as int,
                ),
            decreases self.kernels.len() - i,
        {
            if self.kernels[i].0 == kernel_id {
                proof {
                    assert(self@.kernels[i as int].0 == kernel_id.id);
                    assert(kernel_index(self@.kernels, kernel_id.id, 0) == Option::Some(i as int));
                }
                let handle = self.kernels.remove(i).1;
                proof {
                    assert(final(self)@.kernels =~= old(self)@.kernels.remove(i as int));
                    assert(final(self)@ =~= (AppStateView {
                        kernels: old(self)@.kernels.remove(i as int),
                        ..old(self)@
                    }));
                }
                return Some(handle);
            }
            proof {
                assert(self@.kernels[i as int].0 != kernel_id.id);
            }
            i += 1;
        }
        None
    }

    /// Record the ephemeral port the kernel listener bound.
    pub fn set_kernel_port(&mut self, kernel_port: u16)
        ensures
            final(self)@ == (AppStateView { kernel_port, ..old(self)@ }),
    {
        self.kernel_port = kernel_port;
        proof {
            assert(final(self)@ =~= (AppStateView { kernel_port, ..old(self)@ }));
        }
    }

    pub fn kernel_port(&self) -> (r: u16)
        ensures
            r == self@.kernel_port,
    {
        self.kernel_port
    }

    pub fn http_port(&self) -> (r: u16)
        ensures
            r == self@.http_port,
    {
        self.http_port
    }

    /// The position of the first notebook at `path`, if any is loaded
    /// there.
    pub fn notebook_by_path_index(&self, path: &String) -> (r: Option<usize>)
        ensures
            match r {
                Option::Some(i) => notebook_path_index(self@.notebooks, path@, 0) == Option::Some(
                    i as int,
                ) && i < self@.notebooks.len(),
                Option::None => notebook_path_index(self@.notebooks, path@, 0) is None,
            },
    {
        let mut i: usize = 0;
        while i < self.notebooks.len()
            invariant
                i <= self.notebooks.len(),
                self.notebooks@.len() == self@.notebooks.len(),
                notebook_path_index(self@.notebooks, path@, 0) == notebook_path_index(
                    self@.notebooks,
                    path@,
                    i as int,
                ),
            decreases self.notebooks.len() - i,
        {
            if self.notebooks[i].1.path_matches(path) {
                proof {
                    assert(self@.notebooks[i as int].1.path == path@);
                }
                return Some(i);
            }
            proof {
                assert(self@.notebooks[i as int].1.path != path@);
            }
            i += 1;
        }
        None
    }
}

} // verus!
