//! Client-visible message types and snapshot descriptors.
//!
//! These are the values the reactor emits toward the (at most one)
//! observer session of a notebook. The unverified shell turns them into
//! tagged JSON text frames; the library only builds them.

use vstd::prelude::*;

use crate::ids::{KernelId, NotebookId, OutputCellId, RunId};
use crate::messages::{OutputFlag, ToKernelMessage, ToKernelMessageView};
use crate::notebook::{
    kernel_state_desc_of, EditorGroup, EditorGroupView, KernelStateDesc, KernelStateDescView,
    Notebook, NotebookView, OutputCell, OutputCellView, OutputValue, RunView,
};
use crate::scopes::{GlobalsUpdateView, GlobalsView, SerializedGlobals, SerializedGlobalsUpdate};
use vstd::std_specs::vec::group_vec_axioms;

verus! {

broadcast use vstd::seq::group_seq_axioms, group_vec_axioms;

/// Snapshot of one run, as shown to a client.
pub struct RunDesc {
    pub id: RunId,
    pub title: String,
    pub output_cells: Vec<OutputCell>,
    pub kernel_state: KernelStateDesc,
    pub globals: SerializedGlobals,
}

/// Model of a [`RunDesc`].
#[verifier::ext_equal]
pub struct RunDescView {
    pub id: u128,
    pub title: Seq<char>,
    pub output_cells: Seq<OutputCellView>,
    pub kernel_state: KernelStateDescView,
    pub globals: GlobalsView,
}

impl View for RunDesc {
    type V = RunDescView;

    open spec fn view(&self) -> RunDescView {
        RunDescView {
            id: self.id.id,
            title: self.title@,
            output_cells: Seq::new(self.output_cells@.len(), |i: int| self.output_cells@[i]@),
            kernel_state: self.kernel_state@,
            globals: self.globals@,
        }
    }
}

/// The snapshot a run denotes.
pub open spec fn run_desc_of(id: u128, rv: RunView) -> RunDescView {
    RunDescView {
        id,
        title: rv.title,
        output_cells: rv.output_cells,
        kernel_state: kernel_state_desc_of(rv.kernel, rv.queue),
        globals: rv.globals,
    }
}

/// Snapshot of a notebook, as shown to a client.
pub struct NotebookDesc {
    pub id: NotebookId,
    pub path: String,
    pub editor_root: EditorGroup,
    pub editor_open_nodes: Vec<crate::ids::EditorId>,
    pub runs: Vec<RunDesc>,
}

/// Model of a [`NotebookDesc`].
#[verifier::ext_equal]
pub struct NotebookDescView {
    pub id: u32,
    pub path: Seq<char>,
    pub editor_root: EditorGroupView,
    pub editor_open_nodes: Seq<u128>,
    pub runs: Seq<RunDescView>,
}

impl View for NotebookDesc {
    type V = NotebookDescView;

    open spec fn view(&self) -> NotebookDescView {
        NotebookDescView {
            id: self.id.id,
            path: self.path@,
            editor_root: self.editor_root@,
            editor_open_nodes: crate::notebook::editor_ids_view(self.editor_open_nodes@),
            runs: Seq::new(self.runs@.len(), |i: int| self.runs@[i]@),
        }
    }
}

/// The snapshot a notebook denotes: its runs in creation order, each
/// projected through [`run_desc_of`].
pub open spec fn notebook_desc_of(id: u32, nv: NotebookView) -> NotebookDescView {
    NotebookDescView {
        id,
        path: nv.path,
        editor_root: nv.editor_root,
        editor_open_nodes: nv.editor_open_nodes,
        runs: Seq::new(nv.runs.len(), |i: int| run_desc_of(nv.runs[i].0, nv.runs[i].1)),
    }
}

/// Kind of a directory entry shown by the directory listing.
#[derive(Clone, Copy, Debug, PartialEq, Eq, Structural)]
pub enum DirEntryType {
    Notebook,
    LoadedNotebook,
    File,
    Dir,
}

/// One entry of the directory listing.
pub struct DirEntry {
    pub path: String,
    pub entry_type: DirEntryType,
}

/// Model of a [`DirEntry`].
#[verifier::ext_equal]
pub struct DirEntryView {
    pub path: Seq<char>,
    pub entry_type: DirEntryType,
}

impl View for DirEntry {
    type V = DirEntryView;

    open spec fn view(&self) -> DirEntryView {
        DirEntryView { path: self.path@, entry_type: self.entry_type }
    }
}

/// One live kernel, as listed to a client.
#[derive(Clone, Copy, Debug, PartialEq, Eq, Structural)]
pub struct KernelInfo {
    pub kernel_id: KernelId,
    pub notebook_id: NotebookId,
    pub run_id: RunId,
    pub pid: u32,
}

/// Messages emitted toward an observer session.
pub enum ToClientMessage {
    Error {
        message: String,
    },
    NewNotebook {
        notebook: NotebookDesc,
    },
    KernelReady {
        notebook_id: NotebookId,
        run_id: RunId,
    },
    KernelCrashed {
        notebook_id: NotebookId,
        run_id: RunId,
        message: String,
    },
    Output {
        notebook_id: NotebookId,
        run_id: RunId,
        cell_id: OutputCellId,
        value: OutputValue,
        flag: OutputFlag,
        update: Option<SerializedGlobalsUpdate>,
        kernel_state: KernelStateDesc,
    },
    SaveCompleted {
        notebook_id: NotebookId,
        error: Option<String>,
    },
    DirList {
        entries: Vec<DirEntry>,
    },
    Kernels {
        kernels: Vec<KernelInfo>,
    },
}

/// Model of a [`ToClientMessage`].
pub enum ToClientMessageView {
    Error {
        message: Seq<char>,
    },
    NewNotebook {
        notebook: NotebookDescView,
    },
    KernelReady {
        notebook_id: u32,
        run_id: u128,
    },
    KernelCrashed {
        notebook_id: u32,
        run_id: u128,
        message: Seq<char>,
    },
    Output {
        notebook_id: u32,
        run_id: u128,
        cell_id: u128,
        value: crate::messages::OutputValueView,
        flag: OutputFlag,
        update: Option<GlobalsUpdateView>,
        kernel_state: KernelStateDescView,
    },
    SaveCompleted {
        notebook_id: u32,
        error: Option<Seq<char>>,
    },
    DirList {
        entries: Seq<DirEntryView>,
    },
    Kernels {
        kernels: Seq<KernelInfo>,
    },
}

impl View for ToClientMessage {
    type V = ToClientMessageView;

    open spec fn view(&self) -> ToClientMessageView {
        match self {
            ToClientMessage::Error { message } => ToClientMessageView::Error { message: message@ },
            ToClientMessage::NewNotebook { notebook } => ToClientMessageView::NewNotebook {
                notebook: notebook@,
            },
            ToClientMessage::KernelReady { notebook_id, run_id } => {
                ToClientMessageView::KernelReady {
                    notebook_id: notebook_id.id,
                    run_id: run_id.id,
                }
            },
            ToClientMessage::KernelCrashed { notebook_id, run_id, message } => {
                ToClientMessageView::KernelCrashed {
                    notebook_id: notebook_id.id,
                    run_id: run_id.id,
                    message: message@,
                }
            },
            ToClientMessage::Output {
                notebook_id,
                run_id,
                cell_id,
                value,
                flag,
                update,
                kernel_state,
            } => ToClientMessageView::Output {
                notebook_id: notebook_id.id,
                run_id: run_id.id,
                cell_id: cell_id.id,
                value: value@,
                flag: *flag,
                update: match update {
                    Option::Some(u) => Option::Some(u@),
                    Option::None => Option::None,
                },
                kernel_state: kernel_state@,
            },
            ToClientMessage::SaveCompleted { notebook_id, error } => {
                ToClientMessageView::SaveCompleted {
                    notebook_id: notebook_id.id,
                    error: match error {
                        Option::Some(e) => Option::Some(e@),
                        Option::None => Option::None,
                    },
                }
            },
            ToClientMessage::DirList { entries } => ToClientMessageView::DirList {
                entries: Seq::new(entries@.len(), |i: int| entries@[i]@),
            },
            ToClientMessage::Kernels { kernels } => ToClientMessageView::Kernels {
                kernels: kernels@,
            },
        }
    }
}

} // verus!
