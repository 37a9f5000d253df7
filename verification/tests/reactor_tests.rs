use twinsong::client_messages::{DirEntryType, ToClientMessage};
use twinsong::notebook::KernelStateDesc;
use twinsong::errors::CoreError;
use twinsong::ids::{EditorId, NotebookId, OutputCellId, RunId};
use twinsong::messages::{
    FromKernelMessage, KernelOutputValue, OutputFlag, ToKernelMessage,
};
use twinsong::notebook::{EditorCell, EditorGroup, EditorNode, ScopeType};
use twinsong::reactor::{
    close_run, kernel_exited, kernel_list_request, kernel_login, kernel_spawn_failed,
    kernel_spawned, load_notebook, new_notebook, notebook_loaded, process_kernel_message,
    query_dir, run_code, save_completed, save_notebook, Effect, RawDirEntry, RunCodeMsg,
};
use twinsong::state::AppState;

const OBSERVER: u64 = 1;

fn sample_editor(id: u128) -> EditorGroup {
    EditorGroup {
        id: EditorId::new(id),
        name: "project".to_string(),
        children: vec![EditorNode::Cell(EditorCell {
            id: EditorId::new(id + 1),
            code: "print(\"Hello\")\n42".to_string(),
        })],
        scope: ScopeType::Own,
    }
}

/// A state with one notebook and one run whose kernel child has been
/// spawned; returns the state with the notebook id, run id and kernel
/// ctx.
fn started() -> (AppState, NotebookId, RunId, twinsong::kernel::KernelCtx) {
    let mut state = AppState::new(4050);
    state.set_kernel_port(9999);
    let effects = new_notebook(&mut state, "n.tsnb".to_string(), OBSERVER);
    assert_eq!(effects.len(), 2);
    assert!(matches!(
        &effects[0],
        Effect::Emit { target: 1, message: ToClientMessage::NewNotebook { .. } }
    ));
    assert!(matches!(
        &effects[1],
        Effect::SaveNotebook { new_notebook: true, .. }
    ));
    let notebook_id = NotebookId::new(1);
    let run_id = RunId::new(7);
    let (kernel_id, effects) = start_kernel_ok(&mut state, notebook_id, run_id);
    let ctx = match &effects[0] {
        Effect::SpawnKernel { kernel_ctx, kernel_port } => {
            assert_eq!(*kernel_port, 9999);
            assert_eq!(kernel_ctx.kernel_id, kernel_id);
            assert_eq!(kernel_ctx.notebook_id, notebook_id);
            assert_eq!(kernel_ctx.run_id, run_id);
            *kernel_ctx
        },
        _ => panic!("spawn effect expected"),
    };
    kernel_spawned(&mut state, ctx, 4242).unwrap();
    (state, notebook_id, run_id, ctx)
}

fn start_kernel_ok(
    state: &mut AppState,
    notebook_id: NotebookId,
    run_id: RunId,
) -> (twinsong::ids::KernelId, Vec<Effect>) {
    twinsong::reactor::start_kernel(state, notebook_id, run_id, "session".to_string(), 1234)
        .unwrap()
}

fn run_code_msg(notebook_id: NotebookId, run_id: RunId, cell: u128) -> RunCodeMsg {
    RunCodeMsg {
        notebook_id,
        run_id,
        cell_id: OutputCellId::new(cell),
        editor_node: sample_editor(800),
        called_id: EditorId::new(801),
    }
}

fn output(cell: u128, text: &str, flag: OutputFlag) -> FromKernelMessage {
    FromKernelMessage::Output {
        value: KernelOutputValue::Text { value: text.to_string() },
        cell_id: OutputCellId::new(cell),
        flag,
        update: None,
    }
}

#[test]
fn happy_path_compute_reaches_ready() {
    let (mut state, notebook_id, run_id, ctx) = started();
    // The kernel logs in before any code is submitted.
    let (login_ctx, drained, effects) = kernel_login(&mut state, ctx.kernel_id).unwrap();
    assert_eq!(login_ctx.run_id, run_id);
    assert!(drained.is_empty());
    assert!(matches!(
        &effects[0],
        Effect::Emit { message: ToClientMessage::KernelReady { .. }, .. }
    ));
    // Submitting a cell forwards the compute directly.
    let effects = run_code(&mut state, run_code_msg(notebook_id, run_id, 61)).unwrap();
    assert_eq!(effects.len(), 1);
    match &effects[0] {
        Effect::SendKernel { kernel_id, message: ToKernelMessage::Compute(c) } => {
            assert_eq!(*kernel_id, ctx.kernel_id);
            assert_eq!(c.cell_id, OutputCellId::new(61));
        },
        _ => panic!("forward expected"),
    }
    // Streaming output, then the terminal value.
    let effects = process_kernel_message(&mut state, ctx, output(61, "Hello", OutputFlag::Running))
        .unwrap();
    match &effects[0] {
        Effect::Emit {
            message: ToClientMessage::Output { kernel_state, value, .. },
            ..
        } => {
            assert!(matches!(kernel_state, KernelStateDesc::Running));
            assert!(matches!(
                value,
                twinsong::notebook::OutputValue::Text { value } if value == "Hello"
            ));
        },
        _ => panic!("output emission expected"),
    }
    let effects = process_kernel_message(&mut state, ctx, output(61, "42", OutputFlag::Success))
        .unwrap();
    match &effects[0] {
        Effect::Emit { message: ToClientMessage::Output { kernel_state, .. }, .. } => {
            assert!(matches!(kernel_state, KernelStateDesc::Ready));
        },
        _ => panic!("output emission expected"),
    }
}

#[test]
fn messages_before_ready_drain_in_order() {
    let (mut state, notebook_id, run_id, ctx) = started();
    run_code(&mut state, run_code_msg(notebook_id, run_id, 71)).unwrap();
    run_code(&mut state, run_code_msg(notebook_id, run_id, 72)).unwrap();
    let (_, drained, _) = kernel_login(&mut state, ctx.kernel_id).unwrap();
    assert_eq!(drained.len(), 2);
    match (&drained[0], &drained[1]) {
        (ToKernelMessage::Compute(a), ToKernelMessage::Compute(b)) => {
            assert_eq!(a.cell_id, OutputCellId::new(71));
            assert_eq!(b.cell_id, OutputCellId::new(72));
        },
    }
}

#[test]
fn crash_while_running_empties_the_queue() {
    let (mut state, notebook_id, run_id, ctx) = started();
    kernel_login(&mut state, ctx.kernel_id).unwrap();
    run_code(&mut state, run_code_msg(notebook_id, run_id, 61)).unwrap();
    let effects = kernel_exited(&mut state, ctx.kernel_id);
    match &effects[0] {
        Effect::Emit {
            message: ToClientMessage::KernelCrashed { message, .. },
            ..
        } => assert_eq!(message, "Process unexpectedly closed"),
        _ => panic!("crash emission expected"),
    }
    // A later submission finds no live kernel: the cell is queued but
    // nothing is forwarded.
    let effects = run_code(&mut state, run_code_msg(notebook_id, run_id, 62)).unwrap();
    assert!(effects.is_empty());
}

#[test]
fn spawn_failure_crashes_the_run() {
    let mut state = AppState::new(4050);
    new_notebook(&mut state, "n.tsnb".to_string(), OBSERVER);
    let (_, effects) = start_kernel_ok(&mut state, NotebookId::new(1), RunId::new(7));
    let ctx = match &effects[0] {
        Effect::SpawnKernel { kernel_ctx, .. } => *kernel_ctx,
        _ => panic!("spawn effect expected"),
    };
    let effects = kernel_spawn_failed(&mut state, ctx, "no interpreter".to_string());
    match &effects[0] {
        Effect::Emit {
            message: ToClientMessage::KernelCrashed { message, .. },
            ..
        } => assert_eq!(message, "no interpreter"),
        _ => panic!("crash emission expected"),
    }
}

#[test]
fn close_run_stops_the_live_kernel() {
    let (mut state, notebook_id, run_id, ctx) = started();
    let effects = close_run(&mut state, notebook_id, run_id).unwrap();
    assert_eq!(effects.len(), 1);
    assert!(matches!(
        &effects[0],
        Effect::StopKernel { kernel_id } if *kernel_id == ctx.kernel_id
    ));
    // The kernel handle is gone: a second close finds no run.
    assert!(matches!(
        close_run(&mut state, notebook_id, run_id),
        Err(CoreError::NotFound)
    ));
    let effects = kernel_list_request(&state, OBSERVER);
    match &effects[0] {
        Effect::Emit { message: ToClientMessage::Kernels { kernels }, .. } => {
            assert!(kernels.is_empty());
        },
        _ => panic!("kernel list expected"),
    }
}

#[test]
fn duplicate_login_is_rejected() {
    let (mut state, _, _, ctx) = started();
    kernel_login(&mut state, ctx.kernel_id).unwrap();
    assert!(matches!(
        kernel_login(&mut state, ctx.kernel_id),
        Err(CoreError::KernelNotInit)
    ));
    assert!(matches!(
        process_kernel_message(
            &mut state,
            ctx,
            FromKernelMessage::Login { kernel_id: ctx.kernel_id },
        ),
        Err(CoreError::Codec)
    ));
}

#[test]
fn terminal_output_on_empty_queue_is_rejected() {
    let (mut state, _, _, ctx) = started();
    kernel_login(&mut state, ctx.kernel_id).unwrap();
    assert!(matches!(
        process_kernel_message(&mut state, ctx, output(61, "x", OutputFlag::Success)),
        Err(CoreError::QueueEmpty)
    ));
}

#[test]
fn unknown_run_yields_not_found() {
    let mut state = AppState::new(4050);
    assert!(matches!(
        run_code(&mut state, run_code_msg(NotebookId::new(9), RunId::new(9), 1)),
        Err(CoreError::NotFound)
    ));
}

#[test]
fn save_roundtrip_through_the_reactor() {
    let (mut state, notebook_id, _, _) = started();
    let effects = save_notebook(&mut state, notebook_id, sample_editor(900)).unwrap();
    assert!(matches!(
        &effects[0],
        Effect::SaveNotebook { new_notebook: false, .. }
    ));
    let effects = save_completed(&state, notebook_id, None, false);
    assert!(matches!(
        &effects[0],
        Effect::Emit { message: ToClientMessage::SaveCompleted { error: None, .. }, .. }
    ));
    let effects = save_completed(&state, notebook_id, Some("disk full".to_string()), false);
    assert!(matches!(
        &effects[0],
        Effect::Emit {
            message: ToClientMessage::SaveCompleted { error: Some(e), .. },
            ..
        } if e == "disk full"
    ));
}

#[test]
fn loading_a_loaded_notebook_replaces_the_observer() {
    let (mut state, _, _, _) = started();
    let effects = load_notebook(&mut state, "n.tsnb".to_string(), 2);
    assert_eq!(effects.len(), 1);
    match &effects[0] {
        Effect::Emit { target, message: ToClientMessage::NewNotebook { notebook } } => {
            assert_eq!(*target, 2);
            assert_eq!(notebook.path, "n.tsnb");
        },
        _ => panic!("snapshot to the new observer expected"),
    }
    // An unknown path defers to the shell.
    let effects = load_notebook(&mut state, "other.tsnb".to_string(), 2);
    assert!(matches!(
        &effects[0],
        Effect::LoadNotebook { path, observer: 2 } if path == "other.tsnb"
    ));
}

#[test]
fn loaded_bytes_become_a_registered_notebook() {
    let mut source = twinsong::notebook::Notebook::new(String::new());
    source.set_editor_root(sample_editor(900));
    let ser = twinsong::persist::serialize_notebook(&source);
    let files: Vec<Vec<u8>> = ser.runs.iter().map(|(_, b)| b.clone()).collect();

    let mut state = AppState::new(4050);
    let effects = notebook_loaded(
        &mut state,
        ser.notebook_data,
        files,
        "loaded.tsnb".to_string(),
        OBSERVER,
    )
    .unwrap();
    match &effects[0] {
        Effect::Emit { message: ToClientMessage::NewNotebook { notebook }, .. } => {
            assert_eq!(notebook.path, "loaded.tsnb");
            assert_eq!(notebook.editor_root.id, EditorId::new(900));
        },
        _ => panic!("snapshot expected"),
    }
    // It is now found by path.
    let effects = load_notebook(&mut state, "loaded.tsnb".to_string(), 2);
    assert!(matches!(
        &effects[0],
        Effect::Emit { target: 2, message: ToClientMessage::NewNotebook { .. } }
    ));
}

#[test]
fn directory_listing_classifies_and_sorts() {
    let (state, _, _, _) = started();
    let entries = vec![
        RawDirEntry { name: "zeta.txt".to_string(), is_file: true, is_dir: false },
        RawDirEntry { name: "n.tsnb".to_string(), is_file: true, is_dir: false },
        RawDirEntry { name: "n.tsnb.runs".to_string(), is_file: false, is_dir: true },
        RawDirEntry { name: "other.tsnb".to_string(), is_file: true, is_dir: false },
        RawDirEntry { name: "docs".to_string(), is_file: false, is_dir: true },
    ];
    let effects = query_dir(&state, entries, OBSERVER);
    match &effects[0] {
        Effect::Emit { message: ToClientMessage::DirList { entries }, .. } => {
            let listed: Vec<(&str, DirEntryType)> =
                entries.iter().map(|e| (e.path.as_str(), e.entry_type)).collect();
            assert_eq!(
                listed,
                vec![
                    ("docs", DirEntryType::Dir),
                    ("n.tsnb", DirEntryType::LoadedNotebook),
                    ("other.tsnb", DirEntryType::Notebook),
                    ("zeta.txt", DirEntryType::File),
                ],
            );
        },
        _ => panic!("listing expected"),
    }
}

#[test]
fn output_update_is_applied_and_forwarded() {
    let (mut state, notebook_id, run_id, ctx) = started();
    kernel_login(&mut state, ctx.kernel_id).unwrap();
    run_code(&mut state, run_code_msg(notebook_id, run_id, 61)).unwrap();
    let update = twinsong::scopes::SerializedGlobalsUpdate {
        name: "root".to_string(),
        variables: vec![("a".to_string(), Some("1".to_string()))],
        children: Vec::new(),
    };
    let msg = FromKernelMessage::Output {
        value: KernelOutputValue::Text { value: "42".to_string() },
        cell_id: OutputCellId::new(61),
        flag: OutputFlag::Success,
        update: Some(update),
    };
    let effects = process_kernel_message(&mut state, ctx, msg).unwrap();
    match &effects[0] {
        Effect::Emit { message: ToClientMessage::Output { update, .. }, .. } => {
            let u = update.as_ref().unwrap();
            assert_eq!(u.variables[0].0, "a");
            assert_eq!(u.variables[0].1.as_deref(), Some("1"));
        },
        _ => panic!("output emission expected"),
    }
    // The run's globals took the update.
    let ni = state.notebook_index_of(notebook_id).unwrap();
    let nb = state.notebook_at(ni);
    let g = nb.runs()[0].1.globals();
    assert_eq!(g.variables[0], ("a".to_string(), "1".to_string()));
}

#[test]
fn ill_formed_update_leaves_the_run_untouched() {
    let (mut state, notebook_id, run_id, ctx) = started();
    kernel_login(&mut state, ctx.kernel_id).unwrap();
    run_code(&mut state, run_code_msg(notebook_id, run_id, 61)).unwrap();
    let update = twinsong::scopes::SerializedGlobalsUpdate {
        name: "root".to_string(),
        variables: vec![("missing".to_string(), None)],
        children: Vec::new(),
    };
    let msg = FromKernelMessage::Output {
        value: KernelOutputValue::Empty,
        cell_id: OutputCellId::new(61),
        flag: OutputFlag::Success,
        update: Some(update),
    };
    assert!(matches!(
        process_kernel_message(&mut state, ctx, msg),
        Err(CoreError::IllFormedUpdate)
    ));
    // Nothing was poisoned: the queue still counts the computation.
    let ni = state.notebook_index_of(notebook_id).unwrap();
    assert_eq!(state.notebook_at(ni).runs()[0].1.queue_depth(), 1);
}
