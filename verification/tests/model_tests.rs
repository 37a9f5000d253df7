use twinsong::errors::CoreError;
use twinsong::ids::{EditorId, KernelId, NotebookId, OutputCellId, RunId};
use twinsong::kernel::{KernelCtx, KernelHandle};
use twinsong::messages::{
    CodeGroup, CodeScope, ComputeMsg, KernelOutputValue, OutputFlag, ToKernelMessage,
};
use twinsong::notebook::{
    EditorCell, EditorGroup, EditorNode, KernelState, KernelStateDesc, Notebook, OutputCell,
    OutputValue, Run, ScopeType,
};
use twinsong::scopes::SerializedGlobals;

fn sample_group(id: u128) -> EditorGroup {
    EditorGroup {
        id: EditorId::new(id),
        name: "project".to_string(),
        children: vec![EditorNode::Cell(EditorCell {
            id: EditorId::new(id + 1),
            code: "print(1)".to_string(),
        })],
        scope: ScopeType::Own,
    }
}

fn fresh_run() -> Run {
    Run::new(
        "run one".to_string(),
        Vec::new(),
        KernelState::Init(KernelId::new(10)),
        SerializedGlobals::default(),
        1000,
    )
}

fn compute(cell: u128) -> ToKernelMessage {
    ToKernelMessage::Compute(ComputeMsg {
        cell_id: OutputCellId::new(cell),
        code: CodeGroup { children: Vec::new(), scope: CodeScope::Inherit },
    })
}

fn compute_cell_id(m: &ToKernelMessage) -> u128 {
    match m {
        ToKernelMessage::Compute(c) => c.cell_id.id,
    }
}

#[test]
fn is_final_only_on_terminal_flags() {
    assert!(!OutputFlag::Running.is_final());
    assert!(OutputFlag::Success.is_final());
    assert!(OutputFlag::Fail.is_final());
}

#[test]
fn output_value_translation_keeps_the_payload() {
    let v = OutputValue::new(KernelOutputValue::Text { value: "42".to_string() });
    assert!(matches!(v, OutputValue::Text { ref value } if value == "42"));
    let v = OutputValue::new(KernelOutputValue::Empty);
    assert!(matches!(v, OutputValue::Empty));
}

#[test]
fn queue_counts_submissions_and_crash_forces_zero() {
    let mut run = fresh_run();
    assert_eq!(run.queue_depth(), 0);
    run.add_output_cell(OutputCell::new(
        OutputCellId::new(1),
        sample_group(100),
        EditorId::new(101),
    ));
    run.queue_increment();
    run.add_output_cell(OutputCell::new(
        OutputCellId::new(2),
        sample_group(100),
        EditorId::new(101),
    ));
    run.queue_increment();
    assert_eq!(run.queue_depth(), 2);
    run.queue_decrement();
    assert_eq!(run.queue_depth(), 1);
    run.set_crashed_kernel("boom".to_string());
    assert_eq!(run.queue_depth(), 0);
    assert!(matches!(run.kernel_state(), KernelState::Crashed(m) if m == "boom"));
}

#[test]
fn desc_is_ready_exactly_when_running_with_empty_queue() {
    let mut run = fresh_run();
    assert!(matches!(run.kernel_state_desc(), KernelStateDesc::Init));
    run.set_running_kernel(KernelId::new(10));
    assert!(matches!(run.kernel_state_desc(), KernelStateDesc::Ready));
    run.add_output_cell(OutputCell::new(
        OutputCellId::new(1),
        sample_group(100),
        EditorId::new(101),
    ));
    run.queue_increment();
    assert!(matches!(run.kernel_state_desc(), KernelStateDesc::Running));
    run.queue_decrement();
    assert!(matches!(run.kernel_state_desc(), KernelStateDesc::Ready));
}

#[test]
fn streaming_text_concatenates_instead_of_growing() {
    let mut run = fresh_run();
    run.add_output_cell(OutputCell::new(
        OutputCellId::new(5),
        sample_group(100),
        EditorId::new(101),
    ));
    run.add_output(
        OutputCellId::new(5),
        OutputValue::Text { value: "Hel".to_string() },
        OutputFlag::Running,
    )
    .unwrap();
    run.add_output(
        OutputCellId::new(5),
        OutputValue::Text { value: "lo".to_string() },
        OutputFlag::Running,
    )
    .unwrap();
    let cells = run.output_cells();
    assert_eq!(cells[0].values.len(), 1);
    assert!(matches!(&cells[0].values[0], OutputValue::Text { value } if value == "Hello"));
    assert!(matches!(cells[0].flag, OutputFlag::Running));
}

#[test]
fn terminal_output_appends_and_sets_the_flag() {
    let mut run = fresh_run();
    run.add_output_cell(OutputCell::new(
        OutputCellId::new(5),
        sample_group(100),
        EditorId::new(101),
    ));
    run.add_output(
        OutputCellId::new(5),
        OutputValue::Text { value: "out".to_string() },
        OutputFlag::Running,
    )
    .unwrap();
    run.add_output(
        OutputCellId::new(5),
        OutputValue::Text { value: "42".to_string() },
        OutputFlag::Success,
    )
    .unwrap();
    let cells = run.output_cells();
    assert_eq!(cells[0].values.len(), 2);
    assert!(matches!(cells[0].flag, OutputFlag::Success));
}

#[test]
fn output_for_unknown_cell_is_rejected() {
    let mut run = fresh_run();
    let r = run.add_output(
        OutputCellId::new(9),
        OutputValue::Empty,
        OutputFlag::Success,
    );
    assert!(matches!(r, Err(CoreError::CellNotFound)));
}

#[test]
fn output_lands_in_the_last_cell_with_the_id() {
    let mut run = fresh_run();
    run.add_output_cell(OutputCell::new(
        OutputCellId::new(5),
        sample_group(100),
        EditorId::new(101),
    ));
    run.add_output_cell(OutputCell::new(
        OutputCellId::new(5),
        sample_group(100),
        EditorId::new(101),
    ));
    run.add_output(
        OutputCellId::new(5),
        OutputValue::Text { value: "x".to_string() },
        OutputFlag::Running,
    )
    .unwrap();
    let cells = run.output_cells();
    assert!(cells[0].values.is_empty());
    assert_eq!(cells[1].values.len(), 1);
}

#[test]
fn pending_messages_drain_in_send_order() {
    let ctx = KernelCtx {
        kernel_id: KernelId::new(1),
        notebook_id: NotebookId::new(2),
        run_id: RunId::new(3),
    };
    let mut handle = KernelHandle::new(ctx, 77);
    assert!(handle.is_init());
    assert!(handle.send_message(compute(11)).is_none());
    assert!(handle.send_message(compute(22)).is_none());
    let drained = handle.set_to_ready();
    assert_eq!(drained.len(), 2);
    assert_eq!(compute_cell_id(&drained[0]), 11);
    assert_eq!(compute_cell_id(&drained[1]), 22);
    assert!(!handle.is_init());
    let forwarded = handle.send_message(compute(33));
    assert_eq!(compute_cell_id(&forwarded.unwrap()), 33);
}

#[test]
fn to_code_group_carries_own_scopes_and_cells() {
    let group = EditorGroup {
        id: EditorId::new(50),
        name: "outer".to_string(),
        children: vec![
            EditorNode::Cell(EditorCell { id: EditorId::new(51), code: "a = 1".to_string() }),
            EditorNode::Group(EditorGroup {
                id: EditorId::new(52),
                name: "inner".to_string(),
                children: Vec::new(),
                scope: ScopeType::Inherit,
            }),
        ],
        scope: ScopeType::Own,
    };
    let code = group.to_code_group();
    match &code.scope {
        CodeScope::Own(own) => {
            assert_eq!(own.id.id, 50);
            assert_eq!(own.name, "outer");
        },
        CodeScope::Inherit => panic!("own scope expected"),
    }
    assert_eq!(code.children.len(), 2);
    match &code.children[0] {
        twinsong::messages::CodeNode::Leaf(leaf) => {
            assert_eq!(leaf.id.id, 51);
            assert_eq!(leaf.code, "a = 1");
        },
        _ => panic!("leaf expected"),
    }
    match &code.children[1] {
        twinsong::messages::CodeNode::Group(g) => {
            assert!(matches!(g.scope, CodeScope::Inherit));
        },
        _ => panic!("group expected"),
    }
}

#[test]
fn new_notebook_has_the_default_tree_and_no_runs() {
    let nb = Notebook::new("n.tsnb".to_string());
    assert_eq!(nb.path(), "n.tsnb");
    assert!(nb.observer().is_none());
    assert!(nb.runs().is_empty());
    let root = nb.editor_root();
    assert_eq!(root.name, "project");
    assert!(matches!(root.scope, ScopeType::Own));
    assert_eq!(root.children.len(), 2);
    assert!(matches!(
        &root.children[0],
        EditorNode::Cell(c) if c.code == "print(\"Hello world\")\n\nx = 10\nx"
    ));
    assert!(matches!(&root.children[1], EditorNode::Cell(c) if c.code.is_empty()));
    assert_eq!(nb.editor_open_nodes().len(), 1);
    assert_eq!(nb.editor_open_nodes()[0], root.id);
}

#[test]
fn runs_are_kept_in_creation_order() {
    let mut nb = Notebook::new("n.tsnb".to_string());
    nb.add_run(RunId::new(1), fresh_run());
    nb.add_run(RunId::new(2), fresh_run());
    let runs = nb.runs();
    assert_eq!(runs.len(), 2);
    assert_eq!(runs[0].0, RunId::new(1));
    assert_eq!(runs[1].0, RunId::new(2));
    assert!(nb.has_run(RunId::new(2)));
    let removed = nb.remove_run_by_id(RunId::new(1)).unwrap();
    assert_eq!(removed.title(), "run one");
    assert!(!nb.has_run(RunId::new(1)));
    assert!(matches!(
        nb.remove_run_by_id(RunId::new(1)),
        Err(CoreError::NotFound)
    ));
}

#[test]
fn notebook_desc_snapshots_runs_in_order() {
    let mut nb = Notebook::new("n.tsnb".to_string());
    nb.add_run(RunId::new(1), fresh_run());
    let desc = nb.notebook_desc(NotebookId::new(9));
    assert_eq!(desc.id, NotebookId::new(9));
    assert_eq!(desc.path, "n.tsnb");
    assert_eq!(desc.runs.len(), 1);
    assert_eq!(desc.runs[0].id, RunId::new(1));
    assert_eq!(desc.runs[0].title, "run one");
    assert!(matches!(desc.runs[0].kernel_state, KernelStateDesc::Init));
}

#[test]
fn error_messages_name_their_kind() {
    assert_eq!(CoreError::NotFound.message(), "Not found");
    assert_eq!(CoreError::KernelNotInit.message(), "Kernel is not in init state");
    assert_eq!(CoreError::VersionMismatch.message(), "Invalid version");
    assert_eq!(CoreError::Codec.message(), "Malformed frame or payload");
    assert_eq!(CoreError::IllFormedUpdate.message(), "Ill-formed globals update");
    assert_eq!(CoreError::CellNotFound.message(), "Output cell not found");
}
