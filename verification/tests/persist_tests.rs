use twinsong::errors::CoreError;
use twinsong::ids::{EditorId, KernelId, OutputCellId, RunId, ScopeId};
use twinsong::messages::OutputFlag;
use twinsong::notebook::{
    EditorCell, EditorGroup, EditorNode, KernelState, Notebook, OutputCell, OutputValue, Run,
    ScopeType,
};
use twinsong::persist::{create_run_filename, deserialize_notebook, serialize_notebook};
use twinsong::scopes::SerializedGlobals;
use twinsong::wire::{decode_frame, encode_frame, read_string, read_u32, MAX_FRAME_LEN};

fn editor_tree() -> EditorGroup {
    EditorGroup {
        id: EditorId::new(500),
        name: "project".to_string(),
        children: vec![
            EditorNode::Cell(EditorCell {
                id: EditorId::new(501),
                code: "print(\"Hello\")".to_string(),
            }),
            EditorNode::Group(EditorGroup {
                id: EditorId::new(502),
                name: "inner".to_string(),
                children: vec![EditorNode::Cell(EditorCell {
                    id: EditorId::new(503),
                    code: "x = 1".to_string(),
                })],
                scope: ScopeType::Inherit,
            }),
        ],
        scope: ScopeType::Own,
    }
}

fn globals() -> SerializedGlobals {
    SerializedGlobals::new(
        "root".to_string(),
        vec![("a".to_string(), "\"json\"".to_string())],
        vec![(
            ScopeId::new(77),
            SerializedGlobals::new(
                "inner".to_string(),
                vec![("b".to_string(), "2".to_string())],
                Vec::new(),
            ),
        )],
    )
}

fn run_with(title: &str, kernel: KernelState, created: i128) -> Run {
    let mut cell = OutputCell::new(OutputCellId::new(60), editor_tree(), EditorId::new(501));
    let _ = &mut cell;
    let mut run = Run::new(title.to_string(), vec![cell], kernel, globals(), created);
    run.add_output(
        OutputCellId::new(60),
        OutputValue::Text { value: "out".to_string() },
        OutputFlag::Success,
    )
    .unwrap();
    run
}

#[test]
fn frame_roundtrip_and_partial_buffers() {
    let payload: Vec<u8> = vec![1, 2, 3, 4, 5];
    let frame = encode_frame(&payload).unwrap();
    assert_eq!(frame.len(), 9);
    let decoded = decode_frame(&frame).unwrap().unwrap();
    assert_eq!(decoded.0, payload);
    assert_eq!(decoded.1, 9);
    let partial: Vec<u8> = frame[..6].to_vec();
    assert!(decode_frame(&partial).unwrap().is_none());
    let tiny: Vec<u8> = vec![9];
    assert!(decode_frame(&tiny).unwrap().is_none());
}

#[test]
fn oversized_frames_are_refused_both_ways() {
    let mut huge_header: Vec<u8> = Vec::new();
    let too_big = (MAX_FRAME_LEN as u32) + 1;
    huge_header.extend_from_slice(&too_big.to_le_bytes());
    huge_header.extend_from_slice(&[0, 0, 0]);
    assert!(matches!(decode_frame(&huge_header), Err(CoreError::Codec)));
}

#[test]
fn wire_integers_and_strings_roundtrip() {
    let mut out: Vec<u8> = Vec::new();
    twinsong::wire::put_u32(&mut out, 0xDEAD_BEEF);
    twinsong::wire::put_string(&mut out, "héllo ✓");
    let (x, p) = read_u32(&out, 0).unwrap();
    assert_eq!(x, 0xDEAD_BEEF);
    let (s, _) = read_string(&out, p).unwrap();
    assert_eq!(s, "héllo ✓");
}

#[test]
fn run_filename_sanitizes_and_shortens() {
    let id = RunId::new(0xabcdef12_00000000_00000000_00000000u128);
    let name = create_run_filename("my run!longer", id);
    assert_eq!(name, "my_run_l_abcdef12.run");
    let short = create_run_filename("ok", id);
    assert_eq!(short, "ok_abcdef12.run");
}

#[test]
fn notebook_roundtrip_preserves_tree_and_runs() {
    let mut nb = Notebook::new(String::new());
    nb.set_editor_root(editor_tree());
    nb.add_run(
        RunId::new(1),
        run_with("first", KernelState::Closed, 100),
    );
    nb.add_run(
        RunId::new(2),
        run_with("second", KernelState::Crashed("boom".to_string()), 200),
    );
    let ser = serialize_notebook(&nb);
    assert_eq!(ser.runs.len(), 2);
    let files: Vec<Vec<u8>> = ser.runs.iter().map(|(_, bytes)| bytes.clone()).collect();
    let loaded = deserialize_notebook(&ser.notebook_data, &files).unwrap();

    let root = loaded.editor_root();
    assert_eq!(root.id, EditorId::new(500));
    assert_eq!(root.name, "project");
    assert_eq!(root.children.len(), 2);
    assert!(matches!(
        &root.children[0],
        EditorNode::Cell(c) if c.code == "print(\"Hello\")"
    ));
    match &root.children[1] {
        EditorNode::Group(g) => {
            assert_eq!(g.name, "inner");
            assert!(matches!(g.scope, ScopeType::Inherit));
            assert!(matches!(
                &g.children[0],
                EditorNode::Cell(c) if c.code == "x = 1"
            ));
        },
        _ => panic!("group expected"),
    }

    let runs = loaded.runs();
    assert_eq!(runs.len(), 2);
    // Order is by creation time, ascending; identical to the save order
    // here since the timestamps increase.
    assert_eq!(runs[0].0, RunId::new(1));
    assert_eq!(runs[0].1.title(), "first");
    assert_eq!(runs[0].1.created(), 100);
    assert!(matches!(runs[0].1.kernel_state(), KernelState::Closed));
    assert_eq!(runs[1].0, RunId::new(2));
    assert!(matches!(
        runs[1].1.kernel_state(),
        KernelState::Crashed(m) if m == "boom"
    ));
    // The output cells and globals survive.
    let cells = runs[0].1.output_cells();
    assert_eq!(cells.len(), 1);
    assert_eq!(cells[0].id, OutputCellId::new(60));
    assert_eq!(cells[0].values.len(), 1);
    assert!(matches!(cells[0].flag, OutputFlag::Success));
    let g = runs[0].1.globals();
    assert_eq!(g.name, "root");
    assert_eq!(g.variables[0], ("a".to_string(), "\"json\"".to_string()));
    assert_eq!(g.children[0].0, ScopeId::new(77));
}

#[test]
fn load_sorts_runs_by_created_ascending() {
    let mut nb = Notebook::new(String::new());
    nb.add_run(RunId::new(5), run_with("late", KernelState::Closed, 900));
    nb.add_run(RunId::new(6), run_with("early", KernelState::Closed, 100));
    let ser = serialize_notebook(&nb);
    let files: Vec<Vec<u8>> = ser.runs.iter().map(|(_, bytes)| bytes.clone()).collect();
    let loaded = deserialize_notebook(&ser.notebook_data, &files).unwrap();
    let runs = loaded.runs();
    assert_eq!(runs[0].1.title(), "early");
    assert_eq!(runs[1].1.title(), "late");
}

#[test]
fn live_kernel_states_are_narrowed_to_closed() {
    let mut nb = Notebook::new(String::new());
    nb.add_run(
        RunId::new(1),
        run_with("live", KernelState::Running(KernelId::new(4)), 10),
    );
    let ser = serialize_notebook(&nb);
    let files: Vec<Vec<u8>> = ser.runs.iter().map(|(_, bytes)| bytes.clone()).collect();
    let loaded = deserialize_notebook(&ser.notebook_data, &files).unwrap();
    assert!(matches!(
        loaded.runs()[0].1.kernel_state(),
        KernelState::Closed
    ));
    assert_eq!(loaded.runs()[0].1.queue_depth(), 0);
}

#[test]
fn second_save_produces_exactly_its_own_run_files() {
    let mut nb = Notebook::new(String::new());
    nb.add_run(RunId::new(1), run_with("first", KernelState::Closed, 1));
    let first = serialize_notebook(&nb);
    assert_eq!(first.runs.len(), 1);

    nb.remove_run_by_id(RunId::new(1)).unwrap();
    nb.add_run(RunId::new(2), run_with("second", KernelState::Closed, 2));
    nb.add_run(RunId::new(3), run_with("third", KernelState::Closed, 3));
    let second = serialize_notebook(&nb);
    let names: Vec<&str> = second.runs.iter().map(|(n, _)| n.as_str()).collect();
    assert_eq!(names.len(), 2);
    assert!(names[0].starts_with("second_"));
    assert!(names[1].starts_with("third_"));
    assert!(!names.iter().any(|n| n.starts_with("first_")));
}

#[test]
fn version_mismatch_is_its_own_error() {
    let nb = Notebook::new(String::new());
    let ser = serialize_notebook(&nb);
    let mut out: Vec<u8> = Vec::new();
    twinsong::wire::put_string(&mut out, "twinsong 9.9.9");
    let r = deserialize_notebook(&out, &Vec::new());
    assert!(matches!(r, Err(CoreError::VersionMismatch)));
    let garbage: Vec<u8> = vec![1, 2, 3];
    assert!(matches!(
        deserialize_notebook(&garbage, &Vec::new()),
        Err(CoreError::Codec)
    ));
    let ok = deserialize_notebook(&ser.notebook_data, &Vec::new());
    assert!(ok.is_ok());
}

#[test]
fn duplicate_run_ids_in_the_sidecar_are_rejected() {
    let mut nb = Notebook::new(String::new());
    nb.add_run(RunId::new(1), run_with("only", KernelState::Closed, 5));
    let ser = serialize_notebook(&nb);
    let file = ser.runs[0].1.clone();
    let files = vec![file.clone(), file];
    assert!(matches!(
        deserialize_notebook(&ser.notebook_data, &files),
        Err(CoreError::Codec)
    ));
}
