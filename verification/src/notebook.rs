//! The notebook model: editor tree, output cells, runs and notebooks.

use vstd::prelude::*;
use vstd::string::StringExecFns;

use crate::errors::CoreError;
use crate::ids::{EditorId, KernelId, NotebookId, OutputCellId, RunId, ScopeId};
use crate::messages::{
    CodeGroup, CodeGroupView, CodeLeaf, CodeNode, CodeNodeView, CodeScope, CodeScopeView,
    Exception, KernelOutputValue, OutputFlag, OutputValueView, OwnCodeScope,
};
use crate::scopes::{
    apply_ok, apply_view, empty_globals_view, GlobalsUpdateView, GlobalsView, SerializedGlobals,
    SerializedGlobalsUpdate,
};

verus! {

broadcast use vstd::seq::group_seq_axioms, vstd::std_specs::vec::group_vec_axioms;

/// Whether an editor group opens a scope of its own or inherits the
/// enclosing one.
#[derive(Clone, Copy, Debug, PartialEq, Eq, Structural)]
pub enum ScopeType {
    Own,
    Inherit,
}

/// A leaf of the editor tree: one cell of code.
pub struct EditorCell {
    pub id: EditorId,
    pub code: String,
}

/// An inner node of the editor tree.
pub struct EditorGroup {
    pub id: EditorId,
    pub name: String,
    pub children: Vec<EditorNode>,
    pub scope: ScopeType,
}

/// A node of the editor tree.
pub enum EditorNode {
    Group(EditorGroup),
    Cell(EditorCell),
}

/// Model of an [`EditorNode`].
pub enum EditorNodeView {
    Group(EditorGroupView),
    Cell(u128, Seq<char>),
}

/// Model of an [`EditorGroup`].
#[verifier::ext_equal]
pub struct EditorGroupView {
    pub id: u128,
    pub name: Seq<char>,
    pub children: Seq<EditorNodeView>,
    pub scope: ScopeType,
}

pub open spec fn editor_node_view(n: EditorNode) -> EditorNodeView
    decreases n,
{
    match n {
        EditorNode::Group(g) => EditorNodeView::Group(editor_group_view(g)),
        EditorNode::Cell(c) => EditorNodeView::Cell(c.id.id, c.code@),
    }
}

pub open spec fn editor_group_view(g: EditorGroup) -> EditorGroupView
    decreases g,
{
    EditorGroupView {
        id: g.id.id,
        name: g.name@,
        children: Seq::new(
            g.children@.len(),
            |i: int|
                if 0 <= i < g.children@.len() {
                    editor_node_view(g.children@[i])
                } else {
                    EditorNodeView::Cell(0u128, Seq::empty())
                },
        ),
        scope: g.scope,
    }
}

impl View for EditorNode {
    type V = EditorNodeView;

    open spec fn view(&self) -> EditorNodeView {
        editor_node_view(*self)
    }
}

impl View for EditorGroup {
    type V = EditorGroupView;

    open spec fn view(&self) -> EditorGroupView {
        editor_group_view(*self)
    }
}

/// The code tree that an editor node denotes for transport to the
/// kernel: `Own` groups carry their id and name as the scope; cells
/// become leaves.
pub open spec fn code_of_editor_node(n: EditorNodeView) -> CodeNodeView
    decreases n,
{
    match n {
        EditorNodeView::Group(g) => CodeNodeView::Group(code_of_editor_group(g)),
        EditorNodeView::Cell(id, code) => CodeNodeView::Leaf(id, code),
    }
}

/// The code tree that an editor group denotes.
pub open spec fn code_of_editor_group(g: EditorGroupView) -> CodeGroupView
    decreases g,
{
    CodeGroupView {
        children: Seq::new(
            g.children.len(),
            |i: int|
                if 0 <= i < g.children.len() {
                    code_of_editor_node(g.children[i])
                } else {
                    CodeNodeView::Leaf(0u128, Seq::empty())
                },
        ),
        scope: match g.scope {
            ScopeType::Own => CodeScopeView::Own(g.id, g.name),
            ScopeType::Inherit => CodeScopeView::Inherit,
        },
    }
}

/// The ids of all groups of the subtree rooted at `n`, in preorder.
pub open spec fn editor_node_group_ids(n: EditorNodeView) -> Seq<u128>
    decreases n, 0int, 0int,
{
    match n {
        EditorNodeView::Group(g) => editor_group_group_ids(g),
        EditorNodeView::Cell(_, _) => Seq::empty(),
    }
}

/// The ids of all groups of the subtree rooted at `g`, in preorder.
pub open spec fn editor_group_group_ids(g: EditorGroupView) -> Seq<u128>
    decreases g, 1int, 0int,
{
    seq![g.id] + editor_children_group_ids(g.children, 0)
}

/// The group ids of the children from index `i` on, in preorder.
pub open spec fn editor_children_group_ids(ch: Seq<EditorNodeView>, i: int) -> Seq<u128>
    decreases ch, 2int, ch.len() - i,
{
    if i < 0 || i >= ch.len() {
        Seq::empty()
    } else {
        editor_node_group_ids(ch[i]) + editor_children_group_ids(ch, i + 1)
    }
}

impl EditorNode {
    /// The code tree this node denotes.
    pub fn to_code_node(&self) -> (r: CodeNode)
        ensures
            r@ == code_of_editor_node(self@),
        decreases *self,
    {
        match self {
            EditorNode::Group(group) => CodeNode::Group(group.to_code_group()),
            EditorNode::Cell(cell) => CodeNode::Leaf(
                CodeLeaf { id: cell.id, code: cell.code.clone() },
            ),
        }
    }

    /// Append the ids of all groups of this subtree, in preorder.
    pub fn collect_group_ids(&self, out: &mut Vec<EditorId>)
        ensures
            final(out)@.len() == old(out)@.len() + editor_node_group_ids(self@).len(),
            editor_ids_view(final(out)@) == editor_ids_view(old(out)@) + editor_node_group_ids(
                self@,
            ),
        decreases *self,
    {
        match self {
            EditorNode::Group(group) => group.collect_group_ids(out),
            EditorNode::Cell(_) => {
                proof {
                    assert(editor_ids_view(out@) + editor_node_group_ids(self@) =~= editor_ids_view(
                        out@,
                    ));
                }
            },
        }
    }
}

/// View of a vector of editor ids as a sequence of raw ids.
pub open spec fn editor_ids_view(s: Seq<EditorId>) -> Seq<u128> {
    Seq::new(s.len(), |i: int| s[i].id)
}

impl EditorGroup {
    /// The code tree this group denotes.
    pub fn to_code_group(&self) -> (r: CodeGroup)
        ensures
            r@ == code_of_editor_group(self@),
        decreases *self,
    {
        let mut children: Vec<CodeNode> = Vec::new();
        let mut i: usize = 0;
        while i < self.children.len()
            invariant
                i <= self.children.len(),
                children@.len() == i,
                forall|j: int|
                    0 <= j < i ==> code_node_view_of(#[trigger] children@[j])
                        == code_of_editor_node(editor_node_view(self.children@[j])),
            decreases self.children.len() - i,
        {
            let node = self.children[i].to_code_node();
            children.push(node);
            i += 1;
        }
        let scope = match self.scope {
            ScopeType::Own => CodeScope::Own(
                OwnCodeScope { id: ScopeId::new(self.id.id), name: self.name.clone() },
            ),
            ScopeType::Inherit => CodeScope::Inherit,
        };
        let r = CodeGroup { children, scope };
        proof {
            assert forall|j: int| 0 <= j < r@.children.len() implies r@.children[j]
                == code_of_editor_group(self@).children[j] by {
                assert(code_node_view_of(children@[j]) == code_of_editor_node(
                    editor_node_view(self.children@[j]),
                ));
            }
            assert(r@.children =~= code_of_editor_group(self@).children);
            assert(r@ =~= code_of_editor_group(self@));
        }
        r
    }

    /// Append the ids of all groups of this subtree, in preorder: this
    /// group's id first, then its children's groups.
    pub fn collect_group_ids(&self, out: &mut Vec<EditorId>)
        ensures
            final(out)@.len() == old(out)@.len() + editor_group_group_ids(self@).len(),
            editor_ids_view(final(out)@) == editor_ids_view(old(out)@) + editor_group_group_ids(
                self@,
            ),
        decreases *self,
    {
        out.push(self.id);
        let ghost base = out@;
        proof {
            assert(editor_ids_view(base) =~= editor_ids_view(old(out)@) + seq![self.id.id]);
        }
        let mut i: usize = 0;
        while i < self.children.len()
            invariant
                i <= self.children.len(),
                editor_ids_view(out@) == editor_ids_view(base) + editor_children_group_ids_to(
                    self@.children,
                    i as int,
                ),
            decreases self.children.len() - i,
        {
            let ghost pre = out@;
            self.children[i].collect_group_ids(out);
            proof {
                assert(self@.children[i as int] == editor_node_view(self.children@[i as int]));
                lemma_children_group_ids_to_step(self@.children, i as int);
                assert(editor_ids_view(out@) =~= editor_ids_view(base)
                    + editor_children_group_ids_to(self@.children, i as int + 1));
            }
            i += 1;
        }
        proof {
            lemma_children_group_ids_to_full(self@.children);
            assert(editor_ids_view(out@) =~= editor_ids_view(old(out)@)
                + editor_group_group_ids(self@));
        }
    }
}

/// View of one code node; mirror of [`crate::messages::code_node_view`]
/// for use where a trigger term is wanted.
pub open spec fn code_node_view_of(n: CodeNode) -> CodeNodeView {
    crate::messages::code_node_view(n)
}

/// The group ids of the children before index `i`, in preorder.
pub open spec fn editor_children_group_ids_to(ch: Seq<EditorNodeView>, i: int) -> Seq<u128>
    decreases i,
{
    if i <= 0 {
        Seq::empty()
    } else {
        editor_children_group_ids_to(ch, i - 1) + editor_node_group_ids(ch[i - 1])
    }
}

/// Extending the prefix by one child appends that child's group ids.
proof fn lemma_children_group_ids_to_step(ch: Seq<EditorNodeView>, i: int)
    requires
        0 <= i,
    ensures
        editor_children_group_ids_to(ch, i + 1) == editor_children_group_ids_to(ch, i)
            + editor_node_group_ids(ch[i]),
{
}

/// The whole-prefix form agrees with the suffix-recursive form.
proof fn lemma_children_group_ids_to_full(ch: Seq<EditorNodeView>)
    ensures
        editor_children_group_ids_to(ch, ch.len() as int) == editor_children_group_ids(ch, 0),
{
    lemma_children_group_ids_agree(ch, 0);
}

/// An output value in the client-facing form; same model as the on-wire
/// [`KernelOutputValue`], but serialized for clients with an explicit tag.
pub enum OutputValue {
    Text { value: String },
    Html { value: String },
    Exception { value: Exception },
    Empty,
}

impl View for OutputValue {
    type V = OutputValueView;

    open spec fn view(&self) -> OutputValueView {
        match self {
            OutputValue::Text { value } => OutputValueView::Text(value@),
            OutputValue::Html { value } => OutputValueView::Html(value@),
            OutputValue::Exception { value } => OutputValueView::Exception(value@),
            OutputValue::Empty => OutputValueView::Empty,
        }
    }
}

impl OutputValue {
    /// Translate the on-wire form into the client-facing form.
    pub fn new(value: KernelOutputValue) -> (r: Self)
        ensures
            r@ == value@,
    {
        match value {
            KernelOutputValue::Text { value } => OutputValue::Text { value },
            KernelOutputValue::Html { value } => OutputValue::Html { value },
            KernelOutputValue::Exception { value } => OutputValue::Exception { value },
            KernelOutputValue::Empty => OutputValue::Empty,
        }
    }

    /// A deep copy with the same model.
    pub fn duplicate(&self) -> (r: Self)
        ensures
            r@ == self@,
    {
        match self {
            OutputValue::Text { value } => OutputValue::Text { value: value.clone() },
            OutputValue::Html { value } => OutputValue::Html { value: value.clone() },
            OutputValue::Exception { value } => OutputValue::Exception {
                value: Exception {
                    message: value.message.clone(),
                    traceback: value.traceback.clone(),
                },
            },
            OutputValue::Empty => OutputValue::Empty,
        }
    }
}

/// One output cell of a run: the values streamed for one submitted
/// execution, its progress flag, and the editor subtree captured at
/// submission time.
pub struct OutputCell {
    pub id: OutputCellId,
    /// If the flag is terminal, the last value is the returned object or
    /// the exception.
    pub values: Vec<OutputValue>,
    pub flag: OutputFlag,
    pub editor_node: EditorGroup,
    pub called_id: EditorId,
}

/// Model of an [`OutputCell`].
#[verifier::ext_equal]
pub struct OutputCellView {
    pub id: u128,
    pub values: Seq<OutputValueView>,
    pub flag: OutputFlag,
    pub editor_node: EditorGroupView,
    pub called_id: u128,
}

impl View for OutputCell {
    type V = OutputCellView;

    open spec fn view(&self) -> OutputCellView {
        OutputCellView {
            id: self.id.id,
            values: Seq::new(self.values@.len(), |i: int| self.values@[i]@),
            flag: self.flag,
            editor_node: self.editor_node@,
            called_id: self.called_id.id,
        }
    }
}

impl OutputCell {
    /// A fresh cell: no values yet, running.
    pub fn new(id: OutputCellId, editor_node: EditorGroup, called_id: EditorId) -> (r: Self)
        ensures
            r@ == (OutputCellView {
                id: id.id,
                values: Seq::empty(),
                flag: OutputFlag::Running,
                editor_node: editor_node@,
                called_id: called_id.id,
            }),
    {
        let r = OutputCell {
            id,
            values: Vec::new(),
            flag: OutputFlag::Running,
            editor_node,
            called_id,
        };
        proof {
            assert(r@.values =~= Seq::<OutputValueView>::empty());
            assert(r@ =~= (OutputCellView {
                id: id.id,
                values: Seq::empty(),
                flag: OutputFlag::Running,
                editor_node: r.editor_node@,
                called_id: called_id.id,
            }));
        }
        r
    }
}

/// The kernel association of a run. `Init` and `Running` reference a
/// live kernel; the transition `Init` to `Running` is one-way; `Crashed`
/// and `Closed` are detached.
pub enum KernelState {
    Init(KernelId),
    Running(KernelId),
    Crashed(String),
    Closed,
}

/// Model of a [`KernelState`].
pub enum KernelStateView {
    Init(u128),
    Running(u128),
    Crashed(Seq<char>),
    Closed,
}

impl View for KernelState {
    type V = KernelStateView;

    open spec fn view(&self) -> KernelStateView {
        match self {
            KernelState::Init(id) => KernelStateView::Init(id.id),
            KernelState::Running(id) => KernelStateView::Running(id.id),
            KernelState::Crashed(m) => KernelStateView::Crashed(m@),
            KernelState::Closed => KernelStateView::Closed,
        }
    }
}

/// The client-visible projection of a run's kernel state.
pub enum KernelStateDesc {
    Init,
    Ready,
    Running,
    Crashed { message: String },
    Closed,
}

/// Model of a [`KernelStateDesc`].
pub enum KernelStateDescView {
    Init,
    Ready,
    Running,
    Crashed(Seq<char>),
    Closed,
}

impl View for KernelStateDesc {
    type V = KernelStateDescView;

    open spec fn view(&self) -> KernelStateDescView {
        match self {
            KernelStateDesc::Init => KernelStateDescView::Init,
            KernelStateDesc::Ready => KernelStateDescView::Ready,
            KernelStateDesc::Running => KernelStateDescView::Running,
            KernelStateDesc::Crashed { message } => KernelStateDescView::Crashed(message@),
            KernelStateDesc::Closed => KernelStateDescView::Closed,
        }
    }
}

/// The projection rule: `Ready` is `Running` with an empty queue.
pub open spec fn kernel_state_desc_of(kernel: KernelStateView, queue: nat) -> KernelStateDescView {
    match kernel {
        KernelStateView::Init(_) => KernelStateDescView::Init,
        KernelStateView::Running(_) => if queue > 0 {
            KernelStateDescView::Running
        } else {
            KernelStateDescView::Ready
        },
        KernelStateView::Crashed(m) => KernelStateDescView::Crashed(m),
        KernelStateView::Closed => KernelStateDescView::Closed,
    }
}

/// Law: the projection is `Ready` exactly when the internal state is
/// `Running` and the queue is empty.
pub proof fn lemma_ready_iff_running_empty_queue(kernel: KernelStateView, queue: nat)
    ensures
        (kernel_state_desc_of(kernel, queue) is Ready) <==> (kernel is Running && queue == 0),
{
}

/// One execution session: its output cells, kernel association, count
/// of submitted-but-unfinished computations, and globals snapshot.
pub struct Run {
    title: String,
    output_cells: Vec<OutputCell>,
    kernel: KernelState,
    queue: usize,
    globals: SerializedGlobals,
    /// Creation time, in nanoseconds since the epoch.
    created: i128,
}

/// Model of a [`Run`]. The queue is a natural number: it can never fall
/// below zero.
#[verifier::ext_equal]
pub struct RunView {
    pub title: Seq<char>,
    pub output_cells: Seq<OutputCellView>,
    pub kernel: KernelStateView,
    pub queue: nat,
    pub globals: GlobalsView,
    pub created: int,
}

impl View for Run {
    type V = RunView;

    closed spec fn view(&self) -> RunView {
        RunView {
            title: self.title@,
            output_cells: Seq::new(self.output_cells@.len(), |i: int| self.output_cells@[i]@),
            kernel: self.kernel@,
            queue: self.queue as nat,
            globals: self.globals@,
            created: self.created as int,
        }
    }
}

/// The index of the last output cell with this id, scanning down from
/// `i`.
pub open spec fn find_last_cell(cells: Seq<OutputCellView>, id: u128, i: int) -> Option<int>
    decreases i + 1,
{
    if i < 0 || i >= cells.len() {
        Option::None
    } else if cells[i].id == id {
        Option::Some(i)
    } else {
        find_last_cell(cells, id, i - 1)
    }
}

/// One output landing in a cell: a `Running` text following a text value
/// concatenates onto it; anything else is appended. The flag is updated
/// either way.
pub open spec fn cell_add_output(
    c: OutputCellView,
    value: OutputValueView,
    flag: OutputFlag,
) -> OutputCellView {
    if flag == OutputFlag::Running && c.values.len() > 0 && value is Text && c.values.last()
        is Text {
        OutputCellView {
            flag,
            values: c.values.update(
                c.values.len() - 1,
                OutputValueView::Text(c.values.last()->Text_0 + value->Text_0),
            ),
            ..c
        }
    } else {
        OutputCellView { flag, values: c.values.push(value), ..c }
    }
}

/// The run after an output lands in its last cell with the given id;
/// meaningful when such a cell exists.
pub open spec fn run_add_output(
    rv: RunView,
    id: u128,
    value: OutputValueView,
    flag: OutputFlag,
) -> RunView {
    let j = find_last_cell(rv.output_cells, id, rv.output_cells.len() - 1).unwrap();
    RunView {
        output_cells: rv.output_cells.update(
            j,
            cell_add_output(rv.output_cells[j], value, flag),
        ),
        ..rv
    }
}

/// Law: a `Running` text output following a text value in the same cell
/// does not grow the cell's value list, and the last value becomes the
/// concatenation of the old text and the new.
pub proof fn lemma_streaming_text_concat(c: OutputCellView, t: Seq<char>)
    requires
        c.values.len() > 0,
        c.values.last() is Text,
    ensures
        cell_add_output(c, OutputValueView::Text(t), OutputFlag::Running).values.len()
            == c.values.len(),
        cell_add_output(c, OutputValueView::Text(t), OutputFlag::Running).values.last()
            == OutputValueView::Text(c.values.last()->Text_0 + t),
{
}

/// Scanning down over non-matching cells reaches the same result.
proof fn lemma_find_last_cell_skip(cells: Seq<OutputCellView>, id: u128, i: int, k: int)
    requires
        -1 <= i <= k < cells.len(),
        forall|m: int| i < m <= k ==> (#[trigger] cells[m]).id != id,
    ensures
        find_last_cell(cells, id, k) == find_last_cell(cells, id, i),
    decreases k - i,
{
    if k > i {
        lemma_find_last_cell_skip(cells, id, i, k - 1);
    }
}

impl Run {
    /// A run from its parts; the queue starts empty.
    pub fn new(
        title: String,
        output_cells: Vec<OutputCell>,
        kernel: KernelState,
        globals: SerializedGlobals,
        created: i128,
    ) -> (r: Self)
        ensures
            r@ == (RunView {
                title: title@,
                output_cells: Seq::new(output_cells@.len(), |i: int| output_cells@[i]@),
                kernel: kernel@,
                queue: 0,
                globals: globals@,
                created: created as int,
            }),
    {
        let r = Run { title, output_cells, kernel, queue: 0, globals, created };
        proof {
            assert(r@.output_cells =~= Seq::new(r.output_cells@.len(), |i: int| r.output_cells@[i]@));
            assert(r@ =~= (RunView {
                title: r.title@,
                output_cells: r@.output_cells,
                kernel: r.kernel@,
                queue: 0,
                globals: r.globals@,
                created: r.created as int,
            }));
        }
        r
    }

    /// Creation time in nanoseconds since the epoch.
    pub fn created(&self) -> (r: i128)
        ensures
            r as int == self@.created,
    {
        self.created
    }

    /// Detach the kernel as crashed. The queue is forced to zero: no
    /// terminal output will ever arrive for what was submitted.
    pub fn set_crashed_kernel(&mut self, message: String)
        ensures
            final(self)@ == (RunView {
                kernel: KernelStateView::Crashed(message@),
                queue: 0,
                ..old(self)@
            }),
    {
        self.queue = 0;
        self.kernel = KernelState::Crashed(message);
        proof {
            assert(final(self)@ =~= (RunView {
                kernel: KernelStateView::Crashed(message@),
                queue: 0,
                ..old(self)@
            }));
        }
    }

    /// Count one submitted computation.
    pub fn queue_increment(&mut self)
        requires
            old(self)@.queue < usize::MAX,
        ensures
            final(self)@ == (RunView { queue: old(self)@.queue + 1, ..old(self)@ }),
    {
        self.queue = self.queue + 1;
        proof {
            assert(final(self)@ =~= (RunView { queue: old(self)@.queue + 1, ..old(self)@ }));
        }
    }

    /// Count one finished computation. The queue never goes below zero:
    /// a terminal output may only arrive for a submitted computation.
    pub fn queue_decrement(&mut self)
        requires
            old(self)@.queue > 0,
        ensures
            final(self)@ == (RunView { queue: (old(self)@.queue - 1) as nat, ..old(self)@ }),
    {
        self.queue = self.queue - 1;
        proof {
            assert(final(self)@ =~= (RunView {
                queue: (old(self)@.queue - 1) as nat,
                ..old(self)@
            }));
        }
    }

    /// The one-way transition from `Init` to `Running`, on login of the
    /// same kernel.
    pub fn set_running_kernel(&mut self, kernel_id: KernelId)
        requires
            old(self)@.kernel == KernelStateView::Init(kernel_id.id),
        ensures
            final(self)@ == (RunView { kernel: KernelStateView::Running(kernel_id.id), ..old(self)@ }),
    {
        self.kernel = KernelState::Running(kernel_id);
        proof {
            assert(final(self)@ =~= (RunView {
                kernel: KernelStateView::Running(kernel_id.id),
                ..old(self)@
            }));
        }
    }

    /// The count of submitted computations without a terminal output.
    pub fn queue_depth(&self) -> (r: usize)
        ensures
            r == self@.queue,
    {
        self.queue
    }

    pub fn kernel_state(&self) -> (r: &KernelState)
        ensures
            r@ == self@.kernel,
    {
        &self.kernel
    }

    pub fn title(&self) -> (r: &String)
        ensures
            r@ == self@.title,
    {
        &self.title
    }

    pub fn output_cells(&self) -> (r: &Vec<OutputCell>)
        ensures
            r@.len() == self@.output_cells.len(),
            forall|i: int| 0 <= i < r@.len() ==> (#[trigger] r@[i])@ == self@.output_cells[i],
    {
        &self.output_cells
    }

    /// The id of the associated kernel while one is alive.
    pub fn kernel_id(&self) -> (r: Option<KernelId>)
        ensures
            match self@.kernel {
                KernelStateView::Init(id) => r == Option::Some(KernelId { id }),
                KernelStateView::Running(id) => r == Option::Some(KernelId { id }),
                KernelStateView::Crashed(_) => r is None,
                KernelStateView::Closed => r is None,
            },
    {
        match &self.kernel {
            KernelState::Init(kernel_id) | KernelState::Running(kernel_id) => Some(*kernel_id),
            KernelState::Crashed(_) | KernelState::Closed => None,
        }
    }

    /// Append a fresh output cell.
    pub fn add_output_cell(&mut self, output_cell: OutputCell)
        ensures
            final(self)@ == (RunView {
                output_cells: old(self)@.output_cells.push(output_cell@),
                ..old(self)@
            }),
            old(self)@.output_cells.len() < usize::MAX,
    {
        let ghost cv = output_cell@;
        self.output_cells.push(output_cell);
        proof {
            assert(self.output_cells.len() == self.output_cells@.len());
            assert(final(self)@.output_cells =~= old(self)@.output_cells.push(cv));
            assert(final(self)@ =~= (RunView {
                output_cells: old(self)@.output_cells.push(cv),
                ..old(self)@
            }));
        }
    }

    /// Replace the globals with the update applied to them. Fails, and
    /// changes nothing, exactly when the update does not apply.
    pub fn update_globals(&mut self, update: &SerializedGlobalsUpdate) -> (r: Result<
        (),
        CoreError,
    >)
        ensures
            r is Ok <==> apply_ok(update@, Option::Some(old(self)@.globals)),
            r is Ok ==> final(self)@ == (RunView {
                globals: apply_view(update@, Option::Some(old(self)@.globals)),
                ..old(self)@
            }),
            r is Err ==> *final(self) == *old(self) && r->Err_0 == CoreError::IllFormedUpdate,
    {
        match update.apply(Some(&self.globals)) {
            Ok(globals) => {
                self.globals = globals;
                proof {
                    assert(final(self)@ =~= (RunView {
                        globals: apply_view(update@, Option::Some(old(self)@.globals)),
                        ..old(self)@
                    }));
                }
                Ok(())
            },
            Err(e) => Err(e),
        }
    }

    pub fn globals(&self) -> (r: &SerializedGlobals)
        ensures
            r@ == self@.globals,
    {
        &self.globals
    }

    /// Land an output in the last cell with this id, scanning from the
    /// end: a `Running` text concatenates onto a trailing text value,
    /// anything else is appended; the cell's flag takes the new flag.
    /// Fails, and changes nothing, when no cell with the id exists.
    pub fn add_output(&mut self, cell_id: OutputCellId, value: OutputValue, flag: OutputFlag) -> (r:
        Result<(), CoreError>)
        ensures
            r is Ok <==> find_last_cell(
                old(self)@.output_cells,
                cell_id.id,
                old(self)@.output_cells.len() - 1,
            ) is Some,
            r is Ok ==> final(self)@ == run_add_output(old(self)@, cell_id.id, value@, flag),
            r is Err ==> *final(self) == *old(self) && r->Err_0 == CoreError::CellNotFound,
    {
        let ghost cells0 = self@.output_cells;
        let mut i: usize = self.output_cells.len();
        while i > 0
            invariant
                i <= self.output_cells.len(),
                cells0 == self@.output_cells,
                *self == *old(self),
                forall|m: int|
                    i <= m < cells0.len() ==> (#[trigger] cells0[m]).id != cell_id.id,
            decreases i,
        {
            i = i - 1;
            if self.output_cells[i].id == cell_id {
                proof {
                    lemma_find_last_cell_skip(
                        cells0,
                        cell_id.id,
                        i as int,
                        cells0.len() as int - 1,
                    );
                    assert(find_last_cell(cells0, cell_id.id, cells0.len() - 1) == Option::Some(
                        i as int,
                    ));
                }
                let ghost target = run_add_output(old(self)@, cell_id.id, value@, flag);
                let cell = &mut self.output_cells[i];
                let ghost oldcell = *cell;
                let merge = flag == OutputFlag::Running && cell.values.len() > 0 && matches!(
                    value,
                    OutputValue::Text { .. },
                ) && matches!(cell.values[cell.values.len() - 1], OutputValue::Text { .. });
                if merge {
                    let k = cell.values.len() - 1;
                    match value {
                        OutputValue::Text { value: new_text } => {
                            match &mut cell.values[k] {
                                OutputValue::Text { value: old_text } => {
                                    old_text.append(new_text.as_str());
                                },
                                _ => {
                                    proof {
                                        assert(false);
                                    }
                                },
                            }
                            cell.flag = flag;
                        },
                        _ => {
                            proof {
                                assert(false);
                            }
                        },
                    }
                } else {
                    cell.values.push(value);
                    cell.flag = flag;
                }
                proof {
                    assert(final(cell)@ =~= cell_add_output(oldcell@, value@, flag));
                }
                proof {
                    assert(final(self)@.output_cells =~= target.output_cells);
                    assert(final(self)@ =~= target);
                }
                return Ok(());
            }
        }
        proof {
            lemma_find_last_cell_skip(cells0, cell_id.id, -1, cells0.len() as int - 1);
        }
        Err(CoreError::CellNotFound)
    }

    /// The client-visible projection of the kernel state: `Ready` is
    /// `Running` with an empty queue.
    pub fn kernel_state_desc(&self) -> (r: KernelStateDesc)
        ensures
            r@ == kernel_state_desc_of(self@.kernel, self@.queue),
    {
        match &self.kernel {
            KernelState::Init(_) => KernelStateDesc::Init,
            KernelState::Running(_) => {
                if self.queue > 0 {
                    KernelStateDesc::Running
                } else {
                    KernelStateDesc::Ready
                }
            },
            KernelState::Crashed(s) => KernelStateDesc::Crashed { message: s.clone() },
            KernelState::Closed => KernelStateDesc::Closed,
        }
    }
}

/// Prefix form plus suffix form covers the whole sequence.
proof fn lemma_children_group_ids_agree(ch: Seq<EditorNodeView>, i: int)
    requires
        0 <= i <= ch.len(),
    ensures
        editor_children_group_ids_to(ch, ch.len() as int) == editor_children_group_ids_to(ch, i)
            + editor_children_group_ids(ch, i),
    decreases ch.len() - i,
{
    if i == ch.len() {
        assert(editor_children_group_ids_to(ch, i) + editor_children_group_ids(ch, i)
            =~= editor_children_group_ids_to(ch, i));
    } else {
        lemma_children_group_ids_agree(ch, i + 1);
        lemma_children_group_ids_to_step(ch, i);
        assert(editor_children_group_ids_to(ch, i) + (editor_node_group_ids(ch[i])
            + editor_children_group_ids(ch, i + 1)) =~= (editor_children_group_ids_to(ch, i)
            + editor_node_group_ids(ch[i])) + editor_children_group_ids(ch, i + 1));
    }
}

impl EditorNode {
    /// A deep copy with the same model.
    pub fn duplicate(&self) -> (r: Self)
        ensures
            r@ == self@,
        decreases *self,
    {
        match self {
            EditorNode::Group(g) => EditorNode::Group(g.duplicate()),
            EditorNode::Cell(c) => EditorNode::Cell(
                EditorCell { id: c.id, code: c.code.clone() },
            ),
        }
    }
}

impl EditorGroup {
    /// A deep copy with the same model.
    pub fn duplicate(&self) -> (r: Self)
        ensures
            r@ == self@,
        decreases *self,
    {
        let mut children: Vec<EditorNode> = Vec::new();
        let mut i: usize = 0;
        while i < self.children.len()
            invariant
                i <= self.children.len(),
                children@.len() == i,
                forall|j: int|
                    0 <= j < i ==> editor_node_view(#[trigger] children@[j]) == editor_node_view(
                        self.children@[j],
                    ),
            decreases self.children.len() - i,
        {
            let node = self.children[i].duplicate();
            children.push(node);
            i += 1;
        }
        let r = EditorGroup {
            id: self.id,
            name: self.name.clone(),
            children,
            scope: self.scope,
        };
        proof {
            assert forall|j: int| 0 <= j < r@.children.len() implies r@.children[j]
                == self@.children[j] by {
                assert(editor_node_view(children@[j]) == editor_node_view(self.children@[j]));
            }
            assert(r@.children =~= self@.children);
            assert(r@ =~= self@);
        }
        r
    }
}

impl OutputCell {
    /// A deep copy with the same model.
    pub fn duplicate(&self) -> (r: Self)
        ensures
            r@ == self@,
    {
        let mut values: Vec<OutputValue> = Vec::new();
        let mut i: usize = 0;
        while i < self.values.len()
            invariant
                i <= self.values.len(),
                values@.len() == i,
                forall|j: int| 0 <= j < i ==> (#[trigger] values@[j])@ == self.values@[j]@,
            decreases self.values.len() - i,
        {
            let v = self.values[i].duplicate();
            values.push(v);
            i += 1;
        }
        let r = OutputCell {
            id: self.id,
            values,
            flag: self.flag,
            editor_node: self.editor_node.duplicate(),
            called_id: self.called_id,
        };
        proof {
            assert(r@.values =~= self@.values);
            assert(r@ =~= self@);
        }
        r
    }
}

/// A document: its editor tree, the set of runs made against it, and the
/// at-most-one observer session attached to it.
pub struct Notebook {
    pub editor_root: EditorGroup,
    pub editor_open_nodes: Vec<EditorId>,
    pub path: String,
    runs: Vec<(RunId, Run)>,
    run_order: Vec<RunId>,
    observer: Option<u64>,
}

/// Model of a [`Notebook`].
#[verifier::ext_equal]
pub struct NotebookView {
    pub editor_root: EditorGroupView,
    pub editor_open_nodes: Seq<u128>,
    pub path: Seq<char>,
    pub runs: Seq<(u128, RunView)>,
    pub run_order: Seq<u128>,
    pub observer: Option<u64>,
}

impl View for Notebook {
    type V = NotebookView;

    closed spec fn view(&self) -> NotebookView {
        NotebookView {
            editor_root: self.editor_root@,
            editor_open_nodes: editor_ids_view(self.editor_open_nodes@),
            path: self.path@,
            runs: Seq::new(self.runs@.len(), |i: int| (self.runs@[i].0.id, self.runs@[i].1@)),
            run_order: Seq::new(self.run_order@.len(), |i: int| self.run_order@[i].id),
            observer: self.observer,
        }
    }
}

/// A run's queue never exceeds the count of its output cells: each
/// submission appends a cell before it is counted.
pub open spec fn run_wf(rv: RunView) -> bool {
    rv.queue <= rv.output_cells.len()
}

/// Well-formedness of a notebook: the run order lists exactly the run
/// keys in insertion order, keys are distinct, and every run is
/// well-formed.
pub open spec fn notebook_wf(nv: NotebookView) -> bool {
    &&& nv.run_order == Seq::new(nv.runs.len(), |i: int| nv.runs[i].0)
    &&& crate::scopes::keys_distinct(nv.runs)
    &&& forall|i: int| 0 <= i < nv.runs.len() ==> run_wf((#[trigger] nv.runs[i]).1)
}

/// The index of the run keyed `id`, if any.
pub open spec fn run_index(runs: Seq<(u128, RunView)>, id: u128, i: int) -> Option<int>
    decreases runs.len() - i,
{
    if i < 0 || i >= runs.len() {
        Option::None
    } else if runs[i].0 == id {
        Option::Some(i)
    } else {
        run_index(runs, id, i + 1)
    }
}

impl Notebook {
    /// A fresh notebook at `path` with the default editor tree: one
    /// `Own` root group named "project" holding a sample cell and an
    /// empty cell. The root group is the only open node. No runs, no
    /// observer.
    pub fn new(path: String) -> (r: Notebook)
        ensures
            r@.path == path@,
            r@.runs == Seq::<(u128, RunView)>::empty(),
            r@.run_order == Seq::<u128>::empty(),
            r@.observer is None,
            notebook_wf(r@),
            r@.editor_root.name == "project"@,
            r@.editor_root.scope == ScopeType::Own,
            r@.editor_root.children.len() == 2,
            r@.editor_root.children[0] is Cell,
            r@.editor_root.children[0]->Cell_1 == "print(\"Hello world\")\n\nx = 10\nx"@,
            r@.editor_root.children[1] is Cell,
            r@.editor_root.children[1]->Cell_1 == ""@,
            r@.editor_open_nodes == seq![r@.editor_root.id],
    {
        let root_id = EditorId::new(crate::ids::fresh_uuid_bits());
        let mut children: Vec<EditorNode> = Vec::new();
        children.push(
            EditorNode::Cell(
                EditorCell {
                    id: EditorId::new(crate::ids::fresh_uuid_bits()),
                    code: String::from_str("print(\"Hello world\")\n\nx = 10\nx"),
                },
            ),
        );
        children.push(
            EditorNode::Cell(
                EditorCell { id: EditorId::new(crate::ids::fresh_uuid_bits()), code: String::new() },
            ),
        );
        let editor_root = EditorGroup {
            id: root_id,
            name: String::from_str("project"),
            children,
            scope: ScopeType::Own,
        };
        let mut editor_open_nodes: Vec<EditorId> = Vec::new();
        editor_root.collect_group_ids(&mut editor_open_nodes);
        let r = Notebook {
            path,
            editor_root,
            editor_open_nodes,
            runs: Vec::new(),
            run_order: Vec::new(),
            observer: None,
        };
        proof {
            reveal_strlit("");
            let rootv = r.editor_root@;
            assert(rootv.children.len() == 2);
            assert(rootv.children[0] == editor_node_view(r.editor_root.children@[0]));
            assert(rootv.children[1] == editor_node_view(r.editor_root.children@[1]));
            assert(rootv.children[0] is Cell);
            assert(rootv.children[1] is Cell);
            assert(editor_node_group_ids(rootv.children[0]) =~= Seq::<u128>::empty());
            assert(editor_node_group_ids(rootv.children[1]) =~= Seq::<u128>::empty());
            assert(editor_children_group_ids(rootv.children, 2) =~= Seq::<u128>::empty());
            assert(editor_children_group_ids(rootv.children, 1) =~= Seq::<u128>::empty());
            assert(editor_children_group_ids(rootv.children, 0) =~= Seq::<u128>::empty());
            assert(editor_group_group_ids(rootv) =~= seq![rootv.id]);
            assert(r@.editor_open_nodes =~= seq![r@.editor_root.id]);
            assert(r@.runs =~= Seq::<(u128, RunView)>::empty());
            assert(r@.run_order =~= Seq::<u128>::empty());
            assert(r@.run_order =~= Seq::new(r@.runs.len(), |i: int| r@.runs[i].0));
        }
        r
    }

    /// A notebook reassembled from loaded parts: the given editor tree
    /// and runs, no path yet, no observer, the root as the only open
    /// node.
    pub fn from_parts(editor_root: EditorGroup, runs: Vec<(RunId, Run)>) -> (r: Notebook)
        requires
            crate::scopes::keys_distinct(
                Seq::new(runs@.len(), |i: int| (runs@[i].0.id, runs@[i].1@)),
            ),
            forall|i: int| 0 <= i < runs@.len() ==> run_wf((#[trigger] runs@[i].1)@),
        ensures
            r@.editor_root == editor_root@,
            r@.path == Seq::<char>::empty(),
            r@.observer is None,
            r@.editor_open_nodes == seq![editor_root@.id],
            r@.runs == Seq::new(runs@.len(), |i: int| (runs@[i].0.id, runs@[i].1@)),
            notebook_wf(r@),
    {
        let root_id = editor_root.id;
        let mut editor_open_nodes: Vec<EditorId> = Vec::new();
        editor_open_nodes.push(root_id);
        let mut run_order: Vec<RunId> = Vec::new();
        let mut i: usize = 0;
        while i < runs.len()
            invariant
                i <= runs.len(),
                run_order@.len() == i,
                forall|j: int| 0 <= j < i ==> (#[trigger] run_order@[j]) == runs@[j].0,
            decreases runs.len() - i,
        {
            run_order.push(runs[i].0);
            i += 1;
        }
        let r = Notebook {
            editor_root,
            editor_open_nodes,
            path: String::new(),
            runs,
            run_order,
            observer: None,
        };
        proof {
            assert(r@.editor_open_nodes =~= seq![r.editor_root@.id]);
            assert(r@.runs =~= Seq::new(r.runs@.len(), |i: int| (r.runs@[i].0.id, r.runs@[i].1@)));
            assert(r@.run_order =~= Seq::new(r@.runs.len(), |i: int| r@.runs[i].0));
        }
        r
    }

    /// The editor tree.
    pub fn editor_root(&self) -> (r: &EditorGroup)
        ensures
            r@ == self@.editor_root,
    {
        &self.editor_root
    }

    /// The ids of the open editor nodes.
    pub fn editor_open_nodes(&self) -> (r: &Vec<EditorId>)
        ensures
            editor_ids_view(r@) == self@.editor_open_nodes,
    {
        &self.editor_open_nodes
    }

    /// The path this notebook lives at.
    pub fn path(&self) -> (r: &String)
        ensures
            r@ == self@.path,
    {
        &self.path
    }

    /// Move this notebook to `path`, as done right after a load.
    pub fn set_path(&mut self, path: String)
        ensures
            final(self)@ == (NotebookView { path: path@, ..old(self)@ }),
    {
        let ghost pv = path@;
        self.path = path;
        proof {
            assert(final(self)@ =~= (NotebookView { path: pv, ..old(self)@ }));
        }
    }

    /// Attach an observer session, replacing any previous one.
    pub fn set_observer(&mut self, observer: u64)
        ensures
            final(self)@ == (NotebookView { observer: Option::Some(observer), ..old(self)@ }),
    {
        self.observer = Some(observer);
        proof {
            assert(final(self)@ =~= (NotebookView {
                observer: Option::Some(observer),
                ..old(self)@
            }));
        }
    }

    /// Replace the editor tree, as a client's save request carries it.
    pub fn set_editor_root(&mut self, editor_root: EditorGroup)
        ensures
            final(self)@ == (NotebookView { editor_root: editor_root@, ..old(self)@ }),
    {
        let ghost ev = editor_root@;
        self.editor_root = editor_root;
        proof {
            assert(final(self)@ =~= (NotebookView { editor_root: ev, ..old(self)@ }));
        }
    }

    /// Whether this notebook lives at `path`.
    pub fn path_matches(&self, path: &String) -> (r: bool)
        ensures
            r == (self@.path == path@),
    {
        self.path == *path
    }

    /// The attached observer session, if any.
    pub fn observer(&self) -> (r: Option<u64>)
        ensures
            r == self@.observer,
    {
        self.observer
    }

    /// Whether a run with this id exists.
    pub fn has_run(&self, run_id: RunId) -> (r: bool)
        ensures
            r == (run_index(self@.runs, run_id.id, 0) is Some),
    {
        let mut i: usize = 0;
        while i < self.runs.len()
            invariant
                i <= self.runs.len(),
                run_index(self@.runs, run_id.id, 0) == run_index(self@.runs, run_id.id, i as int),
                self@.runs.len() == self.runs@.len(),
            decreases self.runs.len() - i,
        {
            if self.runs[i].0 == run_id {
                proof {
                    assert(self@.runs[i as int].0 == run_id.id);
                }
                return true;
            }
            proof {
                assert(self@.runs[i as int].0 != run_id.id);
            }
            i += 1;
        }
        false
    }

    /// Insert a run under a fresh id, appending it to the run order.
    pub fn add_run(&mut self, run_id: RunId, run: Run)
        requires
            notebook_wf(old(self)@),
            run_index(old(self)@.runs, run_id.id, 0) is None,
            run_wf(run@),
        ensures
            final(self)@ == (NotebookView {
                runs: old(self)@.runs.push((run_id.id, run@)),
                run_order: old(self)@.run_order.push(run_id.id),
                ..old(self)@
            }),
            notebook_wf(final(self)@),
    {
        let ghost rv = run@;
        self.runs.push((run_id, run));
        self.run_order.push(run_id);
        proof {
            assert(final(self)@.runs =~= old(self)@.runs.push((run_id.id, rv)));
            assert(final(self)@.run_order =~= old(self)@.run_order.push(run_id.id));
            assert(final(self)@ =~= (NotebookView {
                runs: old(self)@.runs.push((run_id.id, rv)),
                run_order: old(self)@.run_order.push(run_id.id),
                ..old(self)@
            }));
            let nv = final(self)@;
            assert forall|i: int| 0 <= i < nv.runs.len() implies run_wf(
                (#[trigger] nv.runs[i]).1,
            ) by {
                if i < nv.runs.len() - 1 {
                    assert(nv.runs[i] == old(self)@.runs[i]);
                }
            }
            lemma_run_index_absent(old(self)@.runs, run_id.id, 0);
            assert(nv.run_order =~= Seq::new(nv.runs.len(), |i: int| nv.runs[i].0));
        }
    }

    /// The position of the run keyed `run_id`, if any.
    pub fn run_index_of(&self, run_id: RunId) -> (r: Option<usize>)
        ensures
            match r {
                Option::Some(i) => run_index(self@.runs, run_id.id, 0) == Option::Some(i as int)
                    && i < self@.runs.len(),
                Option::None => run_index(self@.runs, run_id.id, 0) is None,
            },
    {
        let mut i: usize = 0;
        while i < self.runs.len()
            invariant
                i <= self.runs.len(),
                run_index(self@.runs, run_id.id, 0) == run_index(self@.runs, run_id.id, i as int),
                self@.runs.len() == self.runs@.len(),
            decreases self.runs.len() - i,
        {
            if self.runs[i].0 == run_id {
                proof {
                    assert(self@.runs[i as int].0 == run_id.id);
                }
                return Some(i);
            }
            proof {
                assert(self@.runs[i as int].0 != run_id.id);
            }
            i += 1;
        }
        None
    }

    /// The run at a position, for reading.
    pub fn run_at(&self, i: usize) -> (r: &Run)
        requires
            i < self@.runs.len(),
        ensures
            r@ == self@.runs[i as int].1,
    {
        &self.runs[i].1
    }

    /// The run at a position, for mutation. The caller's changes to the
    /// run become the notebook's; the key at the position is unchanged.
    pub fn run_mut(&mut self, i: usize) -> (r: &mut Run)
        requires
            i < old(self)@.runs.len(),
        ensures
            (*r)@ == old(self)@.runs[i as int].1,
            final(self)@.runs.len() == old(self)@.runs.len(),
            final(self)@.runs[i as int].0 == old(self)@.runs[i as int].0,
            final(self)@.runs[i as int].1 == (*final(r))@,
            forall|j: int|
                0 <= j < old(self)@.runs.len() && j != i ==> final(self)@.runs[j] == old(self)@.runs[j],
            final(self)@.editor_root == old(self)@.editor_root,
            final(self)@.editor_open_nodes == old(self)@.editor_open_nodes,
            final(self)@.path == old(self)@.path,
            final(self)@.run_order == old(self)@.run_order,
            final(self)@.observer == old(self)@.observer,
    {
        &mut self.runs[i].1
    }

    /// Remove a run by id, from the map and the run order; the removed
    /// run is returned.
    pub fn remove_run_by_id(&mut self, run_id: RunId) -> (r: Result<Run, CoreError>)
        requires
            notebook_wf(old(self)@),
        ensures
            r is Ok <==> run_index(old(self)@.runs, run_id.id, 0) is Some,
            r is Ok ==> {
                let j = run_index(old(self)@.runs, run_id.id, 0).unwrap();
                &&& (r->Ok_0)@ == old(self)@.runs[j].1
                &&& final(self)@ == (NotebookView {
                    runs: old(self)@.runs.remove(j),
                    run_order: old(self)@.run_order.remove(j),
                    ..old(self)@
                })
                &&& notebook_wf(final(self)@)
            },
            r is Err ==> *final(self) == *old(self) && r->Err_0 == CoreError::NotFound,
    {
        let mut i: usize = 0;
        while i < self.runs.len()
            invariant
                *self == *old(self),
                notebook_wf(self@),
                i <= self.runs.len(),
                run_index(self@.runs, run_id.id, 0) == run_index(self@.runs, run_id.id, i as int),
                self@.runs.len() == self.runs@.len(),
            decreases self.runs.len() - i,
        {
            if self.runs[i].0 == run_id {
                proof {
                    assert(self@.runs[i as int].0 == run_id.id);
                    assert(run_index(self@.runs, run_id.id, 0) == Option::Some(i as int));
                    assert(self@.run_order.len() == self@.runs.len());
                    assert(self.run_order@.len() == self.runs@.len());
                }
                let run = self.runs.remove(i).1;
                self.run_order.remove(i);
                proof {
                    let j = i as int;
                    assert(final(self)@.runs =~= old(self)@.runs.remove(j));
                    assert(final(self)@.run_order =~= old(self)@.run_order.remove(j));
                    assert(final(self)@ =~= (NotebookView {
                        runs: old(self)@.runs.remove(j),
                        run_order: old(self)@.run_order.remove(j),
                        ..old(self)@
                    }));
                    lemma_wf_after_remove(old(self)@, j);
                }
                return Ok(run);
            }
            proof {
                assert(self@.runs[i as int].0 != run_id.id);
            }
            i += 1;
        }
        Err(CoreError::NotFound)
    }

    /// The runs, keyed and in creation order.
    pub fn runs(&self) -> (r: &Vec<(RunId, Run)>)
        ensures
            r@.len() == self@.runs.len(),
            forall|i: int|
                0 <= i < r@.len() ==> ((#[trigger] r@[i]).0.id, r@[i].1@) == self@.runs[i],
    {
        &self.runs
    }
}

/// If no run at or after `i` matches, the index search fails.
proof fn lemma_run_index_absent(runs: Seq<(u128, RunView)>, id: u128, i: int)
    requires
        run_index(runs, id, i) is None,
        0 <= i,
    ensures
        forall|j: int| i <= j < runs.len() ==> (#[trigger] runs[j]).0 != id,
    decreases runs.len() - i,
{
    if i < runs.len() {
        lemma_run_index_absent(runs, id, i + 1);
    }
}

/// Removing an entry keeps a notebook well-formed.
proof fn lemma_wf_after_remove(nv: NotebookView, j: int)
    requires
        notebook_wf(nv),
        0 <= j < nv.runs.len(),
    ensures
        notebook_wf(
            NotebookView { runs: nv.runs.remove(j), run_order: nv.run_order.remove(j), ..nv },
        ),
{
    let nv2 = NotebookView { runs: nv.runs.remove(j), run_order: nv.run_order.remove(j), ..nv };
    assert(nv2.run_order =~= Seq::new(nv2.runs.len(), |i: int| nv2.runs[i].0));
}

impl Notebook {
    /// The full client snapshot of this notebook: its runs in creation
    /// order, each projected to its client description.
    pub fn notebook_desc(&self, notebook_id: NotebookId) -> (r: crate::client_messages::NotebookDesc)
        ensures
            r@ == crate::client_messages::notebook_desc_of(notebook_id.id, self@),
    {
        let mut runs: Vec<crate::client_messages::RunDesc> = Vec::new();
        let mut i: usize = 0;
        while i < self.runs.len()
            invariant
                i <= self.runs.len(),
                self.runs@.len() == self@.runs.len(),
                runs@.len() == i,
                forall|j: int|
                    0 <= j < i ==> (#[trigger] runs@[j])@ == crate::client_messages::run_desc_of(
                        self@.runs[j].0,
                        self@.runs[j].1,
                    ),
            decreases self.runs.len() - i,
        {
            let ghost vi = i as int;
            let run_id = self.runs[i].0;
            let run = &self.runs[i].1;
            let mut output_cells: Vec<OutputCell> = Vec::new();
            let cells_ref = run.output_cells();
            let mut k: usize = 0;
            while k < cells_ref.len()
                invariant
                    k <= cells_ref.len(),
                    cells_ref@.len() == run@.output_cells.len(),
                    forall|m: int|
                        0 <= m < cells_ref@.len() ==> (#[trigger] cells_ref@[m])@
                            == run@.output_cells[m],
                    output_cells@.len() == k,
                    forall|m: int|
                        0 <= m < k ==> (#[trigger] output_cells@[m])@ == run@.output_cells[m],
                decreases cells_ref.len() - k,
            {
                let cell = cells_ref[k].duplicate();
                output_cells.push(cell);
                k += 1;
            }
            let desc = crate::client_messages::RunDesc {
                id: run_id,
                title: run.title().clone(),
                output_cells,
                kernel_state: run.kernel_state_desc(),
                globals: run.globals().duplicate(),
            };
            proof {
                assert(self@.runs[vi] == (self.runs@[vi].0.id, self.runs@[vi].1@));
                assert(desc@.output_cells =~= run@.output_cells);
                assert(desc@ =~= crate::client_messages::run_desc_of(
                    self@.runs[vi].0,
                    self@.runs[vi].1,
                ));
            }
            runs.push(desc);
            i += 1;
        }
        let r = crate::client_messages::NotebookDesc {
            id: notebook_id,
            path: self.path.clone(),
            editor_root: self.editor_root.duplicate(),
            editor_open_nodes: duplicate_ids(&self.editor_open_nodes),
            runs,
        };
        proof {
            let target = crate::client_messages::notebook_desc_of(notebook_id.id, self@);
            assert(r@.runs =~= target.runs);
            assert(r@.editor_open_nodes =~= target.editor_open_nodes);
            assert(r@ =~= target);
        }
        r
    }
}

/// A copy of a vector of editor ids.
fn duplicate_ids(ids: &Vec<EditorId>) -> (r: Vec<EditorId>)
    ensures
        r@ == ids@,
{
    let mut r: Vec<EditorId> = Vec::new();
    let mut i: usize = 0;
    while i < ids.len()
        invariant
            i <= ids.len(),
            r@ =~= ids@.take(i as int),
        decreases ids.len() - i,
    {
        r.push(ids[i]);
        i += 1;
    }
    proof {
        assert(r@ =~= ids@);
    }
    r
}

} // verus!
