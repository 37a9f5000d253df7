//! Messages exchanged between the server and a kernel worker, and the
//! value types they carry.
//!
//! Two value representations exist on purpose: [`KernelOutputValue`]
//! travels on the binary wire without a tag-field convention, while the
//! client-facing [`crate::notebook::OutputValue`] carries an explicit
//! tag; the reactor translates in one place.

use vstd::prelude::*;

use crate::ids::{EditorId, KernelId, OutputCellId, ScopeId};
use crate::scopes::{GlobalsUpdateView, SerializedGlobalsUpdate};

verus! {

broadcast use vstd::seq::group_seq_axioms, vstd::std_specs::vec::group_vec_axioms;

/// Progress marker attached to every output a kernel reports for a cell.
/// `Success` and `Fail` are terminal; `Running` means more output may come.
#[derive(Clone, Copy, Debug, PartialEq, Eq, Structural)]
pub enum OutputFlag {
    Running,
    Success,
    Fail,
}

impl OutputFlag {
    /// Whether this flag ends the computation of its cell.
    pub fn is_final(&self) -> (r: bool)
        ensures
            r == (*self == OutputFlag::Success || *self == OutputFlag::Fail),
    {
        match self {
            OutputFlag::Running => false,
            OutputFlag::Success | OutputFlag::Fail => true,
        }
    }
}

/// The result value a finished computation reports.
pub struct FinishedMsg {
    pub value: String,
}

/// An exception a kernel reports for a failed cell.
pub struct Exception {
    pub message: String,
    pub traceback: String,
}

/// Model of an [`Exception`].
pub struct ExceptionView {
    pub message: Seq<char>,
    pub traceback: Seq<char>,
}

impl View for Exception {
    type V = ExceptionView;

    open spec fn view(&self) -> ExceptionView {
        ExceptionView { message: self.message@, traceback: self.traceback@ }
    }
}

/// An output value in the binary on-wire form.
pub enum KernelOutputValue {
    Text { value: String },
    Html { value: String },
    Exception { value: Exception },
    Empty,
}

/// Model of a [`KernelOutputValue`] and of the client-facing
/// [`crate::notebook::OutputValue`]: the two share one mathematical form.
pub enum OutputValueView {
    Text(Seq<char>),
    Html(Seq<char>),
    Exception(ExceptionView),
    Empty,
}

impl View for KernelOutputValue {
    type V = OutputValueView;

    open spec fn view(&self) -> OutputValueView {
        match self {
            KernelOutputValue::Text { value } => OutputValueView::Text(value@),
            KernelOutputValue::Html { value } => OutputValueView::Html(value@),
            KernelOutputValue::Exception { value } => OutputValueView::Exception(value@),
            KernelOutputValue::Empty => OutputValueView::Empty,
        }
    }
}

/// A scope in the code tree sent to the kernel: either a named own scope
/// or syntactic nesting that inherits the enclosing scope.
pub struct OwnCodeScope {
    pub id: ScopeId,
    pub name: String,
}

pub enum CodeScope {
    Own(OwnCodeScope),
    Inherit,
}

/// Model of a [`CodeScope`].
pub enum CodeScopeView {
    Own(u128, Seq<char>),
    Inherit,
}

impl View for CodeScope {
    type V = CodeScopeView;

    open spec fn view(&self) -> CodeScopeView {
        match self {
            CodeScope::Own(s) => CodeScopeView::Own(s.id.id, s.name@),
            CodeScope::Inherit => CodeScopeView::Inherit,
        }
    }
}

/// A node of the code tree sent to the kernel.
pub enum CodeNode {
    Group(CodeGroup),
    Leaf(CodeLeaf),
}

/// An inner node of the code tree.
pub struct CodeGroup {
    pub children: Vec<CodeNode>,
    pub scope: CodeScope,
}

/// A leaf of the code tree: one cell's source text.
pub struct CodeLeaf {
    pub id: EditorId,
    pub code: String,
}

/// Model of a [`CodeNode`].
pub enum CodeNodeView {
    Group(CodeGroupView),
    Leaf(u128, Seq<char>),
}

/// Model of a [`CodeGroup`].
#[verifier::ext_equal]
pub struct CodeGroupView {
    pub children: Seq<CodeNodeView>,
    pub scope: CodeScopeView,
}

pub open spec fn code_node_view(n: CodeNode) -> CodeNodeView
    decreases n,
{
    match n {
        CodeNode::Group(g) => CodeNodeView::Group(code_group_view(g)),
        CodeNode::Leaf(l) => CodeNodeView::Leaf(l.id.id, l.code@),
    }
}

pub open spec fn code_group_view(g: CodeGroup) -> CodeGroupView
    decreases g,
{
    CodeGroupView {
        children: Seq::new(
            g.children@.len(),
            |i: int|
                if 0 <= i < g.children@.len() {
                    code_node_view(g.children@[i])
                } else {
                    CodeNodeView::Leaf(0u128, Seq::empty())
                },
        ),
        scope: g.scope@,
    }
}

impl View for CodeNode {
    type V = CodeNodeView;

    open spec fn view(&self) -> CodeNodeView {
        code_node_view(*self)
    }
}

impl View for CodeGroup {
    type V = CodeGroupView;

    open spec fn view(&self) -> CodeGroupView {
        code_group_view(*self)
    }
}

/// A request to execute the code tree of one submitted cell.
pub struct ComputeMsg {
    pub cell_id: OutputCellId,
    pub code: CodeGroup,
}

/// Messages the server sends to a kernel.
pub enum ToKernelMessage {
    Compute(ComputeMsg),
}

/// Model of a [`ToKernelMessage`].
pub enum ToKernelMessageView {
    Compute(u128, CodeGroupView),
}

impl View for ToKernelMessage {
    type V = ToKernelMessageView;

    open spec fn view(&self) -> ToKernelMessageView {
        match self {
            ToKernelMessage::Compute(m) => ToKernelMessageView::Compute(m.cell_id.id, m.code@),
        }
    }
}

/// Messages a kernel sends to the server. The first frame of a
/// connection must be `Login`; every later frame must be `Output`.
pub enum FromKernelMessage {
    Login { kernel_id: KernelId },
    Output {
        value: KernelOutputValue,
        cell_id: OutputCellId,
        flag: OutputFlag,
        update: Option<SerializedGlobalsUpdate>,
    },
}

/// Model of a [`FromKernelMessage`].
pub enum FromKernelMessageView {
    Login { kernel_id: u128 },
    Output {
        value: OutputValueView,
        cell_id: u128,
        flag: OutputFlag,
        update: Option<GlobalsUpdateView>,
    },
}

impl View for FromKernelMessage {
    type V = FromKernelMessageView;

    open spec fn view(&self) -> FromKernelMessageView {
        match self {
            FromKernelMessage::Login { kernel_id } => FromKernelMessageView::Login {
                kernel_id: kernel_id.id,
            },
            FromKernelMessage::Output { value, cell_id, flag, update } => {
                FromKernelMessageView::Output {
                    value: value@,
                    cell_id: cell_id.id,
                    flag: *flag,
                    update: match update {
                        Option::Some(u) => Option::Some(u@),
                        Option::None => Option::None,
                    },
                }
            },
        }
    }
}

} // verus!
