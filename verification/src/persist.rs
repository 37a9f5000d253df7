//! Persistence encoding.
//!
//! A notebook is stored as one notebook file plus a sidecar directory
//! `<notebook>.runs` holding one file per run; the shell does the file
//! work, this module produces and reads the bytes. Every notebook file
//! starts with the version string; a load that finds any other version
//! fails. Persisted kernel state is narrowed to `Closed` or `Crashed`:
//! `Init` and `Running` are never persisted.

use vstd::prelude::*;
use vstd::bytes::{
    spec_u128_from_le_bytes, spec_u128_to_le_bytes, spec_u64_from_le_bytes, spec_u64_to_le_bytes,
};
use vstd::string::{StrSliceExecFns, StringExecFns};

use crate::errors::CoreError;
use crate::ids::{EditorId, OutputCellId, RunId, ScopeId};
use crate::messages::{Exception, OutputFlag};
use crate::notebook::{
    editor_group_view, editor_node_view, EditorCell, EditorGroup, EditorGroupView, EditorNode,
    EditorNodeView, KernelState, KernelStateView, Notebook, OutputCell, OutputCellView,
    OutputValue, ScopeType,
};
use crate::scopes::{
    children_view, globals_view, vars_view, GlobalsView, SerializedGlobals,
};
use crate::wire::{
    dec_string, enc_string, lemma_string_roundtrip, put_string, put_u128, put_u64, put_u8,
    read_string, read_u128, read_u64, read_u8,
};

verus! {

broadcast use
    vstd::seq::group_seq_axioms,
    vstd::std_specs::vec::group_vec_axioms,
    vstd::seq_lib::group_to_multiset_ensures,
    vstd::multiset::group_multiset_axioms;

/// The version string every persisted notebook carries.
pub fn version_string() -> (r: &'static str)
    ensures
        r@ == "twinsong 0.0.1"@,
{
    "twinsong 0.0.1"
}

/// The encoding of the variables from index `i` on: name, then
/// snapshot, each.
pub open spec fn enc_vars_from(vs: Seq<(Seq<char>, Seq<char>)>, i: int) -> Seq<u8>
    decreases vs.len() - i,
{
    if i < 0 || i >= vs.len() {
        Seq::empty()
    } else {
        enc_string(vs[i].0) + enc_string(vs[i].1) + enc_vars_from(vs, i + 1)
    }
}

/// The encoding of a globals scope tree.
pub open spec fn enc_globals(g: GlobalsView) -> Seq<u8>
    decreases g, 1int, 0int,
{
    enc_string(g.name) + spec_u64_to_le_bytes(g.variables.len() as u64) + enc_vars_from(
        g.variables,
        0,
    ) + spec_u64_to_le_bytes(g.children.len() as u64) + enc_gchildren_from(g.children, 0)
}

/// The encoding of the child scopes from index `i` on: id, then
/// subtree, each.
pub open spec fn enc_gchildren_from(ch: Seq<(u128, GlobalsView)>, i: int) -> Seq<u8>
    decreases ch, 0int, ch.len() - i,
{
    if i < 0 || i >= ch.len() {
        Seq::empty()
    } else {
        spec_u128_to_le_bytes(ch[i].0) + enc_globals(ch[i].1) + enc_gchildren_from(ch, i + 1)
    }
}

/// The node count of a globals tree; a decoder given this much fuel
/// cannot run out.
pub open spec fn g_count(g: GlobalsView) -> nat
    decreases g, 1int, 0int,
{
    1 + gc_count(g.children, 0)
}

/// The node count of the child scopes from index `i` on.
pub open spec fn gc_count(ch: Seq<(u128, GlobalsView)>, i: int) -> nat
    decreases ch, 0int, ch.len() - i,
{
    if i < 0 || i >= ch.len() {
        0
    } else {
        g_count(ch[i].1) + gc_count(ch, i + 1)
    }
}

/// What reading `n` variables from `pos` yields.
pub open spec fn dec_vars(data: Seq<u8>, pos: int, n: nat) -> Option<
    (Seq<(Seq<char>, Seq<char>)>, int),
>
    decreases n,
{
    if n == 0 {
        Option::Some((Seq::empty(), pos))
    } else {
        match dec_string(data, pos) {
            Option::Some((name, p1)) => match dec_string(data, p1) {
                Option::Some((value, p2)) => match dec_vars(data, p2, (n - 1) as nat) {
                    Option::Some((vs, p3)) => Option::Some((seq![(name, value)] + vs, p3)),
                    Option::None => Option::None,
                },
                Option::None => Option::None,
            },
            Option::None => Option::None,
        }
    }
}

/// What reading a globals tree from `pos` yields, within `fuel` nodes.
pub open spec fn dec_globals(data: Seq<u8>, pos: int, fuel: nat) -> Option<(GlobalsView, int)>
    decreases fuel, 0int,
{
    if fuel == 0 {
        Option::None
    } else {
        match dec_string(data, pos) {
            Option::Some((name, p1)) => {
                if p1 < 0 || p1 + 8 > data.len() {
                    Option::None
                } else {
                    let nv = spec_u64_from_le_bytes(data.subrange(p1, p1 + 8));
                    match dec_vars(data, p1 + 8, nv as nat) {
                        Option::Some((vs, p2)) => {
                            if p2 < 0 || p2 + 8 > data.len() {
                                Option::None
                            } else {
                                let nc = spec_u64_from_le_bytes(data.subrange(p2, p2 + 8));
                                match dec_gchildren(data, p2 + 8, nc as nat, (fuel - 1) as nat) {
                                    Option::Some((cs, p3)) => Option::Some(
                                        (GlobalsView { name, variables: vs, children: cs }, p3),
                                    ),
                                    Option::None => Option::None,
                                }
                            }
                        },
                        Option::None => Option::None,
                    }
                }
            },
            Option::None => Option::None,
        }
    }
}

/// What reading `n` child scopes from `pos` yields, within `fuel`.
pub open spec fn dec_gchildren(data: Seq<u8>, pos: int, n: nat, fuel: nat) -> Option<
    (Seq<(u128, GlobalsView)>, int),
>
    decreases fuel, n + 1,
{
    if n == 0 {
        Option::Some((Seq::empty(), pos))
    } else if pos < 0 || pos + 16 > data.len() {
        Option::None
    } else {
        let id = spec_u128_from_le_bytes(data.subrange(pos, pos + 16));
        match dec_globals(data, pos + 16, fuel) {
            Option::Some((g, p1)) => match dec_gchildren(data, p1, (n - 1) as nat, fuel) {
                Option::Some((cs, p2)) => Option::Some((seq![(id, g)] + cs, p2)),
                Option::None => Option::None,
            },
            Option::None => Option::None,
        }
    }
}

/// Whether every count and string length in the tree fits the encoded
/// width; true of every tree an execution can hold.
pub open spec fn g_bounded(g: GlobalsView) -> bool
    decreases g,
{
    &&& g.name.len() <= u64::MAX
    &&& g.variables.len() <= u64::MAX
    &&& forall|i: int|
        0 <= i < g.variables.len() ==> (#[trigger] g.variables[i]).0.len() <= u64::MAX
            && g.variables[i].1.len() <= u64::MAX
    &&& g.children.len() <= u64::MAX
    &&& forall|i: int| 0 <= i < g.children.len() ==> g_bounded((#[trigger] g.children[i]).1)
}

/// Law: the variables encoded from index `i` on decode back.
proof fn lemma_vars_roundtrip(prefix: Seq<u8>, vs: Seq<(Seq<char>, Seq<char>)>, i: int, rest: Seq<u8>)
    requires
        0 <= i <= vs.len(),
        forall|j: int|
            0 <= j < vs.len() ==> (#[trigger] vs[j]).0.len() <= u64::MAX && vs[j].1.len()
                <= u64::MAX,
    ensures
        dec_vars(prefix + enc_vars_from(vs, i) + rest, prefix.len() as int, (vs.len() - i) as nat)
            == Option::Some((vs.skip(i), prefix.len() as int + enc_vars_from(vs, i).len() as int)),
    decreases vs.len() - i,
{
    let data = prefix + enc_vars_from(vs, i) + rest;
    if i == vs.len() {
        assert(vs.skip(i) =~= Seq::<(Seq<char>, Seq<char>)>::empty());
        assert(prefix + enc_vars_from(vs, i) + rest =~= prefix + rest);
        assert(enc_vars_from(vs, i).len() == 0);
    } else {
        vstd::bytes::lemma_auto_spec_u64_to_from_le_bytes();
        crate::wire::lemma_enc_chars_len(vs[i].0, vs[i].0.len() as int);
        crate::wire::lemma_enc_chars_len(vs[i].1, vs[i].1.len() as int);
        let e0 = enc_string(vs[i].0);
        let e1 = enc_string(vs[i].1);
        let tailenc = enc_vars_from(vs, i + 1);
        assert(data =~= prefix + e0 + (e1 + tailenc + rest));
        lemma_string_roundtrip(prefix, vs[i].0, e1 + tailenc + rest);
        let p1 = prefix + e0;
        assert(data =~= p1 + e1 + (tailenc + rest));
        lemma_string_roundtrip(p1, vs[i].1, tailenc + rest);
        let p2 = p1 + e1;
        assert(data =~= p2 + tailenc + rest);
        lemma_vars_roundtrip(p2, vs, i + 1, rest);
        assert(seq![(vs[i].0, vs[i].1)] + vs.skip(i + 1) =~= vs.skip(i));
        assert((vs[i].0, vs[i].1) == vs[i]);
        assert(dec_string(data, prefix.len() as int) == Option::Some(
            (vs[i].0, prefix.len() + 8 + 4 * vs[i].0.len() as int),
        ));
        assert(p1.len() == prefix.len() + 8 + 4 * vs[i].0.len());
        assert(p2.len() == p1.len() + 8 + 4 * vs[i].1.len());
    }
}

/// Law: a globals tree decodes back from its own encoding followed by
/// anything, given fuel for its depth.
pub proof fn lemma_globals_roundtrip(prefix: Seq<u8>, g: GlobalsView, rest: Seq<u8>, fuel: nat)
    requires
        g_bounded(g),
        fuel >= g_count(g),
    ensures
        dec_globals(prefix + enc_globals(g) + rest, prefix.len() as int, fuel) == Option::Some(
            (g, prefix.len() as int + enc_globals(g).len() as int),
        ),
    decreases g, 1int, 0int,
{
    vstd::bytes::lemma_auto_spec_u64_to_from_le_bytes();
    crate::wire::lemma_enc_chars_len(g.name, g.name.len() as int);
    let data = prefix + enc_globals(g) + rest;
    let ename = enc_string(g.name);
    let envars = spec_u64_to_le_bytes(g.variables.len() as u64);
    let evars = enc_vars_from(g.variables, 0);
    let ennc = spec_u64_to_le_bytes(g.children.len() as u64);
    let ech = enc_gchildren_from(g.children, 0);
    assert(data =~= prefix + ename + (envars + evars + ennc + ech + rest));
    lemma_string_roundtrip(prefix, g.name, envars + evars + ennc + ech + rest);
    let p1 = prefix + ename;
    assert(p1.len() == prefix.len() + 8 + 4 * g.name.len());
    assert(data.subrange(p1.len() as int, p1.len() as int + 8) =~= envars);
    let p2 = p1 + envars;
    assert(data =~= p2 + evars + (ennc + ech + rest));
    lemma_vars_roundtrip(p2, g.variables, 0, ennc + ech + rest);
    assert(g.variables.skip(0) =~= g.variables);
    let p3 = p2 + evars;
    assert(data.subrange(p3.len() as int, p3.len() as int + 8) =~= ennc);
    let p4 = p3 + ennc;
    assert(data =~= p4 + ech + rest);
    lemma_gchildren_roundtrip(p4, g.children, 0, rest, (fuel - 1) as nat);
    assert(g.children.skip(0) =~= g.children);
    assert(GlobalsView { name: g.name, variables: g.variables, children: g.children } =~= g);
}

/// Law: the child scopes encoded from index `i` on decode back.
proof fn lemma_gchildren_roundtrip(
    prefix: Seq<u8>,
    ch: Seq<(u128, GlobalsView)>,
    i: int,
    rest: Seq<u8>,
    fuel: nat,
)
    requires
        0 <= i <= ch.len(),
        forall|j: int| 0 <= j < ch.len() ==> g_bounded((#[trigger] ch[j]).1),
        fuel >= gc_count(ch, i),
    ensures
        dec_gchildren(
            prefix + enc_gchildren_from(ch, i) + rest,
            prefix.len() as int,
            (ch.len() - i) as nat,
            fuel,
        ) == Option::Some((ch.skip(i), prefix.len() as int + enc_gchildren_from(ch, i).len() as int)),
    decreases ch, 0int, ch.len() - i,
{
    vstd::bytes::lemma_auto_spec_u128_to_from_le_bytes();
    let data = prefix + enc_gchildren_from(ch, i) + rest;
    if i == ch.len() {
        assert(ch.skip(i) =~= Seq::<(u128, GlobalsView)>::empty());
        assert(enc_gchildren_from(ch, i).len() == 0);
    } else {
        let eid = spec_u128_to_le_bytes(ch[i].0);
        let eg = enc_globals(ch[i].1);
        let tailenc = enc_gchildren_from(ch, i + 1);
        assert(data =~= prefix + (eid + eg + tailenc + rest));
        assert(data.subrange(prefix.len() as int, prefix.len() as int + 16) =~= eid);
        let p1 = prefix + eid;
        assert(data =~= p1 + eg + (tailenc + rest));
        assert(g_count(ch[i].1) + gc_count(ch, i + 1) == gc_count(ch, i));
        assert(g_count(ch[i].1) >= 1);
        lemma_globals_roundtrip(p1, ch[i].1, tailenc + rest, fuel);
        let p2 = p1 + eg;
        assert(data =~= p2 + tailenc + rest);
        lemma_gchildren_roundtrip(p2, ch, i + 1, rest, fuel);
        assert(seq![(ch[i].0, ch[i].1)] + ch.skip(i + 1) =~= ch.skip(i));
        assert((ch[i].0, ch[i].1) == ch[i]);
    }
}

/// The encoding of a scope kind: one tag byte.
pub open spec fn enc_scope_type(s: ScopeType) -> Seq<u8> {
    match s {
        ScopeType::Own => seq![0u8],
        ScopeType::Inherit => seq![1u8],
    }
}

/// The encoding of an editor node: a tag byte, then the group or the
/// cell's id and code.
pub open spec fn enc_editor_node(n: EditorNodeView) -> Seq<u8>
    decreases n, 2int, 0int,
{
    match n {
        EditorNodeView::Group(g) => seq![0u8] + enc_editor_group(g),
        EditorNodeView::Cell(id, code) => seq![1u8] + spec_u128_to_le_bytes(id) + enc_string(
            code,
        ),
    }
}

/// The encoding of an editor group: id, name, scope kind, child count,
/// children.
pub open spec fn enc_editor_group(g: EditorGroupView) -> Seq<u8>
    decreases g, 0int, 0int,
{
    spec_u128_to_le_bytes(g.id) + enc_string(g.name) + enc_scope_type(g.scope)
        + spec_u64_to_le_bytes(g.children.len() as u64) + enc_enodes_from(g.children, 0)
}

/// The encoding of the editor nodes from index `i` on.
pub open spec fn enc_enodes_from(ch: Seq<EditorNodeView>, i: int) -> Seq<u8>
    decreases ch, 3int, ch.len() - i,
{
    if i < 0 || i >= ch.len() {
        Seq::empty()
    } else {
        enc_editor_node(ch[i]) + enc_enodes_from(ch, i + 1)
    }
}

/// The node count of an editor node.
pub open spec fn en_count(n: EditorNodeView) -> nat
    decreases n, 2int, 0int,
{
    match n {
        EditorNodeView::Group(g) => eg_count(g),
        EditorNodeView::Cell(_, _) => 1,
    }
}

/// The node count of an editor group.
pub open spec fn eg_count(g: EditorGroupView) -> nat
    decreases g, 0int, 0int,
{
    1 + ens_count(g.children, 0)
}

/// The node count of the editor nodes from index `i` on.
pub open spec fn ens_count(ch: Seq<EditorNodeView>, i: int) -> nat
    decreases ch, 3int, ch.len() - i,
{
    if i < 0 || i >= ch.len() {
        0
    } else {
        en_count(ch[i]) + ens_count(ch, i + 1)
    }
}

/// What reading an editor node from `pos` yields, within `fuel`.
pub open spec fn dec_editor_node(data: Seq<u8>, pos: int, fuel: nat) -> Option<
    (EditorNodeView, int),
>
    decreases fuel, 2int, 0int,
{
    if pos < 0 || pos + 1 > data.len() {
        Option::None
    } else if data[pos] == 0u8 {
        match dec_editor_group(data, pos + 1, fuel) {
            Option::Some((g, p)) => Option::Some((EditorNodeView::Group(g), p)),
            Option::None => Option::None,
        }
    } else if data[pos] == 1u8 {
        if pos + 17 > data.len() {
            Option::None
        } else {
            let id = spec_u128_from_le_bytes(data.subrange(pos + 1, pos + 17));
            match dec_string(data, pos + 17) {
                Option::Some((code, p)) => Option::Some((EditorNodeView::Cell(id, code), p)),
                Option::None => Option::None,
            }
        }
    } else {
        Option::None
    }
}

/// What reading an editor group from `pos` yields, within `fuel`.
pub open spec fn dec_editor_group(data: Seq<u8>, pos: int, fuel: nat) -> Option<
    (EditorGroupView, int),
>
    decreases fuel, 0int, 0int,
{
    if fuel == 0 || pos < 0 || pos + 16 > data.len() {
        Option::None
    } else {
        let id = spec_u128_from_le_bytes(data.subrange(pos, pos + 16));
        match dec_string(data, pos + 16) {
            Option::Some((name, p1)) => {
                if p1 + 1 > data.len() || (data[p1] != 0u8 && data[p1] != 1u8) {
                    Option::None
                } else {
                    let scope = if data[p1] == 0u8 {
                        ScopeType::Own
                    } else {
                        ScopeType::Inherit
                    };
                    if p1 + 9 > data.len() {
                        Option::None
                    } else {
                        let n = spec_u64_from_le_bytes(data.subrange(p1 + 1, p1 + 9));
                        match dec_enodes(data, p1 + 9, n as nat, (fuel - 1) as nat) {
                            Option::Some((cs, p2)) => Option::Some(
                                (EditorGroupView { id, name, children: cs, scope }, p2),
                            ),
                            Option::None => Option::None,
                        }
                    }
                }
            },
            Option::None => Option::None,
        }
    }
}

/// What reading `n` editor nodes from `pos` yields, within `fuel`.
pub open spec fn dec_enodes(data: Seq<u8>, pos: int, n: nat, fuel: nat) -> Option<
    (Seq<EditorNodeView>, int),
>
    decreases fuel, 3int, n,
{
    if n == 0 {
        Option::Some((Seq::empty(), pos))
    } else {
        match dec_editor_node(data, pos, fuel) {
            Option::Some((e, p1)) => match dec_enodes(data, p1, (n - 1) as nat, fuel) {
                Option::Some((cs, p2)) => Option::Some((seq![e] + cs, p2)),
                Option::None => Option::None,
            },
            Option::None => Option::None,
        }
    }
}

/// Whether every count and string length in an editor node fits the
/// encoded width.
pub open spec fn en_bounded(n: EditorNodeView) -> bool
    decreases n, 2int, 0int,
{
    match n {
        EditorNodeView::Group(g) => eg_bounded(g),
        EditorNodeView::Cell(_, code) => code.len() <= u64::MAX,
    }
}

/// Whether every count and string length in an editor group fits the
/// encoded width.
pub open spec fn eg_bounded(g: EditorGroupView) -> bool
    decreases g, 0int, 0int,
{
    &&& g.name.len() <= u64::MAX
    &&& g.children.len() <= u64::MAX
    &&& forall|i: int| 0 <= i < g.children.len() ==> en_bounded(#[trigger] g.children[i])
}

/// Law: an editor node decodes back from its own encoding followed by
/// anything, given fuel for its depth.
proof fn lemma_enode_roundtrip(prefix: Seq<u8>, n: EditorNodeView, rest: Seq<u8>, fuel: nat)
    requires
        en_bounded(n),
        fuel >= en_count(n),
    ensures
        dec_editor_node(prefix + enc_editor_node(n) + rest, prefix.len() as int, fuel)
            == Option::Some((n, prefix.len() as int + enc_editor_node(n).len() as int)),
    decreases n, 2int, 0int,
{
    vstd::bytes::lemma_auto_spec_u128_to_from_le_bytes();
    vstd::bytes::lemma_auto_spec_u64_to_from_le_bytes();
    let data = prefix + enc_editor_node(n) + rest;
    match n {
        EditorNodeView::Group(g) => {
            assert(data =~= (prefix + seq![0u8]) + enc_editor_group(g) + rest);
            assert(data[prefix.len() as int] == 0u8);
            lemma_egroup_roundtrip(prefix + seq![0u8], g, rest, fuel);
        },
        EditorNodeView::Cell(id, code) => {
            crate::wire::lemma_enc_chars_len(code, code.len() as int);
            assert(data[prefix.len() as int] == 1u8);
            assert(data.subrange(prefix.len() as int + 1, prefix.len() as int + 17)
                =~= spec_u128_to_le_bytes(id));
            assert(data =~= (prefix + seq![1u8] + spec_u128_to_le_bytes(id)) + enc_string(code)
                + rest);
            lemma_string_roundtrip(prefix + seq![1u8] + spec_u128_to_le_bytes(id), code, rest);
        },
    }
}

/// Law: an editor group decodes back from its own encoding followed by
/// anything, given fuel for its depth.
pub proof fn lemma_egroup_roundtrip(prefix: Seq<u8>, g: EditorGroupView, rest: Seq<u8>, fuel: nat)
    requires
        eg_bounded(g),
        fuel >= eg_count(g),
    ensures
        dec_editor_group(prefix + enc_editor_group(g) + rest, prefix.len() as int, fuel)
            == Option::Some((g, prefix.len() as int + enc_editor_group(g).len() as int)),
    decreases g, 0int, 0int,
{
    vstd::bytes::lemma_auto_spec_u128_to_from_le_bytes();
    vstd::bytes::lemma_auto_spec_u64_to_from_le_bytes();
    crate::wire::lemma_enc_chars_len(g.name, g.name.len() as int);
    let data = prefix + enc_editor_group(g) + rest;
    let eid = spec_u128_to_le_bytes(g.id);
    let ename = enc_string(g.name);
    let esc = enc_scope_type(g.scope);
    let ecnt = spec_u64_to_le_bytes(g.children.len() as u64);
    let ech = enc_enodes_from(g.children, 0);
    assert(data.subrange(prefix.len() as int, prefix.len() as int + 16) =~= eid);
    let p1 = prefix + eid;
    assert(data =~= p1 + ename + (esc + ecnt + ech + rest));
    lemma_string_roundtrip(p1, g.name, esc + ecnt + ech + rest);
    let p2 = p1 + ename;
    assert(data[p2.len() as int] == esc[0]);
    let p3 = p2 + esc;
    assert(data.subrange(p3.len() as int, p3.len() as int + 8) =~= ecnt);
    let p4 = p3 + ecnt;
    assert(data =~= p4 + ech + rest);
    lemma_enodes_roundtrip(p4, g.children, 0, rest, (fuel - 1) as nat);
    assert(g.children.skip(0) =~= g.children);
    assert(EditorGroupView { id: g.id, name: g.name, children: g.children, scope: g.scope }
        =~= g);
}

/// Law: the editor nodes encoded from index `i` on decode back.
proof fn lemma_enodes_roundtrip(
    prefix: Seq<u8>,
    ch: Seq<EditorNodeView>,
    i: int,
    rest: Seq<u8>,
    fuel: nat,
)
    requires
        0 <= i <= ch.len(),
        forall|j: int| 0 <= j < ch.len() ==> en_bounded(#[trigger] ch[j]),
        fuel >= ens_count(ch, i),
    ensures
        dec_enodes(
            prefix + enc_enodes_from(ch, i) + rest,
            prefix.len() as int,
            (ch.len() - i) as nat,
            fuel,
        ) == Option::Some((ch.skip(i), prefix.len() as int + enc_enodes_from(ch, i).len() as int)),
    decreases ch, 3int, ch.len() - i,
{
    let data = prefix + enc_enodes_from(ch, i) + rest;
    if i == ch.len() {
        assert(ch.skip(i) =~= Seq::<EditorNodeView>::empty());
        assert(enc_enodes_from(ch, i).len() == 0);
    } else {
        let e0 = enc_editor_node(ch[i]);
        let tailenc = enc_enodes_from(ch, i + 1);
        assert(data =~= prefix + e0 + (tailenc + rest));
        assert(en_count(ch[i]) + ens_count(ch, i + 1) == ens_count(ch, i));
        assert(en_count(ch[i]) >= 1) by {
            if ch[i] is Group {
                assert(eg_count(ch[i]->Group_0) >= 1);
            }
        }
        lemma_enode_roundtrip(prefix, ch[i], tailenc + rest, fuel);
        let p1 = prefix + e0;
        assert(data =~= p1 + tailenc + rest);
        lemma_enodes_roundtrip(p1, ch, i + 1, rest, fuel);
        assert(seq![ch[i]] + ch.skip(i + 1) =~= ch.skip(i));
    }
}

/// The encoding of one output value: a tag byte, then its strings.
pub open spec fn enc_output_value(v: crate::messages::OutputValueView) -> Seq<u8> {
    match v {
        crate::messages::OutputValueView::Text(s) => seq![0u8] + enc_string(s),
        crate::messages::OutputValueView::Html(s) => seq![1u8] + enc_string(s),
        crate::messages::OutputValueView::Exception(e) => seq![2u8] + enc_string(e.message)
            + enc_string(e.traceback),
        crate::messages::OutputValueView::Empty => seq![3u8],
    }
}

/// The encoding of the output values from index `i` on.
pub open spec fn enc_values_from(vs: Seq<crate::messages::OutputValueView>, i: int) -> Seq<u8>
    decreases vs.len() - i,
{
    if i < 0 || i >= vs.len() {
        Seq::empty()
    } else {
        enc_output_value(vs[i]) + enc_values_from(vs, i + 1)
    }
}

/// The encoding of a progress flag: one tag byte.
pub open spec fn enc_flag(f: OutputFlag) -> Seq<u8> {
    match f {
        OutputFlag::Running => seq![0u8],
        OutputFlag::Success => seq![1u8],
        OutputFlag::Fail => seq![2u8],
    }
}

/// The encoding of one output cell.
pub open spec fn enc_cell(c: OutputCellView) -> Seq<u8> {
    spec_u128_to_le_bytes(c.id) + spec_u64_to_le_bytes(c.values.len() as u64) + enc_values_from(
        c.values,
        0,
    ) + enc_flag(c.flag) + enc_editor_group(c.editor_node) + spec_u128_to_le_bytes(c.called_id)
}

/// The encoding of the output cells from index `i` on.
pub open spec fn enc_cells_from(cs: Seq<OutputCellView>, i: int) -> Seq<u8>
    decreases cs.len() - i,
{
    if i < 0 || i >= cs.len() {
        Seq::empty()
    } else {
        enc_cell(cs[i]) + enc_cells_from(cs, i + 1)
    }
}

/// The persisted narrowing of a kernel state: `Crashed` keeps its
/// message, everything else is stored `Closed`.
pub open spec fn narrow_kernel(k: KernelStateView) -> KernelStateView {
    match k {
        KernelStateView::Crashed(m) => KernelStateView::Crashed(m),
        KernelStateView::Init(_) => KernelStateView::Closed,
        KernelStateView::Running(_) => KernelStateView::Closed,
        KernelStateView::Closed => KernelStateView::Closed,
    }
}

/// The encoding of a kernel state, already narrowed.
pub open spec fn enc_kstate(k: KernelStateView) -> Seq<u8> {
    match narrow_kernel(k) {
        KernelStateView::Crashed(m) => seq![1u8] + enc_string(m),
        _ => seq![0u8],
    }
}

/// The encoding of a signed timestamp: a sign byte, then the
/// magnitude, negatives offset by one.
pub open spec fn enc_i128(c: int) -> Seq<u8> {
    if c >= 0 {
        seq![0u8] + spec_u128_to_le_bytes(c as u128)
    } else {
        seq![1u8] + spec_u128_to_le_bytes((-(c + 1)) as u128)
    }
}

/// What reading a signed timestamp from `pos` yields.
pub open spec fn dec_i128(data: Seq<u8>, pos: int) -> Option<(int, int)> {
    if pos < 0 || pos + 17 > data.len() {
        Option::None
    } else {
        let m = spec_u128_from_le_bytes(data.subrange(pos + 1, pos + 17));
        if data[pos] == 0u8 {
            if m <= i128::MAX as u128 {
                Option::Some((m as int, pos + 17))
            } else {
                Option::None
            }
        } else if data[pos] == 1u8 {
            if m <= i128::MAX as u128 {
                Option::Some((-(m as int) - 1, pos + 17))
            } else {
                Option::None
            }
        } else {
            Option::None
        }
    }
}

/// The encoding of one run record.
pub open spec fn enc_run(id: u128, rv: crate::notebook::RunView) -> Seq<u8> {
    spec_u128_to_le_bytes(id) + enc_i128(rv.created) + enc_string(rv.title)
        + spec_u64_to_le_bytes(rv.output_cells.len() as u64) + enc_cells_from(rv.output_cells, 0)
        + enc_kstate(rv.kernel) + enc_globals(rv.globals)
}

/// The encoding of the notebook file: the version string, then the
/// editor tree.
pub open spec fn enc_notebook_file(root: EditorGroupView) -> Seq<u8> {
    enc_string("twinsong 0.0.1"@) + enc_editor_group(root)
}

/// What reading one output value from `pos` yields.
pub open spec fn dec_output_value(data: Seq<u8>, pos: int) -> Option<
    (crate::messages::OutputValueView, int),
> {
    if pos < 0 || pos + 1 > data.len() {
        Option::None
    } else if data[pos] == 0u8 || data[pos] == 1u8 {
        match dec_string(data, pos + 1) {
            Option::Some((s, p)) => Option::Some(
                (
                    if data[pos] == 0u8 {
                        crate::messages::OutputValueView::Text(s)
                    } else {
                        crate::messages::OutputValueView::Html(s)
                    },
                    p,
                ),
            ),
            Option::None => Option::None,
        }
    } else if data[pos] == 2u8 {
        match dec_string(data, pos + 1) {
            Option::Some((m, p1)) => match dec_string(data, p1) {
                Option::Some((t, p2)) => Option::Some(
                    (
                        crate::messages::OutputValueView::Exception(
                            crate::messages::ExceptionView { message: m, traceback: t },
                        ),
                        p2,
                    ),
                ),
                Option::None => Option::None,
            },
            Option::None => Option::None,
        }
    } else if data[pos] == 3u8 {
        Option::Some((crate::messages::OutputValueView::Empty, pos + 1))
    } else {
        Option::None
    }
}

/// What reading `n` output values from `pos` yields.
pub open spec fn dec_values(data: Seq<u8>, pos: int, n: nat) -> Option<
    (Seq<crate::messages::OutputValueView>, int),
>
    decreases n,
{
    if n == 0 {
        Option::Some((Seq::empty(), pos))
    } else {
        match dec_output_value(data, pos) {
            Option::Some((v, p1)) => match dec_values(data, p1, (n - 1) as nat) {
                Option::Some((vs, p2)) => Option::Some((seq![v] + vs, p2)),
                Option::None => Option::None,
            },
            Option::None => Option::None,
        }
    }
}

/// What reading a progress flag from `pos` yields.
pub open spec fn dec_flag(data: Seq<u8>, pos: int) -> Option<(OutputFlag, int)> {
    if pos < 0 || pos + 1 > data.len() {
        Option::None
    } else if data[pos] == 0u8 {
        Option::Some((OutputFlag::Running, pos + 1))
    } else if data[pos] == 1u8 {
        Option::Some((OutputFlag::Success, pos + 1))
    } else if data[pos] == 2u8 {
        Option::Some((OutputFlag::Fail, pos + 1))
    } else {
        Option::None
    }
}

/// What reading one output cell from `pos` yields, within `fuel`.
pub open spec fn dec_cell(data: Seq<u8>, pos: int, fuel: nat) -> Option<(OutputCellView, int)> {
    if pos < 0 || pos + 16 > data.len() {
        Option::None
    } else {
        let id = spec_u128_from_le_bytes(data.subrange(pos, pos + 16));
        if pos + 24 > data.len() {
            Option::None
        } else {
            let n = spec_u64_from_le_bytes(data.subrange(pos + 16, pos + 24));
            match dec_values(data, pos + 24, n as nat) {
                Option::Some((vs, p1)) => match dec_flag(data, p1) {
                    Option::Some((f, p2)) => match dec_editor_group(data, p2, fuel) {
                        Option::Some((g, p3)) => {
                            if p3 + 16 > data.len() {
                                Option::None
                            } else {
                                Option::Some(
                                    (
                                        OutputCellView {
                                            id,
                                            values: vs,
                                            flag: f,
                                            editor_node: g,
                                            called_id: spec_u128_from_le_bytes(
                                                data.subrange(p3, p3 + 16),
                                            ),
                                        },
                                        p3 + 16,
                                    ),
                                )
                            }
                        },
                        Option::None => Option::None,
                    },
                    Option::None => Option::None,
                },
                Option::None => Option::None,
            }
        }
    }
}

/// What reading `n` output cells from `pos` yields, within `fuel`.
pub open spec fn dec_cells(data: Seq<u8>, pos: int, n: nat, fuel: nat) -> Option<
    (Seq<OutputCellView>, int),
>
    decreases n,
{
    if n == 0 {
        Option::Some((Seq::empty(), pos))
    } else {
        match dec_cell(data, pos, fuel) {
            Option::Some((c, p1)) => match dec_cells(data, p1, (n - 1) as nat, fuel) {
                Option::Some((cs, p2)) => Option::Some((seq![c] + cs, p2)),
                Option::None => Option::None,
            },
            Option::None => Option::None,
        }
    }
}

/// What reading a stored kernel state from `pos` yields.
pub open spec fn dec_kstate(data: Seq<u8>, pos: int) -> Option<(KernelStateView, int)> {
    if pos < 0 || pos + 1 > data.len() {
        Option::None
    } else if data[pos] == 0u8 {
        Option::Some((KernelStateView::Closed, pos + 1))
    } else if data[pos] == 1u8 {
        match dec_string(data, pos + 1) {
            Option::Some((m, p)) => Option::Some((KernelStateView::Crashed(m), p)),
            Option::None => Option::None,
        }
    } else {
        Option::None
    }
}

/// What reading one run record from `pos` yields, within `fuel`: the
/// run id and the loaded run, whose queue is empty.
pub open spec fn dec_run(data: Seq<u8>, pos: int, fuel: nat) -> Option<
    ((u128, crate::notebook::RunView), int),
> {
    if pos < 0 || pos + 16 > data.len() {
        Option::None
    } else {
        let id = spec_u128_from_le_bytes(data.subrange(pos, pos + 16));
        match dec_i128(data, pos + 16) {
            Option::None => Option::None,
            Option::Some((created, pc)) => match dec_string(data, pc) {
            Option::Some((title, p1)) => {
                if p1 + 8 > data.len() {
                    Option::None
                } else {
                    let n = spec_u64_from_le_bytes(data.subrange(p1, p1 + 8));
                    match dec_cells(data, p1 + 8, n as nat, fuel) {
                        Option::Some((cs, p2)) => match dec_kstate(data, p2) {
                            Option::Some((k, p3)) => match dec_globals(data, p3, fuel) {
                                Option::Some((g, p4)) => Option::Some(
                                    (
                                        (
                                            id,
                                            crate::notebook::RunView {
                                                title,
                                                output_cells: cs,
                                                kernel: k,
                                                queue: 0,
                                                globals: g,
                                                created: created,
                                            },
                                        ),
                                        p4,
                                    ),
                                ),
                                Option::None => Option::None,
                            },
                            Option::None => Option::None,
                        },
                        Option::None => Option::None,
                    }
                }
            },
            Option::None => Option::None,
            },
        }
    }
}

/// What reading the notebook file yields: the editor tree, after the
/// version check.
pub open spec fn dec_notebook_file(data: Seq<u8>, fuel: nat) -> Option<EditorGroupView> {
    match dec_string(data, 0) {
        Option::Some((version, p)) => {
            if version != "twinsong 0.0.1"@ {
                Option::None
            } else {
                match dec_editor_group(data, p, fuel) {
                    Option::Some((g, _)) => Option::Some(g),
                    Option::None => Option::None,
                }
            }
        },
        Option::None => Option::None,
    }
}

/// Append the encoding of a scope kind.
pub fn put_scope_type(out: &mut Vec<u8>, s: ScopeType)
    ensures
        final(out)@ == old(out)@ + enc_scope_type(s),
{
    match s {
        ScopeType::Own => put_u8(out, 0),
        ScopeType::Inherit => put_u8(out, 1),
    }
}

/// Append the encoding of an editor node.
pub fn put_editor_node(out: &mut Vec<u8>, n: &EditorNode)
    ensures
        final(out)@ == old(out)@ + enc_editor_node(n@),
    decreases *n,
{
    match n {
        EditorNode::Group(g) => {
            put_u8(out, 0);
            put_editor_group(out, g);
            proof {
                assert(final(out)@ =~= old(out)@ + enc_editor_node(n@));
            }
        },
        EditorNode::Cell(c) => {
            put_u8(out, 1);
            put_u128(out, c.id.id);
            put_string(out, c.code.as_str());
            proof {
                assert(final(out)@ =~= old(out)@ + enc_editor_node(n@));
            }
        },
    }
}

/// Append the encoding of an editor group.
pub fn put_editor_group(out: &mut Vec<u8>, g: &EditorGroup)
    ensures
        final(out)@ == old(out)@ + enc_editor_group(g@),
    decreases *g,
{
    put_u128(out, g.id.id);
    put_string(out, g.name.as_str());
    put_scope_type(out, g.scope);
    put_u64(out, g.children.len() as u64);
    let ghost base = out@;
    let ghost chv = g@.children;
    let mut i: usize = 0;
    while i < g.children.len()
        invariant
            i <= g.children.len(),
            chv == g@.children,
            chv.len() == g.children@.len(),
            base + enc_enodes_from(chv, 0) == out@ + enc_enodes_from(chv, i as int),
        decreases g.children.len() - i,
    {
        put_editor_node(out, &g.children[i]);
        proof {
            assert(chv[i as int] == editor_node_view(g.children@[i as int]));
            assert(base + enc_enodes_from(chv, 0) =~= out@ + enc_enodes_from(chv, i as int + 1));
        }
        i += 1;
    }
    proof {
        assert(base + enc_enodes_from(chv, 0) =~= out@);
        assert(out@ =~= old(out)@ + enc_editor_group(g@));
    }
}

/// Read an editor node, within `fuel` nesting levels.
pub fn read_editor_node(data: &Vec<u8>, pos: usize, fuel: usize) -> (r: Option<
    (EditorNode, usize),
>)
    ensures
        match r {
            Option::Some((n, p)) => dec_editor_node(data@, pos as int, fuel as nat)
                == Option::Some((n@, p as int)) && p <= data@.len(),
            Option::None => dec_editor_node(data@, pos as int, fuel as nat) is None,
        },
    decreases fuel, 1int,
{
    proof {
        assert(data.len() == data@.len());
    }
    let (tag, p0) = match read_u8(data, pos) {
        Some(r) => r,
        None => {
            return None;
        },
    };
    if tag == 0 {
        match read_editor_group(data, p0, fuel) {
            Some((g, p)) => Some((EditorNode::Group(g), p)),
            None => None,
        }
    } else if tag == 1 {
        let (id, p1) = match read_u128(data, p0) {
            Some(r) => r,
            None => {
                return None;
            },
        };
        let (code, p2) = match read_string(data, p1) {
            Some(r) => r,
            None => {
                return None;
            },
        };
        Some((EditorNode::Cell(EditorCell { id: EditorId::new(id), code }), p2))
    } else {
        None
    }
}

/// Read an editor group, within `fuel` nesting levels.
pub fn read_editor_group(data: &Vec<u8>, pos: usize, fuel: usize) -> (r: Option<
    (EditorGroup, usize),
>)
    ensures
        match r {
            Option::Some((g, p)) => dec_editor_group(data@, pos as int, fuel as nat)
                == Option::Some((g@, p as int)) && p <= data@.len(),
            Option::None => dec_editor_group(data@, pos as int, fuel as nat) is None,
        },
    decreases fuel, 0int,
{
    proof {
        assert(data.len() == data@.len());
    }
    if fuel == 0 {
        return None;
    }
    let (id, p1) = match read_u128(data, pos) {
        Some(r) => r,
        None => {
            return None;
        },
    };
    let (name, p2) = match read_string(data, p1) {
        Some(r) => r,
        None => {
            return None;
        },
    };
    let (tag, p3) = match read_u8(data, p2) {
        Some(r) => r,
        None => {
            return None;
        },
    };
    if tag != 0 && tag != 1 {
        return None;
    }
    let scope = if tag == 0 {
        ScopeType::Own
    } else {
        ScopeType::Inherit
    };
    let (n, mut p) = match read_u64(data, p3) {
        Some(r) => r,
        None => {
            return None;
        },
    };
    proof {
        assert(data.len() == data@.len());
    }
    let mut children: Vec<EditorNode> = Vec::new();
    let mut k: u64 = 0;
    let ghost cbase = p as int;
    let ghost chview = |cs: Vec<EditorNode>| Seq::new(cs@.len(), |i: int| cs@[i]@);
    proof {
        let d = dec_enodes(data@, cbase, n as nat, (fuel - 1) as nat);
        if d is Some {
            assert(Seq::new(children@.len(), |i: int| children@[i]@) + d.unwrap().0
                =~= d.unwrap().0);
        }
    }
    while k < n
        invariant
            k <= n,
            fuel >= 1,
            p <= data@.len(),
            data@.len() <= usize::MAX,
            children@.len() == k,
            pos as int + 16 <= data@.len(),
            dec_string(data@, pos as int + 16) == Option::Some((name@, cbase - 9)),
            cbase - 9 >= 0,
            cbase <= data@.len(),
            data@[cbase - 9] == (match scope {
                ScopeType::Own => 0u8,
                ScopeType::Inherit => 1u8,
            }),
            n == spec_u64_from_le_bytes(data@.subrange(cbase - 8, cbase)),
            dec_enodes(data@, cbase, n as nat, (fuel - 1) as nat) == (match dec_enodes(
                data@,
                p as int,
                (n - k) as nat,
                (fuel - 1) as nat,
            ) {
                Option::Some((cs, q)) => Option::Some(
                    (Seq::new(children@.len(), |i: int| children@[i]@) + cs, q),
                ),
                Option::None => Option::<(Seq<EditorNodeView>, int)>::None,
            }),
        decreases n - k,
    {
        let ghost pre = Seq::new(children@.len(), |i: int| children@[i]@);
        let (node, q1) = match read_editor_node(data, p, fuel - 1) {
            Some(r) => r,
            None => {
                proof {
                    assert(dec_enodes(data@, cbase, n as nat, (fuel - 1) as nat) is None);
                    assert(dec_editor_group(data@, pos as int, fuel as nat) is None);
                }
                return None;
            },
        };
        let ghost nv = node@;
        children.push(node);
        proof {
            assert(Seq::new(children@.len(), |i: int| children@[i]@) =~= pre.push(nv));
            let d = dec_enodes(data@, q1 as int, (n - k - 1) as nat, (fuel - 1) as nat);
            if d is Some {
                assert(pre + (seq![nv] + d.unwrap().0) =~= Seq::new(
                    children@.len(),
                    |i: int| children@[i]@,
                ) + d.unwrap().0);
            }
        }
        p = q1;
        k = k + 1;
    }
    proof {
        let d = dec_enodes(data@, cbase, n as nat, (fuel - 1) as nat);
        if d is Some {
            assert(Seq::new(children@.len(), |i: int| children@[i]@) + Seq::<
                EditorNodeView,
            >::empty() =~= Seq::new(children@.len(), |i: int| children@[i]@));
        }
    }
    let g = EditorGroup { id: EditorId::new(id), name, children, scope };
    proof {
        assert(g@.children =~= Seq::new(g.children@.len(), |i: int| g.children@[i]@));
        assert(g@ =~= (EditorGroupView {
            id,
            name: g.name@,
            children: g@.children,
            scope,
        }));
    }
    Some((g, p))
}

/// Append the encoding of a globals tree.
pub fn put_globals(out: &mut Vec<u8>, g: &SerializedGlobals)
    ensures
        final(out)@ == old(out)@ + enc_globals(g@),
    decreases *g,
{
    put_string(out, g.name.as_str());
    put_u64(out, g.variables.len() as u64);
    let ghost base1 = out@;
    let mut i: usize = 0;
    while i < g.variables.len()
        invariant
            i <= g.variables.len(),
            base1 + enc_vars_from(vars_view(g.variables), 0) == out@ + enc_vars_from(
                vars_view(g.variables),
                i as int,
            ),
        decreases g.variables.len() - i,
    {
        put_string(out, g.variables[i].0.as_str());
        put_string(out, g.variables[i].1.as_str());
        proof {
            assert(vars_view(g.variables)[i as int] == (g.variables@[i as int].0@, g.variables@[i as int].1@));
            assert(base1 + enc_vars_from(vars_view(g.variables), 0) =~= out@ + enc_vars_from(
                vars_view(g.variables),
                i as int + 1,
            ));
        }
        i += 1;
    }
    proof {
        assert(base1 + enc_vars_from(vars_view(g.variables), 0) =~= out@);
    }
    put_u64(out, g.children.len() as u64);
    let ghost base2 = out@;
    let mut i: usize = 0;
    while i < g.children.len()
        invariant
            i <= g.children.len(),
            base2 + enc_gchildren_from(children_view(g.children), 0) == out@
                + enc_gchildren_from(children_view(g.children), i as int),
        decreases g.children.len() - i,
    {
        put_u128(out, g.children[i].0.id);
        put_globals(out, &g.children[i].1);
        proof {
            assert(children_view(g.children)[i as int] == (
                g.children@[i as int].0.id,
                globals_view(g.children@[i as int].1),
            ));
            assert(children_view(g.children).len() == g.children@.len());
            assert(base2 + enc_gchildren_from(children_view(g.children), 0) =~= out@
                + enc_gchildren_from(children_view(g.children), i as int + 1));
        }
        i += 1;
    }
    proof {
        assert(base2 + enc_gchildren_from(children_view(g.children), 0) =~= out@);
    }
    proof {
        assert(out@ =~= old(out)@ + enc_globals(g@));
    }
}

/// Read a globals tree, within `fuel` nesting levels.
pub fn read_globals(data: &Vec<u8>, pos: usize, fuel: usize) -> (r: Option<
    (SerializedGlobals, usize),
>)
    ensures
        match r {
            Option::Some((g, p)) => dec_globals(data@, pos as int, fuel as nat) == Option::Some(
                (g@, p as int),
            ) && p <= data@.len(),
            Option::None => dec_globals(data@, pos as int, fuel as nat) is None,
        },
    decreases fuel,
{
    if fuel == 0 {
        return None;
    }
    let (name, p1) = match read_string(data, pos) {
        Some(r) => r,
        None => {
            return None;
        },
    };
    let (nv, mut p) = match read_u64(data, p1) {
        Some(r) => r,
        None => {
            return None;
        },
    };
    proof {
        assert(data.len() == data@.len());
    }
    let mut variables: Vec<(String, String)> = Vec::new();
    let mut k: u64 = 0;
    proof {
        let d = dec_vars(data@, p as int, nv as nat);
        if d is Some {
            assert(vars_view(variables) + d.unwrap().0 =~= d.unwrap().0);
        }
    }
    while k < nv
        invariant
            k <= nv,
            p <= data@.len(),
            data@.len() <= usize::MAX,
            variables@.len() == k,
            fuel >= 1,
            dec_string(data@, pos as int) == Option::Some((name@, p1 as int)),
            p1 as int + 8 <= data@.len(),
            nv == spec_u64_from_le_bytes(data@.subrange(p1 as int, p1 as int + 8)),
            dec_vars(data@, p1 as int + 8, nv as nat) == (match dec_vars(
                data@,
                p as int,
                (nv - k) as nat,
            ) {
                Option::Some((vs, q)) => Option::Some((vars_view(variables) + vs, q)),
                Option::None => Option::<(Seq<(Seq<char>, Seq<char>)>, int)>::None,
            }),
        decreases nv - k,
    {
        let ghost pre = vars_view(variables);
        let ghost rem = (nv - k) as nat;
        let (vname, q1) = match read_string(data, p) {
            Some(r) => r,
            None => {
                proof {
                    assert(dec_vars(data@, p as int, rem) is None);
                    assert(dec_vars(data@, p1 as int + 8, nv as nat) is None);
                    assert(dec_globals(data@, pos as int, fuel as nat) is None);
                }
                return None;
            },
        };
        let (vval, q2) = match read_string(data, q1) {
            Some(r) => r,
            None => {
                proof {
                    assert(dec_vars(data@, p as int, rem) is None);
                    assert(dec_vars(data@, p1 as int + 8, nv as nat) is None);
                    assert(dec_globals(data@, pos as int, fuel as nat) is None);
                }
                return None;
            },
        };
        variables.push((vname, vval));
        proof {
            assert(vars_view(variables) =~= pre.push(
                (variables@.last().0@, variables@.last().1@),
            ));
            let d = dec_vars(data@, q2 as int, (nv - k - 1) as nat);
            if d is Some {
                assert(pre + (seq![(variables@.last().0@, variables@.last().1@)] + d.unwrap().0)
                    =~= vars_view(variables) + d.unwrap().0);
            }
        }
        p = q2;
        k = k + 1;
    }
    proof {
        let d = dec_vars(data@, p1 as int + 8, nv as nat);
        if d is Some {
            assert(vars_view(variables) + Seq::<(Seq<char>, Seq<char>)>::empty() =~= vars_view(
                variables,
            ));
        }
    }
    let (nc, mut p) = match read_u64(data, p) {
        Some(r) => r,
        None => {
            proof {
                assert(dec_globals(data@, pos as int, fuel as nat) is None);
            }
            return None;
        },
    };
    let mut children: Vec<(ScopeId, SerializedGlobals)> = Vec::new();
    let mut k: u64 = 0;
    let ghost cbase = p as int;
    proof {
        let d = dec_gchildren(data@, p as int, nc as nat, (fuel - 1) as nat);
        if d is Some {
            assert(children_view(children) + d.unwrap().0 =~= d.unwrap().0);
        }
    }
    while k < nc
        invariant
            k <= nc,
            fuel >= 1,
            p <= data@.len(),
            data@.len() <= usize::MAX,
            children@.len() == k,
            dec_string(data@, pos as int) == Option::Some((name@, p1 as int)),
            p1 as int + 8 <= data@.len(),
            nv == spec_u64_from_le_bytes(data@.subrange(p1 as int, p1 as int + 8)),
            dec_vars(data@, p1 as int + 8, nv as nat) == Option::Some(
                (vars_view(variables), cbase - 8),
            ),
            cbase - 8 >= 0,
            cbase <= data@.len(),
            nc == spec_u64_from_le_bytes(data@.subrange(cbase - 8, cbase)),
            dec_gchildren(data@, cbase, nc as nat, (fuel - 1) as nat) == (match dec_gchildren(
                data@,
                p as int,
                (nc - k) as nat,
                (fuel - 1) as nat,
            ) {
                Option::Some((cs, q)) => Option::Some((children_view(children) + cs, q)),
                Option::None => Option::<(Seq<(u128, GlobalsView)>, int)>::None,
            }),
        decreases nc - k,
    {
        let ghost pre = children_view(children);
        let ghost rem = (nc - k) as nat;
        let (id, q1) = match read_u128(data, p) {
            Some(r) => r,
            None => {
                proof {
                    assert(dec_gchildren(data@, p as int, rem, (fuel - 1) as nat) is None);
                    assert(dec_gchildren(data@, cbase, nc as nat, (fuel - 1) as nat) is None);
                    assert(dec_globals(data@, pos as int, fuel as nat) is None);
                }
                return None;
            },
        };
        let (child, q2) = match read_globals(data, q1, fuel - 1) {
            Some(r) => r,
            None => {
                proof {
                    assert(dec_gchildren(data@, p as int, rem, (fuel - 1) as nat) is None);
                    assert(dec_gchildren(data@, cbase, nc as nat, (fuel - 1) as nat) is None);
                    assert(dec_globals(data@, pos as int, fuel as nat) is None);
                }
                return None;
            },
        };
        let ghost cv = child@;
        children.push((ScopeId::new(id), child));
        proof {
            assert(children_view(children) =~= pre.push((id, cv)));
            let d = dec_gchildren(data@, q2 as int, (nc - k - 1) as nat, (fuel - 1) as nat);
            if d is Some {
                assert(pre + (seq![(id, cv)] + d.unwrap().0) =~= children_view(children)
                    + d.unwrap().0);
            }
        }
        p = q2;
        k = k + 1;
    }
    proof {
        let d = dec_gchildren(data@, cbase, nc as nat, (fuel - 1) as nat);
        if d is Some {
            assert(children_view(children) + Seq::<(u128, GlobalsView)>::empty() =~= children_view(
                children,
            ));
        }
    }
    let g = SerializedGlobals { name, variables, children };
    proof {
        assert(g@ =~= (GlobalsView {
            name: g.name@,
            variables: vars_view(g.variables),
            children: children_view(g.children),
        }));
    }
    Some((g, p))
}


/// Append the encoding of an output value.
pub fn put_output_value(out: &mut Vec<u8>, v: &OutputValue)
    ensures
        final(out)@ == old(out)@ + enc_output_value(v@),
{
    match v {
        OutputValue::Text { value } => {
            put_u8(out, 0);
            put_string(out, value.as_str());
        },
        OutputValue::Html { value } => {
            put_u8(out, 1);
            put_string(out, value.as_str());
        },
        OutputValue::Exception { value } => {
            put_u8(out, 2);
            put_string(out, value.message.as_str());
            put_string(out, value.traceback.as_str());
        },
        OutputValue::Empty => {
            put_u8(out, 3);
        },
    }
    proof {
        assert(final(out)@ =~= old(out)@ + enc_output_value(v@));
    }
}

/// Append the encoding of a progress flag.
pub fn put_flag(out: &mut Vec<u8>, f: OutputFlag)
    ensures
        final(out)@ == old(out)@ + enc_flag(f),
{
    match f {
        OutputFlag::Running => put_u8(out, 0),
        OutputFlag::Success => put_u8(out, 1),
        OutputFlag::Fail => put_u8(out, 2),
    }
}

/// Append the encoding of one output cell.
pub fn put_cell(out: &mut Vec<u8>, c: &OutputCell)
    ensures
        final(out)@ == old(out)@ + enc_cell(c@),
{
    put_u128(out, c.id.id);
    put_u64(out, c.values.len() as u64);
    let ghost base = out@;
    let ghost vsv = c@.values;
    let mut i: usize = 0;
    while i < c.values.len()
        invariant
            i <= c.values.len(),
            vsv == c@.values,
            vsv.len() == c.values@.len(),
            base + enc_values_from(vsv, 0) == out@ + enc_values_from(vsv, i as int),
        decreases c.values.len() - i,
    {
        put_output_value(out, &c.values[i]);
        proof {
            assert(vsv[i as int] == c.values@[i as int]@);
            assert(base + enc_values_from(vsv, 0) =~= out@ + enc_values_from(vsv, i as int + 1));
        }
        i += 1;
    }
    proof {
        assert(base + enc_values_from(vsv, 0) =~= out@);
    }
    put_flag(out, c.flag);
    put_editor_group(out, &c.editor_node);
    put_u128(out, c.called_id.id);
    proof {
        assert(final(out)@ =~= old(out)@ + enc_cell(c@));
    }
}

/// Append the narrowed encoding of a kernel state.
pub fn put_kstate(out: &mut Vec<u8>, k: &KernelState)
    ensures
        final(out)@ == old(out)@ + enc_kstate(k@),
{
    match k {
        KernelState::Crashed(m) => {
            put_u8(out, 1);
            put_string(out, m.as_str());
        },
        _ => {
            put_u8(out, 0);
        },
    }
    proof {
        assert(final(out)@ =~= old(out)@ + enc_kstate(k@));
    }
}

/// The bytes of one run record.
pub fn serialize_run(run_id: RunId, run: &crate::notebook::Run) -> (r: Vec<u8>)
    ensures
        r@ == enc_run(run_id.id, run@),
{
    let mut out: Vec<u8> = Vec::new();
    put_u128(&mut out, run_id.id);
    let c = run.created();
    if c >= 0 {
        put_u8(&mut out, 0);
        put_u128(&mut out, c as u128);
    } else {
        put_u8(&mut out, 1);
        let cm = -(c + 1);
        put_u128(&mut out, cm as u128);
    }
    proof {
        assert(out@ =~= spec_u128_to_le_bytes(run_id.id) + enc_i128(run@.created));
    }
    put_string(&mut out, run.title().as_str());
    let cells = run.output_cells();
    put_u64(&mut out, cells.len() as u64);
    let ghost base = out@;
    let ghost csv = run@.output_cells;
    let mut i: usize = 0;
    while i < cells.len()
        invariant
            i <= cells.len(),
            csv == run@.output_cells,
            csv.len() == cells@.len(),
            forall|m: int| 0 <= m < cells@.len() ==> (#[trigger] cells@[m])@ == csv[m],
            base + enc_cells_from(csv, 0) == out@ + enc_cells_from(csv, i as int),
        decreases cells.len() - i,
    {
        put_cell(&mut out, &cells[i]);
        proof {
            assert(base + enc_cells_from(csv, 0) =~= out@ + enc_cells_from(csv, i as int + 1));
        }
        i += 1;
    }
    proof {
        assert(base + enc_cells_from(csv, 0) =~= out@);
    }
    put_kstate(&mut out, run.kernel_state());
    put_globals(&mut out, run.globals());
    proof {
        assert(out@ =~= enc_run(run_id.id, run@));
    }
    out
}

/// The bytes of the notebook file for an editor tree.
pub fn serialize_notebook_file(root: &EditorGroup) -> (r: Vec<u8>)
    ensures
        r@ == enc_notebook_file(root@),
{
    let mut out: Vec<u8> = Vec::new();
    put_string(&mut out, version_string());
    put_editor_group(&mut out, root);
    proof {
        assert(out@ =~= enc_notebook_file(root@));
    }
    out
}

/// Read one output value.
pub fn read_output_value(data: &Vec<u8>, pos: usize) -> (r: Option<(OutputValue, usize)>)
    ensures
        match r {
            Option::Some((v, p)) => dec_output_value(data@, pos as int) == Option::Some(
                (v@, p as int),
            ) && p <= data@.len(),
            Option::None => dec_output_value(data@, pos as int) is None,
        },
{
    proof {
        assert(data.len() == data@.len());
    }
    let (tag, p0) = match read_u8(data, pos) {
        Some(r) => r,
        None => {
            return None;
        },
    };
    if tag == 0 || tag == 1 {
        let (s, p1) = match read_string(data, p0) {
            Some(r) => r,
            None => {
                return None;
            },
        };
        if tag == 0 {
            Some((OutputValue::Text { value: s }, p1))
        } else {
            Some((OutputValue::Html { value: s }, p1))
        }
    } else if tag == 2 {
        let (m, p1) = match read_string(data, p0) {
            Some(r) => r,
            None => {
                return None;
            },
        };
        let (t, p2) = match read_string(data, p1) {
            Some(r) => r,
            None => {
                return None;
            },
        };
        Some((OutputValue::Exception { value: Exception { message: m, traceback: t } }, p2))
    } else if tag == 3 {
        Some((OutputValue::Empty, p0))
    } else {
        None
    }
}

/// Read a progress flag.
pub fn read_flag(data: &Vec<u8>, pos: usize) -> (r: Option<(OutputFlag, usize)>)
    ensures
        match r {
            Option::Some((f, p)) => dec_flag(data@, pos as int) == Option::Some((f, p as int))
                && p <= data@.len(),
            Option::None => dec_flag(data@, pos as int) is None,
        },
{
    proof {
        assert(data.len() == data@.len());
    }
    let (tag, p0) = match read_u8(data, pos) {
        Some(r) => r,
        None => {
            return None;
        },
    };
    if tag == 0 {
        Some((OutputFlag::Running, p0))
    } else if tag == 1 {
        Some((OutputFlag::Success, p0))
    } else if tag == 2 {
        Some((OutputFlag::Fail, p0))
    } else {
        None
    }
}

/// Read one output cell, within `fuel` nesting levels.
pub fn read_cell(data: &Vec<u8>, pos: usize, fuel: usize) -> (r: Option<(OutputCell, usize)>)
    ensures
        match r {
            Option::Some((c, p)) => dec_cell(data@, pos as int, fuel as nat) == Option::Some(
                (c@, p as int),
            ) && p <= data@.len(),
            Option::None => dec_cell(data@, pos as int, fuel as nat) is None,
        },
{
    proof {
        assert(data.len() == data@.len());
    }
    let (id, p0) = match read_u128(data, pos) {
        Some(r) => r,
        None => {
            return None;
        },
    };
    let (n, mut p) = match read_u64(data, p0) {
        Some(r) => r,
        None => {
            return None;
        },
    };
    let mut values: Vec<OutputValue> = Vec::new();
    let mut k: u64 = 0;
    let ghost cbase = p as int;
    proof {
        let d = dec_values(data@, cbase, n as nat);
        if d is Some {
            assert(Seq::new(values@.len(), |i: int| values@[i]@) + d.unwrap().0 =~= d.unwrap().0);
        }
    }
    while k < n
        invariant
            k <= n,
            p <= data@.len(),
            data@.len() <= usize::MAX,
            values@.len() == k,
            pos as int + 24 <= data@.len(),
            id == spec_u128_from_le_bytes(data@.subrange(pos as int, pos as int + 16)),
            n == spec_u64_from_le_bytes(data@.subrange(pos as int + 16, pos as int + 24)),
            cbase == pos as int + 24,
            dec_values(data@, cbase, n as nat) == (match dec_values(
                data@,
                p as int,
                (n - k) as nat,
            ) {
                Option::Some((vs, q)) => Option::Some(
                    (Seq::new(values@.len(), |i: int| values@[i]@) + vs, q),
                ),
                Option::None => Option::<(Seq<crate::messages::OutputValueView>, int)>::None,
            }),
        decreases n - k,
    {
        let ghost pre = Seq::new(values@.len(), |i: int| values@[i]@);
        let (v, q1) = match read_output_value(data, p) {
            Some(r) => r,
            None => {
                proof {
                    assert(dec_values(data@, cbase, n as nat) is None);
                    assert(dec_cell(data@, pos as int, fuel as nat) is None);
                }
                return None;
            },
        };
        let ghost vv = v@;
        values.push(v);
        proof {
            assert(Seq::new(values@.len(), |i: int| values@[i]@) =~= pre.push(vv));
            let d = dec_values(data@, q1 as int, (n - k - 1) as nat);
            if d is Some {
                assert(pre + (seq![vv] + d.unwrap().0) =~= Seq::new(
                    values@.len(),
                    |i: int| values@[i]@,
                ) + d.unwrap().0);
            }
        }
        p = q1;
        k = k + 1;
    }
    proof {
        let d = dec_values(data@, cbase, n as nat);
        if d is Some {
            assert(Seq::new(values@.len(), |i: int| values@[i]@) + Seq::<
                crate::messages::OutputValueView,
            >::empty() =~= Seq::new(values@.len(), |i: int| values@[i]@));
        }
    }
    let (flag, p1) = match read_flag(data, p) {
        Some(r) => r,
        None => {
            return None;
        },
    };
    let (editor_node, p2) = match read_editor_group(data, p1, fuel) {
        Some(r) => r,
        None => {
            return None;
        },
    };
    let (called, p3) = match read_u128(data, p2) {
        Some(r) => r,
        None => {
            return None;
        },
    };
    let c = OutputCell {
        id: OutputCellId::new(id),
        values,
        flag,
        editor_node,
        called_id: EditorId::new(called),
    };
    proof {
        assert(c@.values =~= Seq::new(c.values@.len(), |i: int| c.values@[i]@));
        assert(c@ =~= (OutputCellView {
            id,
            values: c@.values,
            flag,
            editor_node: c.editor_node@,
            called_id: called,
        }));
    }
    Some((c, p3))
}

/// Read a stored kernel state.
pub fn read_kstate(data: &Vec<u8>, pos: usize) -> (r: Option<(KernelState, usize)>)
    ensures
        match r {
            Option::Some((k, p)) => dec_kstate(data@, pos as int) == Option::Some(
                (k@, p as int),
            ) && p <= data@.len(),
            Option::None => dec_kstate(data@, pos as int) is None,
        },
{
    proof {
        assert(data.len() == data@.len());
    }
    let (tag, p0) = match read_u8(data, pos) {
        Some(r) => r,
        None => {
            return None;
        },
    };
    if tag == 0 {
        Some((KernelState::Closed, p0))
    } else if tag == 1 {
        let (m, p1) = match read_string(data, p0) {
            Some(r) => r,
            None => {
                return None;
            },
        };
        Some((KernelState::Crashed(m), p1))
    } else {
        None
    }
}

/// Read one run record, within `fuel` nesting levels.
pub fn read_run(data: &Vec<u8>, pos: usize, fuel: usize) -> (r: Option<
    ((RunId, crate::notebook::Run), usize),
>)
    ensures
        match r {
            Option::Some(((id, run), p)) => dec_run(data@, pos as int, fuel as nat)
                == Option::Some(((id.id, run@), p as int)) && p <= data@.len(),
            Option::None => dec_run(data@, pos as int, fuel as nat) is None,
        },
{
    proof {
        assert(data.len() == data@.len());
    }
    let (id, p0) = match read_u128(data, pos) {
        Some(r) => r,
        None => {
            return None;
        },
    };
    let (sign, ps1) = match read_u8(data, p0) {
        Some(r) => r,
        None => {
            return None;
        },
    };
    let (m, p1) = match read_u128(data, ps1) {
        Some(r) => r,
        None => {
            return None;
        },
    };
    if sign != 0 && sign != 1 {
        return None;
    }
    if m > i128::MAX as u128 {
        return None;
    }
    let created: i128 = if sign == 0 {
        m as i128
    } else {
        -(m as i128) - 1
    };
    proof {
        assert(dec_i128(data@, pos as int + 16) == Option::Some(
            (created as int, pos as int + 33),
        ));
    }
    let (title, p2) = match read_string(data, p1) {
        Some(r) => r,
        None => {
            return None;
        },
    };
    let (n, mut p) = match read_u64(data, p2) {
        Some(r) => r,
        None => {
            return None;
        },
    };
    let mut cells: Vec<OutputCell> = Vec::new();
    let mut k: u64 = 0;
    let ghost cbase = p as int;
    proof {
        let d = dec_cells(data@, cbase, n as nat, fuel as nat);
        if d is Some {
            assert(Seq::new(cells@.len(), |i: int| cells@[i]@) + d.unwrap().0 =~= d.unwrap().0);
        }
    }
    while k < n
        invariant
            k <= n,
            p <= data@.len(),
            data@.len() <= usize::MAX,
            cells@.len() == k,
            pos as int + 33 <= data@.len(),
            id == spec_u128_from_le_bytes(data@.subrange(pos as int, pos as int + 16)),
            dec_i128(data@, pos as int + 16) == Option::Some((created as int, pos as int + 33)),
            dec_string(data@, pos as int + 33) == Option::Some((title@, cbase - 8)),
            cbase - 8 >= 0,
            cbase <= data@.len(),
            n == spec_u64_from_le_bytes(data@.subrange(cbase - 8, cbase)),
            dec_cells(data@, cbase, n as nat, fuel as nat) == (match dec_cells(
                data@,
                p as int,
                (n - k) as nat,
                fuel as nat,
            ) {
                Option::Some((cs, q)) => Option::Some(
                    (Seq::new(cells@.len(), |i: int| cells@[i]@) + cs, q),
                ),
                Option::None => Option::<(Seq<OutputCellView>, int)>::None,
            }),
        decreases n - k,
    {
        let ghost pre = Seq::new(cells@.len(), |i: int| cells@[i]@);
        let (c, q1) = match read_cell(data, p, fuel) {
            Some(r) => r,
            None => {
                proof {
                    assert(dec_cells(data@, cbase, n as nat, fuel as nat) is None);
                    assert(dec_run(data@, pos as int, fuel as nat) is None);
                }
                return None;
            },
        };
        let ghost cv = c@;
        cells.push(c);
        proof {
            assert(Seq::new(cells@.len(), |i: int| cells@[i]@) =~= pre.push(cv));
            let d = dec_cells(data@, q1 as int, (n - k - 1) as nat, fuel as nat);
            if d is Some {
                assert(pre + (seq![cv] + d.unwrap().0) =~= Seq::new(
                    cells@.len(),
                    |i: int| cells@[i]@,
                ) + d.unwrap().0);
            }
        }
        p = q1;
        k = k + 1;
    }
    proof {
        let d = dec_cells(data@, cbase, n as nat, fuel as nat);
        if d is Some {
            assert(Seq::new(cells@.len(), |i: int| cells@[i]@) + Seq::<OutputCellView>::empty()
                =~= Seq::new(cells@.len(), |i: int| cells@[i]@));
        }
    }
    let (kernel, p3) = match read_kstate(data, p) {
        Some(r) => r,
        None => {
            return None;
        },
    };
    let (globals, p4) = match read_globals(data, p3, fuel) {
        Some(r) => r,
        None => {
            return None;
        },
    };
    let ghost cellsv = Seq::new(cells@.len(), |i: int| cells@[i]@);
    let run = crate::notebook::Run::new(title, cells, kernel, globals, created);
    proof {
        assert(run@ =~= (crate::notebook::RunView {
            title: run@.title,
            output_cells: cellsv,
            kernel: run@.kernel,
            queue: 0,
            globals: run@.globals,
            created: created as int,
        }));
    }
    Some(((RunId::new(id), run), p4))
}


/// Relies on `char::is_alphanumeric`: whether the character is Unicode
/// alphabetic or numeric; the result depends on the character alone.
pub uninterp spec fn char_is_alphanumeric(c: char) -> bool;

pub assume_specification[ char::is_alphanumeric ](c: char) -> (r: bool)
    ensures
        r == char_is_alphanumeric(c),
;

/// How one title character lands in a run filename: alphanumerics and
/// a few plain punctuation marks survive, everything else becomes an
/// underscore.
pub open spec fn sanitized_char(c: char) -> char {
    if char_is_alphanumeric(c) || c == '_' || c == '-' || c == '+' || c == '.' || c == ':' {
        c
    } else {
        '_'
    }
}

/// One hexadecimal digit, lower case.
pub open spec fn hex_digit(d: int) -> char {
    if d == 0 { '0' } else if d == 1 { '1' } else if d == 2 { '2' } else if d == 3 { '3' }
    else if d == 4 { '4' } else if d == 5 { '5' } else if d == 6 { '6' } else if d == 7 { '7' }
    else if d == 8 { '8' } else if d == 9 { '9' } else if d == 10 { 'a' } else if d == 11 { 'b' }
    else if d == 12 { 'c' } else if d == 13 { 'd' } else if d == 14 { 'e' } else { 'f' }
}

/// The first eight hexadecimal digits of a UUID's textual form: its
/// top 32 bits, most significant nibble first.
pub open spec fn hex8(x: u32) -> Seq<char> {
    Seq::new(8, |i: int| hex_digit(((x >> (28 - 4 * i) as u32) & 0xf) as int))
}

/// The filename of a persisted run: the sanitized first eight
/// characters of its title, an underscore, the first eight hex digits
/// of its id, and the `.run` suffix.
pub open spec fn run_filename(title: Seq<char>, id: u128) -> Seq<char> {
    let keep = if title.len() < 8 { title.len() as int } else { 8 };
    Seq::new(keep as nat, |i: int| sanitized_char(title[i])) + seq!['_'] + hex8(
        (id >> 96) as u32,
    ) + ".run"@
}

/// One hexadecimal digit, lower case.
fn hex_char(d: u8) -> (c: char)
    requires
        d < 16,
    ensures
        c == hex_digit(d as int),
{
    match d {
        0 => '0', 1 => '1', 2 => '2', 3 => '3', 4 => '4', 5 => '5', 6 => '6', 7 => '7',
        8 => '8', 9 => '9', 10 => 'a', 11 => 'b', 12 => 'c', 13 => 'd', 14 => 'e', _ => 'f',
    }
}

/// The filename under which a run is persisted.
pub fn create_run_filename(name: &str, run_id: RunId) -> (r: String)
    ensures
        r@ == run_filename(name@, run_id.id),
{
    let n = name.unicode_len();
    let keep = if n < 8 { n } else { 8 };
    let mut s = String::new();
    let mut i: usize = 0;
    while i < keep
        invariant
            i <= keep,
            keep <= n,
            n == name@.len(),
            keep == (if name@.len() < 8 { name@.len() as int } else { 8 }),
            s@.len() == i,
            forall|j: int| 0 <= j < i ==> s@[j] == sanitized_char(name@[j]),
        decreases keep - i,
    {
        let c = name.get_char(i);
        let keepc = if c.is_alphanumeric() {
            true
        } else {
            c == '_' || c == '-' || c == '+' || c == '.' || c == ':'
        };
        if keepc {
            s.push(c);
        } else {
            s.push('_');
        }
        i += 1;
    }
    proof {
        assert(s@ =~= Seq::new(
            (if name@.len() < 8 { name@.len() as int } else { 8 }) as nat,
            |j: int| sanitized_char(name@[j]),
        ));
    }
    s.push('_');
    let ghost mid = s@;
    let hi = (run_id.id >> 96) as u32;
    let mut i: usize = 0;
    while i < 8
        invariant
            i <= 8,
            hi == (run_id.id >> 96) as u32,
            s@ == mid + hex8(hi).take(i as int),
        decreases 8 - i,
    {
        let shift: u32 = 28 - 4 * (i as u32);
        proof {
            assert(shift <= 28);
        }
        let d = ((hi >> shift) & 0xf) as u8;
        proof {
            assert((hi >> shift) & 0xf < 16) by (bit_vector);
        }
        let c = hex_char(d);
        s.push(c);
        proof {
            assert(hex8(hi)[i as int] == hex_digit(((hi >> (28 - 4 * (i as int)) as u32) & 0xf) as int));
            assert(s@ =~= mid + hex8(hi).take(i as int + 1));
        }
        i += 1;
    }
    proof {
        assert(hex8(hi).take(8) =~= hex8(hi));
    }
    let mut out = s;
    out.append(".run");
    proof {
        assert(out@ =~= run_filename(name@, run_id.id));
    }
    out
}


/// The bytes of a persisted notebook: the notebook file and one named
/// file per run.
pub struct SerializedNotebook {
    pub notebook_data: Vec<u8>,
    pub runs: Vec<(String, Vec<u8>)>,
}

/// Serialize a notebook: the notebook file carries the version and the
/// editor tree; each run becomes one file, named from its title and id,
/// holding its record with the kernel state narrowed. Exactly the
/// notebook's runs are produced, one file each, so a saved sidecar
/// directory holds precisely the runs of this save.
pub fn serialize_notebook(notebook: &Notebook) -> (r: SerializedNotebook)
    ensures
        r.notebook_data@ == enc_notebook_file(notebook@.editor_root),
        r.runs@.len() == notebook@.runs.len(),
        forall|i: int|
            0 <= i < r.runs@.len() ==> (#[trigger] r.runs@[i]).1@ == enc_run(
                notebook@.runs[i].0,
                notebook@.runs[i].1,
            ) && r.runs@[i].0@ == run_filename(
                notebook@.runs[i].1.title,
                notebook@.runs[i].0,
            ),
{
    let notebook_data = serialize_notebook_file(notebook.editor_root());
    let mut runs: Vec<(String, Vec<u8>)> = Vec::new();
    let runs_ref = notebook.runs();
    let mut i: usize = 0;
    while i < runs_ref.len()
        invariant
            i <= runs_ref.len(),
            runs_ref@.len() == notebook@.runs.len(),
            forall|k: int|
                0 <= k < runs_ref@.len() ==> ((#[trigger] runs_ref@[k]).0.id, runs_ref@[k].1@)
                    == notebook@.runs[k],
            runs@.len() == i,
            forall|k: int|
                0 <= k < i ==> (#[trigger] runs@[k]).1@ == enc_run(
                    notebook@.runs[k].0,
                    notebook@.runs[k].1,
                ) && runs@[k].0@ == run_filename(
                    notebook@.runs[k].1.title,
                    notebook@.runs[k].0,
                ),
        decreases runs_ref.len() - i,
    {
        let run_id = runs_ref[i].0;
        let run = &runs_ref[i].1;
        let filename = create_run_filename(run.title().as_str(), run_id);
        let bytes = serialize_run(run_id, run);
        runs.push((filename, bytes));
        i += 1;
    }
    SerializedNotebook { notebook_data, runs }
}

/// The decoding fuel for a byte buffer: one more than its length,
/// within the machine's reach.
pub open spec fn fuel_for(n: nat) -> nat {
    if n < usize::MAX as nat {
        n + 1
    } else {
        n
    }
}

/// The run records the given files decode to, each with the fuel of
/// its own length.
pub open spec fn decoded_runs(files: Seq<Seq<u8>>) -> Seq<(u128, crate::notebook::RunView)> {
    Seq::new(files.len(), |i: int| dec_run(files[i], 0, fuel_for(files[i].len())).unwrap().0)
}

/// View of loaded run pairs.
pub open spec fn run_pairs_view(s: Seq<(RunId, crate::notebook::Run)>) -> Seq<
    (u128, crate::notebook::RunView),
> {
    Seq::new(s.len(), |i: int| (s[i].0.id, s[i].1@))
}

/// An encoded string takes 8 bytes and 4 per character.
proof fn lemma_enc_string_len(st: Seq<char>)
    ensures
        enc_string(st).len() == 8 + 4 * st.len(),
{
    crate::wire::lemma_enc_chars_len(st, st.len() as int);
    vstd::bytes::lemma_auto_spec_u64_to_from_le_bytes();
}

/// An editor node's encoding is at least as long as its node count.
proof fn lemma_enc_enode_len_ge(n: EditorNodeView)
    ensures
        enc_editor_node(n).len() >= en_count(n),
    decreases n, 2int, 0int,
{
    match n {
        EditorNodeView::Group(g) => {
            lemma_enc_egroup_len_ge(g);
        },
        EditorNodeView::Cell(_, code) => {
            lemma_enc_string_len(code);
            vstd::bytes::lemma_auto_spec_u128_to_from_le_bytes();
        },
    }
}

/// An editor group's encoding is at least as long as its node count.
proof fn lemma_enc_egroup_len_ge(g: EditorGroupView)
    ensures
        enc_editor_group(g).len() >= eg_count(g),
    decreases g, 0int, 0int,
{
    lemma_enc_string_len(g.name);
    vstd::bytes::lemma_auto_spec_u128_to_from_le_bytes();
    vstd::bytes::lemma_auto_spec_u64_to_from_le_bytes();
    lemma_enc_enodes_len_ge(g.children, 0);
}

/// The encoding of the nodes from `i` on is at least their count.
proof fn lemma_enc_enodes_len_ge(ch: Seq<EditorNodeView>, i: int)
    ensures
        enc_enodes_from(ch, i).len() >= ens_count(ch, i),
    decreases ch, 3int, ch.len() - i,
{
    if 0 <= i && i < ch.len() {
        lemma_enc_enode_len_ge(ch[i]);
        lemma_enc_enodes_len_ge(ch, i + 1);
    }
}

/// A globals tree's encoding is at least as long as its node count.
proof fn lemma_enc_globals_len_ge(g: GlobalsView)
    ensures
        enc_globals(g).len() >= g_count(g),
    decreases g, 1int, 0int,
{
    lemma_enc_string_len(g.name);
    vstd::bytes::lemma_auto_spec_u64_to_from_le_bytes();
    lemma_enc_gchildren_len_ge(g.children, 0);
}

/// The encoding of the child scopes from `i` on is at least their count.
proof fn lemma_enc_gchildren_len_ge(ch: Seq<(u128, GlobalsView)>, i: int)
    ensures
        enc_gchildren_from(ch, i).len() >= gc_count(ch, i),
    decreases ch, 0int, ch.len() - i,
{
    if 0 <= i && i < ch.len() {
        vstd::bytes::lemma_auto_spec_u128_to_from_le_bytes();
        lemma_enc_globals_len_ge(ch[i].1);
        lemma_enc_gchildren_len_ge(ch, i + 1);
    }
}

/// The cells encoded from `i` on contain each later cell's encoding.
proof fn lemma_enc_cells_contains(cs: Seq<OutputCellView>, i: int, j: int)
    requires
        0 <= i <= j < cs.len(),
    ensures
        enc_cells_from(cs, i).len() >= enc_cell(cs[j]).len(),
    decreases j - i,
{
    if i < j {
        lemma_enc_cells_contains(cs, i + 1, j);
    }
}

/// Whatever the byte budget, the decoder's fuel of one past the length
/// covers any count the bytes can hold.
proof fn lemma_fuel_covers(len: nat, count: nat)
    requires
        count <= len,
    ensures
        fuel_for(len) >= count,
{
}

/// Law: the notebook file bytes of any bounded editor tree load back
/// to that tree under the loader's own fuel.
pub proof fn lemma_saved_file_loads(root: EditorGroupView)
    requires
        eg_bounded(root),
    ensures
        dec_notebook_file(
            enc_notebook_file(root),
            fuel_for(enc_notebook_file(root).len()),
        ) == Option::Some(root),
{
    let data = enc_notebook_file(root);
    lemma_enc_egroup_len_ge(root);
    lemma_fuel_covers(data.len(), eg_count(root));
    lemma_notebook_file_roundtrip(root, Seq::empty(), fuel_for(data.len()));
    assert(data + Seq::<u8>::empty() =~= data);
}

/// Law: the run-record bytes of any bounded run load back, under the
/// loader's own fuel, to the same run with its kernel state narrowed
/// and its queue emptied.
pub proof fn lemma_saved_run_loads(id: u128, rv: crate::notebook::RunView)
    requires
        run_bounded(rv),
    ensures
        dec_run(enc_run(id, rv), 0, fuel_for(enc_run(id, rv).len())) == Option::Some(
            (
                (
                    id,
                    crate::notebook::RunView {
                        kernel: narrow_kernel(rv.kernel),
                        queue: 0,
                        ..rv
                    },
                ),
                enc_run(id, rv).len() as int,
            ),
        ),
{
    let data = enc_run(id, rv);
    let fuel = fuel_for(data.len());
    lemma_enc_globals_len_ge(rv.globals);
    lemma_fuel_covers(data.len(), g_count(rv.globals));
    assert forall|j: int| 0 <= j < rv.output_cells.len() implies fuel >= eg_count(
        (#[trigger] rv.output_cells[j]).editor_node,
    ) by {
        lemma_enc_cells_contains(rv.output_cells, 0, j);
        lemma_enc_egroup_len_ge(rv.output_cells[j].editor_node);
        lemma_fuel_covers(data.len(), eg_count(rv.output_cells[j].editor_node));
    }
    lemma_run_roundtrip(Seq::empty(), id, rv, Seq::empty(), fuel);
    assert(Seq::<u8>::empty() + data + Seq::<u8>::empty() =~= data);
}

/// Law: a save is always loadable, and loads back to what was saved.
/// For a well-formed notebook whose strings and counts fit the encoded
/// widths, the file set `serialize_notebook` produces meets the
/// loader's success condition, and the decoded records are exactly the
/// saved runs, under the saved keys and in the saved order, each with
/// its kernel state narrowed and its queue emptied. With the loader's
/// own contract and `lemma_sorted_runs_unique`, a save of runs created
/// at strictly increasing times loads back identical up to that
/// narrowing.
pub proof fn lemma_save_then_load_accepted(nv: crate::notebook::NotebookView)
    requires
        crate::notebook::notebook_wf(nv),
        eg_bounded(nv.editor_root),
        forall|i: int| 0 <= i < nv.runs.len() ==> run_bounded((#[trigger] nv.runs[i]).1),
    ensures
        load_accepted(
            enc_notebook_file(nv.editor_root),
            Seq::new(nv.runs.len(), |i: int| enc_run(nv.runs[i].0, nv.runs[i].1)),
        ),
        decoded_runs(Seq::new(nv.runs.len(), |i: int| enc_run(nv.runs[i].0, nv.runs[i].1)))
            == Seq::new(
            nv.runs.len(),
            |i: int|
                (
                    nv.runs[i].0,
                    crate::notebook::RunView {
                        kernel: narrow_kernel(nv.runs[i].1.kernel),
                        queue: 0,
                        ..nv.runs[i].1
                    },
                ),
        ),
{
    let files = Seq::new(nv.runs.len(), |i: int| enc_run(nv.runs[i].0, nv.runs[i].1));
    lemma_saved_file_loads(nv.editor_root);
    assert forall|i: int| 0 <= i < files.len() implies dec_run(
        #[trigger] files[i],
        0,
        fuel_for(files[i].len()),
    ) is Some by {
        lemma_saved_run_loads(nv.runs[i].0, nv.runs[i].1);
    }
    let target = Seq::new(
        nv.runs.len(),
        |i: int|
            (
                nv.runs[i].0,
                crate::notebook::RunView {
                    kernel: narrow_kernel(nv.runs[i].1.kernel),
                    queue: 0,
                    ..nv.runs[i].1
                },
            ),
    );
    assert forall|i: int| 0 <= i < files.len() implies #[trigger] decoded_runs(files)[i]
        == target[i] by {
        lemma_saved_run_loads(nv.runs[i].0, nv.runs[i].1);
    }
    assert(decoded_runs(files) =~= target);
    assert forall|a: int, b: int|
        0 <= a < b < decoded_runs(files).len() implies (#[trigger] decoded_runs(files)[a]).0 != (
        #[trigger] decoded_runs(files)[b]).0 by {
        assert(decoded_runs(files)[a].0 == nv.runs[a].0);
        assert(decoded_runs(files)[b].0 == nv.runs[b].0);
    }
}

/// When a load is owed success: the notebook file parses with a
/// matching version, every run file parses, and no two run files carry
/// one run id.
pub open spec fn load_accepted(notebook_data: Seq<u8>, files: Seq<Seq<u8>>) -> bool {
    &&& dec_notebook_file(notebook_data, fuel_for(notebook_data.len())) is Some
    &&& forall|i: int|
        0 <= i < files.len() ==> dec_run(#[trigger] files[i], 0, fuel_for(files[i].len())) is Some
    &&& crate::scopes::keys_distinct(decoded_runs(files))
}

/// The stored version string parses and is not this library's.
pub open spec fn version_differs(notebook_data: Seq<u8>) -> bool {
    &&& dec_string(notebook_data, 0) is Some
    &&& dec_string(notebook_data, 0).unwrap().0 != "twinsong 0.0.1"@
}

/// Deserialize a notebook from its file and its run files. Succeeds
/// exactly when everything parses under a matching version and the run
/// ids are distinct; fails with `VersionMismatch` exactly when the
/// stored version string parses but differs, and with `Codec` on any
/// other malformed input. The runs are ordered by creation time,
/// ascending.
pub fn deserialize_notebook(notebook_data: &Vec<u8>, run_files: &Vec<Vec<u8>>) -> (r: Result<
    Notebook,
    CoreError,
>)
    ensures
        match r {
            Result::Ok(nb) => {
                &&& dec_notebook_file(notebook_data@, fuel_for(notebook_data@.len()))
                    == Option::Some(nb@.editor_root)
                &&& nb@.path == Seq::<char>::empty()
                &&& nb@.observer is None
                &&& nb@.editor_open_nodes == seq![nb@.editor_root.id]
                &&& crate::notebook::notebook_wf(nb@)
                &&& forall|i: int|
                    0 <= i < run_files@.len() ==> dec_run(
                        (#[trigger] run_files@[i])@,
                        0,
                        fuel_for(run_files@[i]@.len()),
                    ) is Some
                &&& nb@.runs.to_multiset() == decoded_runs(
                    Seq::new(run_files@.len(), |i: int| run_files@[i]@),
                ).to_multiset()
                &&& forall|i: int, j: int|
                    0 <= i < j < nb@.runs.len() ==> (#[trigger] nb@.runs[i]).1.created <= (
                    #[trigger] nb@.runs[j]).1.created
            },
            Result::Err(e) => e == CoreError::VersionMismatch || e == CoreError::Codec,
        },
        r is Ok <==> load_accepted(
            notebook_data@,
            Seq::new(run_files@.len(), |i: int| run_files@[i]@),
        ),
        (r is Err && r->Err_0 == CoreError::VersionMismatch) <==> version_differs(notebook_data@),
{
    proof {
        assert(notebook_data.len() == notebook_data@.len());
        assert(Seq::new(run_files@.len(), |i: int| run_files@[i]@) =~= Seq::new(
            run_files@.len(),
            |i: int| run_files@[i]@,
        ));
    }
    let fuel = if notebook_data.len() < usize::MAX {
        notebook_data.len() + 1
    } else {
        notebook_data.len()
    };
    let (version, vp) = match read_string(notebook_data, 0) {
        Some(r) => r,
        None => {
            proof {
                assert(dec_notebook_file(notebook_data@, fuel_for(notebook_data@.len()))
                    is None);
            }
            return Err(CoreError::Codec);
        },
    };
    if !(version == String::from_str(version_string())) {
        proof {
            assert(version_differs(notebook_data@));
            assert(dec_notebook_file(notebook_data@, fuel_for(notebook_data@.len())) is None);
        }
        return Err(CoreError::VersionMismatch);
    }
    proof {
        assert(version@ == "twinsong 0.0.1"@);
        assert(fuel as nat == fuel_for(notebook_data@.len()));
    }
    let (editor_root, _) = match read_editor_group(notebook_data, vp, fuel) {
        Some(r) => r,
        None => {
            proof {
                assert(dec_notebook_file(notebook_data@, fuel_for(notebook_data@.len()))
                    is None);
            }
            return Err(CoreError::Codec);
        },
    };
    let mut runs: Vec<(RunId, crate::notebook::Run)> = Vec::new();
    let ghost filesv = Seq::new(run_files@.len(), |i: int| run_files@[i]@);
    let mut i: usize = 0;
    while i < run_files.len()
        invariant
            i <= run_files.len(),
            filesv == Seq::new(run_files@.len(), |k: int| run_files@[k]@),
            filesv.len() == run_files@.len(),
            runs@.len() == i,
            forall|k: int|
                0 <= k < i ==> dec_run(
                    (#[trigger] run_files@[k])@,
                    0,
                    fuel_for(run_files@[k]@.len()),
                ) is Some,
            forall|k: int|
                0 <= k < i ==> (#[trigger] run_pairs_view(runs@)[k]) == decoded_runs(filesv)[k],
            crate::scopes::keys_distinct(run_pairs_view(runs@)),
            forall|k: int| 0 <= k < i ==> run_wf_of(#[trigger] run_pairs_view(runs@)[k].1),
            dec_string(notebook_data@, 0) is Some,
            dec_string(notebook_data@, 0).unwrap().0 == "twinsong 0.0.1"@,
        decreases run_files.len() - i,
    {
        let file = &run_files[i];
        let ffuel = if file.len() < usize::MAX {
            file.len() + 1
        } else {
            file.len()
        };
        proof {
            assert(file.len() == file@.len());
            assert(file@ == run_files@[i as int]@);
            assert(ffuel as nat == fuel_for(run_files@[i as int]@.len()));
            assert(filesv[i as int] == run_files@[i as int]@);
        }
        let ((run_id, run), _) = match read_run(file, 0, ffuel) {
            Some(r) => r,
            None => {
                proof {
                    assert(dec_run(
                        run_files@[i as int]@,
                        0,
                        fuel_for(run_files@[i as int]@.len()),
                    ) is None);
                    assert(!version_differs(notebook_data@));
                }
                return Err(CoreError::Codec);
            },
        };
        let ghost pre = run_pairs_view(runs@);
        let mut dup = false;
        let mut k: usize = 0;
        while k < runs.len()
            invariant
                k <= runs.len(),
                pre == run_pairs_view(runs@),
                pre.len() == runs@.len(),
                dup == exists|m: int| 0 <= m < k && (#[trigger] pre[m]).0 == run_id.id,
            decreases runs.len() - k,
        {
            if runs[k].0 == run_id {
                proof {
                    assert(pre[k as int].0 == run_id.id);
                }
                dup = true;
            }
            k += 1;
        }
        if dup {
            proof {
                let dr = decoded_runs(filesv);
                let m = choose|m: int| 0 <= m < pre.len() && (#[trigger] pre[m]).0 == run_id.id;
                assert(dr[m] == pre[m]);
                assert(dr[i as int].0 == run_id.id);
                assert(dr[m].0 == dr[i as int].0);
                assert(!crate::scopes::keys_distinct(dr));
                assert(!version_differs(notebook_data@));
            }
            return Err(CoreError::Codec);
        }
        let ghost rv = run@;
        runs.push((run_id, run));
        proof {
            assert(run_pairs_view(runs@) =~= pre.push((run_id.id, rv)));
            assert(decoded_runs(filesv)[i as int] == (run_id.id, rv));
            assert forall|a: int, b: int|
                0 <= a < b < run_pairs_view(runs@).len() implies (#[trigger] run_pairs_view(
                runs@,
            )[a]).0 != (#[trigger] run_pairs_view(runs@)[b]).0 by {
                if b < run_pairs_view(runs@).len() - 1 {
                    assert(run_pairs_view(runs@)[a] == pre[a]);
                    assert(run_pairs_view(runs@)[b] == pre[b]);
                } else {
                    assert(run_pairs_view(runs@)[a] == pre[a]);
                    assert(!(exists|m: int| 0 <= m < pre.len() && (#[trigger] pre[m]).0
                        == run_id.id));
                }
            }
        }
        i += 1;
    }
    proof {
        assert(run_pairs_view(runs@) =~= decoded_runs(filesv));
    }
    let sorted = sort_runs(runs);
    proof {
        assert(Seq::new(sorted@.len(), |k: int| (sorted@[k].0.id, sorted@[k].1@))
            =~= run_pairs_view(sorted@));
        assert forall|k: int| 0 <= k < sorted@.len() implies crate::notebook::run_wf(
            (#[trigger] sorted@[k].1)@,
        ) by {
            assert(run_wf_of(run_pairs_view(sorted@)[k].1));
        }
    }
    let nb = Notebook::from_parts(editor_root, sorted);
    proof {
        assert(nb@.runs =~= run_pairs_view(sorted@));
        assert(dec_notebook_file(notebook_data@, fuel_for(notebook_data@.len())) is Some);
        assert(crate::scopes::keys_distinct(decoded_runs(filesv)));
        assert(load_accepted(notebook_data@, filesv));
        assert(!version_differs(notebook_data@));
    }
    Ok(nb)
}

/// The queue bound of a loaded run view.
pub open spec fn run_wf_of(rv: crate::notebook::RunView) -> bool {
    crate::notebook::run_wf(rv)
}

/// Sort loaded runs ascending by creation time; the result holds
/// exactly the given runs, keys and well-formedness preserved.
fn sort_runs(runs: Vec<(RunId, crate::notebook::Run)>) -> (r: Vec<(RunId, crate::notebook::Run)>)
    requires
        crate::scopes::keys_distinct(run_pairs_view(runs@)),
        forall|k: int| 0 <= k < runs@.len() ==> run_wf_of(#[trigger] run_pairs_view(runs@)[k].1),
    ensures
        run_pairs_view(r@).to_multiset() == run_pairs_view(runs@).to_multiset(),
        crate::scopes::keys_distinct(run_pairs_view(r@)),
        forall|k: int| 0 <= k < r@.len() ==> run_wf_of(#[trigger] run_pairs_view(r@)[k].1),
        forall|i: int, j: int|
            0 <= i < j < r@.len() ==> (#[trigger] run_pairs_view(r@)[i]).1.created <= (
            #[trigger] run_pairs_view(r@)[j]).1.created,
{
    let ghost orig = run_pairs_view(runs@);
    let mut rest = runs;
    let mut out: Vec<(RunId, crate::notebook::Run)> = Vec::new();
    proof {
        assert(run_pairs_view(out@) =~= Seq::<(u128, crate::notebook::RunView)>::empty());
        assert(run_pairs_view(out@).to_multiset().add(run_pairs_view(rest@).to_multiset())
            =~= orig.to_multiset());
    }
    while rest.len() > 0
        invariant
            run_pairs_view(out@).to_multiset().add(run_pairs_view(rest@).to_multiset())
                == orig.to_multiset(),
            forall|i: int, j: int|
                0 <= i < j < out@.len() ==> (#[trigger] run_pairs_view(out@)[i]).1.created <= (
                #[trigger] run_pairs_view(out@)[j]).1.created,
            forall|i: int, j: int|
                0 <= i < out@.len() && 0 <= j < rest@.len() ==> (#[trigger] run_pairs_view(
                    out@,
                )[i]).1.created <= (#[trigger] run_pairs_view(rest@)[j]).1.created,
            forall|i: int, j: int|
                0 <= i < out@.len() && 0 <= j < rest@.len() ==> (#[trigger] run_pairs_view(
                    out@,
                )[i]).0 != (#[trigger] run_pairs_view(rest@)[j]).0,
            crate::scopes::keys_distinct(run_pairs_view(out@)),
            crate::scopes::keys_distinct(run_pairs_view(rest@)),
            forall|k: int|
                0 <= k < out@.len() ==> run_wf_of(#[trigger] run_pairs_view(out@)[k].1),
            forall|k: int|
                0 <= k < rest@.len() ==> run_wf_of(#[trigger] run_pairs_view(rest@)[k].1),
        decreases rest.len(),
    {
        let mut mi: usize = 0;
        let mut k: usize = 1;
        while k < rest.len()
            invariant
                rest@.len() > 0,
                mi < k <= rest@.len(),
                forall|j: int|
                    0 <= j < k ==> (#[trigger] run_pairs_view(rest@)[mi as int]).1.created
                        <= run_pairs_view(rest@)[j].1.created,
            decreases rest.len() - k,
        {
            if rest[k].1.created() < rest[mi].1.created() {
                mi = k;
            }
            k += 1;
        }
        let ghost pre_out = run_pairs_view(out@);
        let ghost pre_rest = run_pairs_view(rest@);
        let e = rest.remove(mi);
        out.push(e);
        proof {
            let ev = pre_rest[mi as int];
            assert(run_pairs_view(out@) =~= pre_out.push(ev));
            assert(run_pairs_view(rest@) =~= pre_rest.remove(mi as int));
            assert(pre_out.push(ev).to_multiset() =~= pre_out.to_multiset().insert(ev));
            assert(pre_rest.remove(mi as int).to_multiset() =~= pre_rest.to_multiset().remove(
                ev,
            ));
            assert(pre_rest.to_multiset().count(ev) > 0);
            assert(run_pairs_view(out@).to_multiset().add(run_pairs_view(rest@).to_multiset())
                =~= pre_out.to_multiset().add(pre_rest.to_multiset()));
            assert forall|a: int, b: int|
                0 <= a < out@.len() && 0 <= b < rest@.len() implies (#[trigger] run_pairs_view(
                out@,
            )[a]).1.created <= (#[trigger] run_pairs_view(rest@)[b]).1.created && run_pairs_view(
                out@,
            )[a].0 != run_pairs_view(rest@)[b].0 by {
                let b0 = if b < mi { b } else { b + 1 };
                assert(run_pairs_view(rest@)[b] == pre_rest[b0]);
                if a < out@.len() - 1 {
                    assert(run_pairs_view(out@)[a] == pre_out[a]);
                } else {
                    assert(run_pairs_view(out@)[a] == ev);
                }
            }
            assert forall|a: int, b: int|
                0 <= a < b < out@.len() implies (#[trigger] run_pairs_view(out@)[a]).1.created
                <= (#[trigger] run_pairs_view(out@)[b]).1.created && run_pairs_view(out@)[a].0
                != run_pairs_view(out@)[b].0 by {
                if b < out@.len() - 1 {
                    assert(run_pairs_view(out@)[a] == pre_out[a]);
                    assert(run_pairs_view(out@)[b] == pre_out[b]);
                } else {
                    assert(run_pairs_view(out@)[a] == pre_out[a]);
                    assert(run_pairs_view(out@)[b] == ev);
                }
            }
        }
    }
    proof {
        assert(run_pairs_view(rest@).to_multiset() =~= vstd::multiset::Multiset::<
            (u128, crate::notebook::RunView),
        >::empty());
        assert(run_pairs_view(out@).to_multiset().add(vstd::multiset::Multiset::<
            (u128, crate::notebook::RunView),
        >::empty()) =~= run_pairs_view(out@).to_multiset());
    }
    out
}


/// Whether an output value's strings fit the encoded width.
pub open spec fn value_bounded(v: crate::messages::OutputValueView) -> bool {
    match v {
        crate::messages::OutputValueView::Text(s) => s.len() <= u64::MAX,
        crate::messages::OutputValueView::Html(s) => s.len() <= u64::MAX,
        crate::messages::OutputValueView::Exception(e) => e.message.len() <= u64::MAX
            && e.traceback.len() <= u64::MAX,
        crate::messages::OutputValueView::Empty => true,
    }
}

/// Whether a cell's counts and strings fit the encoded width.
pub open spec fn cell_bounded(c: OutputCellView) -> bool {
    &&& c.values.len() <= u64::MAX
    &&& forall|i: int| 0 <= i < c.values.len() ==> value_bounded(#[trigger] c.values[i])
    &&& eg_bounded(c.editor_node)
}

/// Whether a run's counts, strings and timestamp fit the encoded width.
pub open spec fn run_bounded(rv: crate::notebook::RunView) -> bool {
    &&& rv.title.len() <= u64::MAX
    &&& rv.output_cells.len() <= u64::MAX
    &&& forall|i: int| 0 <= i < rv.output_cells.len() ==> cell_bounded(#[trigger] rv.output_cells[i])
    &&& (match rv.kernel {
        KernelStateView::Crashed(m) => m.len() <= u64::MAX,
        _ => true,
    })
    &&& g_bounded(rv.globals)
    &&& i128::MIN <= rv.created <= i128::MAX
}

/// Law: an output value decodes back from its own encoding.
proof fn lemma_value_roundtrip(prefix: Seq<u8>, v: crate::messages::OutputValueView, rest: Seq<u8>)
    requires
        value_bounded(v),
    ensures
        dec_output_value(prefix + enc_output_value(v) + rest, prefix.len() as int)
            == Option::Some((v, prefix.len() as int + enc_output_value(v).len() as int)),
{
    let data = prefix + enc_output_value(v) + rest;
    match v {
        crate::messages::OutputValueView::Text(st) => {
            crate::wire::lemma_enc_chars_len(st, st.len() as int);
            vstd::bytes::lemma_auto_spec_u64_to_from_le_bytes();
            assert(data[prefix.len() as int] == 0u8);
            assert(data =~= (prefix + seq![0u8]) + enc_string(st) + rest);
            lemma_string_roundtrip(prefix + seq![0u8], st, rest);
        },
        crate::messages::OutputValueView::Html(st) => {
            crate::wire::lemma_enc_chars_len(st, st.len() as int);
            vstd::bytes::lemma_auto_spec_u64_to_from_le_bytes();
            assert(data[prefix.len() as int] == 1u8);
            assert(data =~= (prefix + seq![1u8]) + enc_string(st) + rest);
            lemma_string_roundtrip(prefix + seq![1u8], st, rest);
        },
        crate::messages::OutputValueView::Exception(e) => {
            crate::wire::lemma_enc_chars_len(e.message, e.message.len() as int);
            crate::wire::lemma_enc_chars_len(e.traceback, e.traceback.len() as int);
            vstd::bytes::lemma_auto_spec_u64_to_from_le_bytes();
            assert(data[prefix.len() as int] == 2u8);
            assert(data =~= (prefix + seq![2u8]) + enc_string(e.message) + (enc_string(
                e.traceback,
            ) + rest));
            lemma_string_roundtrip(prefix + seq![2u8], e.message, enc_string(e.traceback) + rest);
            let p1 = prefix + seq![2u8] + enc_string(e.message);
            assert(data =~= p1 + enc_string(e.traceback) + rest);
            lemma_string_roundtrip(p1, e.traceback, rest);
            assert(crate::messages::ExceptionView { message: e.message, traceback: e.traceback }
                == e);
        },
        crate::messages::OutputValueView::Empty => {
            assert(data[prefix.len() as int] == 3u8);
        },
    }
}

/// Law: the output values encoded from index `i` on decode back.
proof fn lemma_values_roundtrip(
    prefix: Seq<u8>,
    vs: Seq<crate::messages::OutputValueView>,
    i: int,
    rest: Seq<u8>,
)
    requires
        0 <= i <= vs.len(),
        forall|j: int| 0 <= j < vs.len() ==> value_bounded(#[trigger] vs[j]),
    ensures
        dec_values(
            prefix + enc_values_from(vs, i) + rest,
            prefix.len() as int,
            (vs.len() - i) as nat,
        ) == Option::Some((vs.skip(i), prefix.len() as int + enc_values_from(vs, i).len() as int)),
    decreases vs.len() - i,
{
    let data = prefix + enc_values_from(vs, i) + rest;
    if i == vs.len() {
        assert(vs.skip(i) =~= Seq::<crate::messages::OutputValueView>::empty());
        assert(enc_values_from(vs, i).len() == 0);
    } else {
        let e0 = enc_output_value(vs[i]);
        let tailenc = enc_values_from(vs, i + 1);
        assert(data =~= prefix + e0 + (tailenc + rest));
        lemma_value_roundtrip(prefix, vs[i], tailenc + rest);
        let p1 = prefix + e0;
        assert(data =~= p1 + tailenc + rest);
        lemma_values_roundtrip(p1, vs, i + 1, rest);
        assert(seq![vs[i]] + vs.skip(i + 1) =~= vs.skip(i));
    }
}

/// Law: a stored kernel state decodes back, narrowed.
proof fn lemma_kstate_roundtrip(prefix: Seq<u8>, k: KernelStateView, rest: Seq<u8>)
    requires
        (match k {
            KernelStateView::Crashed(m) => m.len() <= u64::MAX,
            _ => true,
        }),
    ensures
        dec_kstate(prefix + enc_kstate(k) + rest, prefix.len() as int) == Option::Some(
            (narrow_kernel(k), prefix.len() as int + enc_kstate(k).len() as int),
        ),
{
    let data = prefix + enc_kstate(k) + rest;
    match k {
        KernelStateView::Crashed(m) => {
            crate::wire::lemma_enc_chars_len(m, m.len() as int);
            vstd::bytes::lemma_auto_spec_u64_to_from_le_bytes();
            assert(data[prefix.len() as int] == 1u8);
            assert(data =~= (prefix + seq![1u8]) + enc_string(m) + rest);
            lemma_string_roundtrip(prefix + seq![1u8], m, rest);
        },
        _ => {
            assert(data[prefix.len() as int] == 0u8);
        },
    }
}

/// Law: an output cell decodes back from its own encoding, given fuel
/// for its editor subtree.
proof fn lemma_cell_roundtrip(prefix: Seq<u8>, c: OutputCellView, rest: Seq<u8>, fuel: nat)
    requires
        cell_bounded(c),
        fuel >= eg_count(c.editor_node),
    ensures
        dec_cell(prefix + enc_cell(c) + rest, prefix.len() as int, fuel) == Option::Some(
            (c, prefix.len() as int + enc_cell(c).len() as int),
        ),
{
    vstd::bytes::lemma_auto_spec_u128_to_from_le_bytes();
    vstd::bytes::lemma_auto_spec_u64_to_from_le_bytes();
    let data = prefix + enc_cell(c) + rest;
    let eid = spec_u128_to_le_bytes(c.id);
    let ecnt = spec_u64_to_le_bytes(c.values.len() as u64);
    let evals = enc_values_from(c.values, 0);
    let efl = enc_flag(c.flag);
    let eg = enc_editor_group(c.editor_node);
    let ecall = spec_u128_to_le_bytes(c.called_id);
    assert(data.subrange(prefix.len() as int, prefix.len() as int + 16) =~= eid);
    assert(data.subrange(prefix.len() as int + 16, prefix.len() as int + 24) =~= ecnt);
    let p1 = prefix + eid + ecnt;
    assert(data =~= p1 + evals + (efl + eg + ecall + rest));
    lemma_values_roundtrip(p1, c.values, 0, efl + eg + ecall + rest);
    assert(c.values.skip(0) =~= c.values);
    let p2 = p1 + evals;
    assert(data[p2.len() as int] == efl[0]);
    let p3 = p2 + efl;
    assert(data =~= p3 + eg + (ecall + rest));
    lemma_egroup_roundtrip(p3, c.editor_node, ecall + rest, fuel);
    let p4 = p3 + eg;
    assert(data.subrange(p4.len() as int, p4.len() as int + 16) =~= ecall);
    assert(OutputCellView {
        id: c.id,
        values: c.values,
        flag: c.flag,
        editor_node: c.editor_node,
        called_id: c.called_id,
    } =~= c);
}

/// Law: the output cells encoded from index `i` on decode back.
proof fn lemma_cells_roundtrip(
    prefix: Seq<u8>,
    cs: Seq<OutputCellView>,
    i: int,
    rest: Seq<u8>,
    fuel: nat,
)
    requires
        0 <= i <= cs.len(),
        forall|j: int| 0 <= j < cs.len() ==> cell_bounded(#[trigger] cs[j]),
        forall|j: int| 0 <= j < cs.len() ==> fuel >= eg_count((#[trigger] cs[j]).editor_node),
    ensures
        dec_cells(
            prefix + enc_cells_from(cs, i) + rest,
            prefix.len() as int,
            (cs.len() - i) as nat,
            fuel,
        ) == Option::Some((cs.skip(i), prefix.len() as int + enc_cells_from(cs, i).len() as int)),
    decreases cs.len() - i,
{
    let data = prefix + enc_cells_from(cs, i) + rest;
    if i == cs.len() {
        assert(cs.skip(i) =~= Seq::<OutputCellView>::empty());
        assert(enc_cells_from(cs, i).len() == 0);
    } else {
        let e0 = enc_cell(cs[i]);
        let tailenc = enc_cells_from(cs, i + 1);
        assert(data =~= prefix + e0 + (tailenc + rest));
        lemma_cell_roundtrip(prefix, cs[i], tailenc + rest, fuel);
        let p1 = prefix + e0;
        assert(data =~= p1 + tailenc + rest);
        lemma_cells_roundtrip(p1, cs, i + 1, rest, fuel);
        assert(seq![cs[i]] + cs.skip(i + 1) =~= cs.skip(i));
    }
}

/// Law: a run record decodes back from its own encoding, with the
/// kernel state narrowed to its persisted form and the queue empty: a
/// saved and reloaded run is the run it was, so narrowed.
#[verifier::rlimit(100)]
#[verifier::spinoff_prover]
proof fn lemma_run_head(prefix: Seq<u8>, id: u128, rv: crate::notebook::RunView, rest: Seq<u8>, fuel: nat)
    requires
        run_bounded(rv),
        forall|j: int|
            0 <= j < rv.output_cells.len() ==> fuel >= eg_count(
                (#[trigger] rv.output_cells[j]).editor_node,
            ),
    ensures
        ({
            let data = prefix + enc_run(id, rv) + rest;
            let p1 = prefix + spec_u128_to_le_bytes(id) + enc_i128(rv.created);
            let p2 = p1 + enc_string(rv.title);
            let p3 = p2 + spec_u64_to_le_bytes(rv.output_cells.len() as u64);
            let p4 = p3 + enc_cells_from(rv.output_cells, 0);
            &&& data.subrange(prefix.len() as int, prefix.len() as int + 16)
                == spec_u128_to_le_bytes(id)
            &&& dec_i128(data, prefix.len() as int + 16) == Option::Some(
                (rv.created, p1.len() as int),
            )
            &&& dec_string(data, p1.len() as int) == Option::Some((rv.title, p2.len() as int))
            &&& p2.len() + 8 <= data.len()
            &&& spec_u64_from_le_bytes(data.subrange(p2.len() as int, p2.len() as int + 8))
                == rv.output_cells.len() as u64
            &&& dec_cells(data, p3.len() as int, rv.output_cells.len() as nat, fuel)
                == Option::Some((rv.output_cells, p4.len() as int))
        }),
{
    vstd::bytes::lemma_auto_spec_u128_to_from_le_bytes();
    vstd::bytes::lemma_auto_spec_u64_to_from_le_bytes();
    crate::wire::lemma_enc_chars_len(rv.title, rv.title.len() as int);
    let data = prefix + enc_run(id, rv) + rest;
    let eid = spec_u128_to_le_bytes(id);
    let ecr = enc_i128(rv.created);
    let eti = enc_string(rv.title);
    let ecnt = spec_u64_to_le_bytes(rv.output_cells.len() as u64);
    let ecs = enc_cells_from(rv.output_cells, 0);
    let ek = enc_kstate(rv.kernel);
    let eg = enc_globals(rv.globals);
    assert(data.subrange(prefix.len() as int, prefix.len() as int + 16) =~= eid);
    assert(data =~= (prefix + eid) + ecr + (eti + ecnt + ecs + ek + eg + rest));
    lemma_i128_roundtrip(prefix + eid, rv.created, eti + ecnt + ecs + ek + eg + rest);
    let p1 = prefix + eid + ecr;
    assert(data =~= p1 + eti + (ecnt + ecs + ek + eg + rest));
    lemma_string_roundtrip(p1, rv.title, ecnt + ecs + ek + eg + rest);
    let p2 = p1 + eti;
    assert(data.subrange(p2.len() as int, p2.len() as int + 8) =~= ecnt);
    let p3 = p2 + ecnt;
    assert(data =~= p3 + ecs + (ek + eg + rest));
    lemma_cells_roundtrip(p3, rv.output_cells, 0, ek + eg + rest, fuel);
    assert(rv.output_cells.skip(0) =~= rv.output_cells);
}

/// Law: a run record decodes back from its own encoding, with the
/// kernel state narrowed to its persisted form and the queue empty: a
/// saved and reloaded run is the run it was, so narrowed.
#[verifier::rlimit(100)]
#[verifier::spinoff_prover]
pub proof fn lemma_run_roundtrip(
    prefix: Seq<u8>,
    id: u128,
    rv: crate::notebook::RunView,
    rest: Seq<u8>,
    fuel: nat,
)
    requires
        run_bounded(rv),
        fuel >= g_count(rv.globals),
        forall|j: int|
            0 <= j < rv.output_cells.len() ==> fuel >= eg_count(
                (#[trigger] rv.output_cells[j]).editor_node,
            ),
    ensures
        dec_run(prefix + enc_run(id, rv) + rest, prefix.len() as int, fuel) == Option::Some(
            (
                (
                    id,
                    crate::notebook::RunView {
                        kernel: narrow_kernel(rv.kernel),
                        queue: 0,
                        ..rv
                    },
                ),
                prefix.len() as int + enc_run(id, rv).len() as int,
            ),
        ),
{
    vstd::bytes::lemma_auto_spec_u128_to_from_le_bytes();
    vstd::bytes::lemma_auto_spec_u64_to_from_le_bytes();
    lemma_run_head(prefix, id, rv, rest, fuel);
    let data = prefix + enc_run(id, rv) + rest;
    let eid = spec_u128_to_le_bytes(id);
    let ecr = enc_i128(rv.created);
    let eti = enc_string(rv.title);
    let ecnt = spec_u64_to_le_bytes(rv.output_cells.len() as u64);
    let ecs = enc_cells_from(rv.output_cells, 0);
    let ek = enc_kstate(rv.kernel);
    let eg = enc_globals(rv.globals);
    let p4 = prefix + eid + ecr + eti + ecnt + ecs;
    assert(data =~= p4 + ek + (eg + rest));
    lemma_kstate_roundtrip(p4, rv.kernel, eg + rest);
    let p5 = p4 + ek;
    assert(data =~= p5 + eg + rest);
    lemma_globals_roundtrip(p5, rv.globals, rest, fuel);
}

/// Law: a stored timestamp decodes back.
proof fn lemma_i128_roundtrip(prefix: Seq<u8>, c: int, rest: Seq<u8>)
    requires
        i128::MIN <= c <= i128::MAX,
    ensures
        dec_i128(prefix + enc_i128(c) + rest, prefix.len() as int) == Option::Some(
            (c, prefix.len() as int + 17),
        ),
{
    vstd::bytes::lemma_auto_spec_u128_to_from_le_bytes();
    let data = prefix + enc_i128(c) + rest;
    if c >= 0 {
        assert(data[prefix.len() as int] == 0u8);
        assert(data.subrange(prefix.len() as int + 1, prefix.len() as int + 17)
            =~= spec_u128_to_le_bytes(c as u128));
        assert((c as u128) <= i128::MAX as u128);
        assert((c as u128) as int == c);
    } else {
        assert(data[prefix.len() as int] == 1u8);
        assert(data.subrange(prefix.len() as int + 1, prefix.len() as int + 17)
            =~= spec_u128_to_le_bytes((-(c + 1)) as u128));
        assert(((-(c + 1)) as u128) <= i128::MAX as u128);
        assert(((-(c + 1)) as u128) as int == -(c + 1));
    }
}

/// Law: the notebook file decodes back to the editor tree it was made
/// from: the version matches and the tree round-trips. Together with
/// `lemma_run_roundtrip`, a saved notebook loads back with its editor
/// tree identical and each run identical up to the persisted narrowing.
pub proof fn lemma_notebook_file_roundtrip(root: EditorGroupView, rest: Seq<u8>, fuel: nat)
    requires
        eg_bounded(root),
        fuel >= eg_count(root),
    ensures
        dec_notebook_file(enc_notebook_file(root) + rest, fuel) == Option::Some(root),
{
    reveal_strlit("twinsong 0.0.1");
    crate::wire::lemma_enc_chars_len("twinsong 0.0.1"@, "twinsong 0.0.1"@.len() as int);
    vstd::bytes::lemma_auto_spec_u64_to_from_le_bytes();
    let data = enc_notebook_file(root) + rest;
    let ev = enc_string("twinsong 0.0.1"@);
    assert(data =~= Seq::<u8>::empty() + ev + (enc_editor_group(root) + rest));
    lemma_string_roundtrip(Seq::empty(), "twinsong 0.0.1"@, enc_editor_group(root) + rest);
    crate::wire::lemma_enc_chars_len("twinsong 0.0.1"@, "twinsong 0.0.1"@.len() as int);
    let p1 = Seq::<u8>::empty() + ev;
    assert(data =~= p1 + enc_editor_group(root) + rest);
    lemma_egroup_roundtrip(p1, root, rest, fuel);
}


/// Law: a load shows a save's runs in their original order. The loaded
/// sequence is a sorted permutation of the saved one; when the saved
/// runs were created at strictly increasing times, the only such
/// permutation is the saved order itself.
pub proof fn lemma_sorted_runs_unique(
    s1: Seq<(u128, crate::notebook::RunView)>,
    s2: Seq<(u128, crate::notebook::RunView)>,
)
    requires
        s1.to_multiset() == s2.to_multiset(),
        forall|i: int, j: int|
            0 <= i < j < s1.len() ==> (#[trigger] s1[i]).1.created < (#[trigger] s1[j]).1.created,
        forall|i: int, j: int|
            0 <= i < j < s2.len() ==> (#[trigger] s2[i]).1.created <= (
            #[trigger] s2[j]).1.created,
    ensures
        s1 == s2,
    decreases s1.len(),
{
    s1.to_multiset_ensures();
    s2.to_multiset_ensures();
    assert(s1.len() == s2.len());
    if s1.len() == 0 {
        assert(s1 =~= s2);
    } else {
        let head = s1[0];
        assert(s1.contains(head));
        assert(s2.to_multiset().count(head) > 0);
        assert(s2.contains(head));
        let k = choose|k: int| 0 <= k < s2.len() && s2[k] == head;
        assert(s2.contains(s2[0]));
        assert(s1.to_multiset().count(s2[0]) > 0);
        assert(s1.contains(s2[0]));
        let m = choose|m: int| 0 <= m < s1.len() && s1[m] == s2[0];
        assert(s2[0].1.created <= s2[k].1.created);
        assert(s1[m].1.created >= s1[0].1.created);
        if m != 0 {
            assert(s1[0].1.created < s1[m].1.created);
            assert(s2[0].1.created < head.1.created);
            assert(false);
        }
        assert(s2[0] == head);
        assert(s1.remove(0) =~= s1.drop_first());
        assert(s2.remove(0) =~= s2.drop_first());
        assert(s1.drop_first().to_multiset() == s1.to_multiset().remove(head));
        assert(s2.drop_first().to_multiset() == s2.to_multiset().remove(head));
        assert forall|i: int, j: int|
            0 <= i < j < s1.drop_first().len() implies (#[trigger] s1.drop_first()[i]).1.created
            < (#[trigger] s1.drop_first()[j]).1.created by {
            assert(s1.drop_first()[i] == s1[i + 1]);
            assert(s1.drop_first()[j] == s1[j + 1]);
        }
        assert forall|i: int, j: int|
            0 <= i < j < s2.drop_first().len() implies (#[trigger] s2.drop_first()[i]).1.created
            <= (#[trigger] s2.drop_first()[j]).1.created by {
            assert(s2.drop_first()[i] == s2[i + 1]);
            assert(s2.drop_first()[j] == s2[j + 1]);
        }
        lemma_sorted_runs_unique(s1.drop_first(), s2.drop_first());
        assert forall|i: int| 0 <= i < s1.len() implies s1[i] == s2[i] by {
            if i > 0 {
                assert(s1.drop_first()[i - 1] == s2.drop_first()[i - 1]);
            }
        }
        assert(s1 =~= s2);
    }
}

} // verus!
