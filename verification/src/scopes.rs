//! Scoped globals and the diff engine.
//!
//! A run's global namespace is a tree of named scopes. Each scope maps
//! variable names to opaque serialized snapshots (compared only by
//! content) and child scopes keyed by [`ScopeId`]. The kernel sends
//! structural diffs ([`SerializedGlobalsUpdate`]) against its previous
//! snapshot; the server applies them with [`SerializedGlobalsUpdate::apply`]
//! to reconstruct the authoritative view.
//!
//! Variable and child entries are kept as association vectors with
//! distinct keys, in insertion order.

use vstd::prelude::*;

use crate::errors::CoreError;
use crate::ids::ScopeId;

verus! {

broadcast use vstd::seq::group_seq_axioms, vstd::std_specs::vec::group_vec_axioms;

/// One scope tree of serialized globals.
pub struct SerializedGlobals {
    /// Scope name.
    pub name: String,
    /// Variable name, serialized snapshot of its value.
    pub variables: Vec<(String, String)>,
    /// Child scopes, keyed by scope id.
    pub children: Vec<(ScopeId, SerializedGlobals)>,
}

/// A diff against a previous [`SerializedGlobals`]. A variable entry of
/// `None` is the "unchanged" sentinel: the value is carried forward from
/// the previous snapshot. Scopes and variables absent from the update are
/// dropped.
pub struct SerializedGlobalsUpdate {
    /// Scope name.
    pub name: String,
    /// Variable name, fresh snapshot or the unchanged sentinel.
    pub variables: Vec<(String, Option<String>)>,
    /// Child scope updates, keyed by scope id.
    pub children: Vec<(ScopeId, SerializedGlobalsUpdate)>,
}

/// Mathematical model of a scope tree.
#[verifier::ext_equal]
pub struct GlobalsView {
    pub name: Seq<char>,
    pub variables: Seq<(Seq<char>, Seq<char>)>,
    pub children: Seq<(u128, GlobalsView)>,
}

/// Mathematical model of an update.
#[verifier::ext_equal]
pub struct GlobalsUpdateView {
    pub name: Seq<char>,
    pub variables: Seq<(Seq<char>, Option<Seq<char>>)>,
    pub children: Seq<(u128, GlobalsUpdateView)>,
}

/// The empty scope view; also the placeholder out of a sequence's range.
pub open spec fn empty_globals_view() -> GlobalsView {
    GlobalsView { name: Seq::empty(), variables: Seq::empty(), children: Seq::empty() }
}

/// View of a variable vector: name, snapshot pairs.
pub open spec fn vars_view(vs: Vec<(String, String)>) -> Seq<(Seq<char>, Seq<char>)> {
    Seq::new(vs@.len(), |i: int| (vs@[i].0@, vs@[i].1@))
}

/// View of a child-scope vector.
pub open spec fn children_view(ch: Vec<(ScopeId, SerializedGlobals)>) -> Seq<(u128, GlobalsView)>
    decreases ch,
{
    Seq::new(
        ch@.len(),
        |i: int|
            if 0 <= i < ch@.len() {
                (ch@[i].0.id, globals_view(ch@[i].1))
            } else {
                (0u128, empty_globals_view())
            },
    )
}

pub open spec fn globals_view(g: SerializedGlobals) -> GlobalsView
    decreases g,
{
    GlobalsView { name: g.name@, variables: vars_view(g.variables), children: children_view(g.children) }
}

/// View of an update's variable vector.
pub open spec fn uvars_view(vs: Vec<(String, Option<String>)>) -> Seq<
    (Seq<char>, Option<Seq<char>>),
> {
    Seq::new(
        vs@.len(),
        |i: int|
            (
                vs@[i].0@,
                match vs@[i].1 {
                    Option::Some(v) => Option::Some(v@),
                    Option::None => Option::None,
                },
            ),
    )
}

/// View of an update's child-scope vector.
pub open spec fn uchildren_view(ch: Vec<(ScopeId, SerializedGlobalsUpdate)>) -> Seq<
    (u128, GlobalsUpdateView),
>
    decreases ch,
{
    Seq::new(
        ch@.len(),
        |i: int|
            if 0 <= i < ch@.len() {
                (ch@[i].0.id, update_view(ch@[i].1))
            } else {
                (0u128, empty_update_view())
            },
    )
}

pub open spec fn update_view(u: SerializedGlobalsUpdate) -> GlobalsUpdateView
    decreases u,
{
    GlobalsUpdateView {
        name: u.name@,
        variables: uvars_view(u.variables),
        children: uchildren_view(u.children),
    }
}

/// The empty update view; also the placeholder out of a sequence's range.
pub open spec fn empty_update_view() -> GlobalsUpdateView {
    GlobalsUpdateView { name: Seq::empty(), variables: Seq::empty(), children: Seq::empty() }
}

impl View for SerializedGlobals {
    type V = GlobalsView;

    open spec fn view(&self) -> GlobalsView {
        globals_view(*self)
    }
}

impl View for SerializedGlobalsUpdate {
    type V = GlobalsUpdateView;

    open spec fn view(&self) -> GlobalsUpdateView {
        update_view(*self)
    }
}

/// No key occurs twice.
pub open spec fn keys_distinct<K, V>(s: Seq<(K, V)>) -> bool {
    forall|i: int, j: int| 0 <= i < j < s.len() ==> s[i].0 != s[j].0
}

/// Well-formedness of a scope tree: keys are distinct at every level.
pub open spec fn globals_wf(g: GlobalsView) -> bool
    decreases g,
{
    &&& keys_distinct(g.variables)
    &&& keys_distinct(g.children)
    &&& forall|i: int| 0 <= i < g.children.len() ==> globals_wf(#[trigger] g.children[i].1)
}

/// Well-formedness of an update: keys are distinct at every level.
pub open spec fn update_wf(u: GlobalsUpdateView) -> bool
    decreases u,
{
    &&& keys_distinct(u.variables)
    &&& keys_distinct(u.children)
    &&& forall|i: int| 0 <= i < u.children.len() ==> update_wf(#[trigger] u.children[i].1)
}

/// First value bound to `key` at or after index `i`.
pub open spec fn assoc_find<K, V>(s: Seq<(K, V)>, key: K, i: int) -> Option<V>
    decreases s.len() - i,
{
    if i < 0 || i >= s.len() {
        Option::None
    } else if s[i].0 == key {
        Option::Some(s[i].1)
    } else {
        assoc_find(s, key, i + 1)
    }
}

/// First value bound to `key`, if any.
pub open spec fn assoc_get<K, V>(s: Seq<(K, V)>, key: K) -> Option<V> {
    assoc_find(s, key, 0)
}

/// The variables of an optional previous snapshot; none means no scope.
pub open spec fn prev_vars(prev: Option<GlobalsView>) -> Seq<(Seq<char>, Seq<char>)> {
    match prev {
        Option::Some(p) => p.variables,
        Option::None => Seq::empty(),
    }
}

/// The previous child scope for `id`, if the previous snapshot has one.
pub open spec fn child_prev(prev: Option<GlobalsView>, id: u128) -> Option<GlobalsView> {
    match prev {
        Option::Some(p) => assoc_get(p.children, id),
        Option::None => Option::None,
    }
}

/// Resolve one update entry against the previous variables: a fresh value
/// is adopted; the unchanged sentinel lifts the previous value, which must
/// exist.
pub open spec fn resolve_entry(
    e: (Seq<char>, Option<Seq<char>>),
    pv: Seq<(Seq<char>, Seq<char>)>,
) -> Option<(Seq<char>, Seq<char>)> {
    match e.1 {
        Option::Some(v) => Option::Some((e.0, v)),
        Option::None => match assoc_get(pv, e.0) {
            Option::Some(v) => Option::Some((e.0, v)),
            Option::None => Option::None,
        },
    }
}

/// Every entry of the update's variable list resolves.
pub open spec fn vars_ok(
    uv: Seq<(Seq<char>, Option<Seq<char>>)>,
    pv: Seq<(Seq<char>, Seq<char>)>,
) -> bool {
    forall|i: int| 0 <= i < uv.len() ==> resolve_entry(#[trigger] uv[i], pv) is Some
}

/// The resolved variable list; meaningful when `vars_ok` holds.
pub open spec fn apply_vars(
    uv: Seq<(Seq<char>, Option<Seq<char>>)>,
    pv: Seq<(Seq<char>, Seq<char>)>,
) -> Seq<(Seq<char>, Seq<char>)> {
    Seq::new(uv.len(), |i: int| resolve_entry(uv[i], pv).unwrap())
}

/// An update applies to a previous snapshot when every unchanged sentinel
/// in it, at every level, finds its value there. This is the precise form
/// of "the update's scope tree lies within the previous state".
pub open spec fn apply_ok(u: GlobalsUpdateView, prev: Option<GlobalsView>) -> bool
    decreases u,
{
    &&& vars_ok(u.variables, prev_vars(prev))
    &&& forall|i: int|
        0 <= i < u.children.len() ==> apply_ok(
            (#[trigger] u.children[i]).1,
            child_prev(prev, u.children[i].0),
        )
}

/// The scope tree after applying `u` to `prev`; meaningful when
/// `apply_ok(u, prev)` holds. Scopes of `prev` not mentioned in `u` are
/// dropped; scopes new in `u` are created.
pub open spec fn apply_view(u: GlobalsUpdateView, prev: Option<GlobalsView>) -> GlobalsView
    decreases u,
{
    GlobalsView {
        name: u.name,
        variables: apply_vars(u.variables, prev_vars(prev)),
        children: Seq::new(
            u.children.len(),
            |i: int|
                if 0 <= i < u.children.len() {
                    (u.children[i].0, apply_view(u.children[i].1, child_prev(prev, u.children[i].0)))
                } else {
                    (0u128, empty_globals_view())
                },
        ),
    }
}

/// The update entry for one current variable: the unchanged sentinel
/// exactly when the previous snapshot binds the same name to the same
/// bytes.
pub open spec fn diff_entry(
    e: (Seq<char>, Seq<char>),
    pv: Seq<(Seq<char>, Seq<char>)>,
) -> (Seq<char>, Option<Seq<char>>) {
    if assoc_get(pv, e.0) == Option::Some(e.1) {
        (e.0, Option::None)
    } else {
        (e.0, Option::Some(e.1))
    }
}

/// The variable list of the diff of `cv` against `pv`.
pub open spec fn diff_vars(
    cv: Seq<(Seq<char>, Seq<char>)>,
    pv: Seq<(Seq<char>, Seq<char>)>,
) -> Seq<(Seq<char>, Option<Seq<char>>)> {
    Seq::new(cv.len(), |i: int| diff_entry(cv[i], pv))
}

/// The structural diff of `c` against an optional previous snapshot:
/// entry for every current variable and scope, recursing into children
/// that the previous snapshot may or may not share.
pub open spec fn diff_view(c: GlobalsView, prev: Option<GlobalsView>) -> GlobalsUpdateView
    decreases c,
{
    GlobalsUpdateView {
        name: c.name,
        variables: diff_vars(c.variables, prev_vars(prev)),
        children: Seq::new(
            c.children.len(),
            |i: int|
                if 0 <= i < c.children.len() {
                    (c.children[i].0, diff_view(c.children[i].1, child_prev(prev, c.children[i].0)))
                } else {
                    (0u128, empty_update_view())
                },
        ),
    }
}

/// Law: the diff of any current tree against any previous snapshot
/// applies to that snapshot, and applying it reconstructs the current
/// tree exactly.
pub proof fn lemma_apply_diff_roundtrip(c: GlobalsView, prev: Option<GlobalsView>)
    ensures
        apply_ok(diff_view(c, prev), prev),
        apply_view(diff_view(c, prev), prev) == c,
    decreases c,
{
    let d = diff_view(c, prev);
    let pv = prev_vars(prev);
    assert forall|i: int| 0 <= i < d.variables.len() implies resolve_entry(
        #[trigger] d.variables[i],
        pv,
    ) is Some by {
        assert(d.variables[i] == diff_entry(c.variables[i], pv));
    }
    assert forall|i: int| 0 <= i < d.children.len() implies apply_ok(
        (#[trigger] d.children[i]).1,
        child_prev(prev, d.children[i].0),
    ) by {
        lemma_apply_diff_roundtrip(c.children[i].1, child_prev(prev, c.children[i].0));
    }
    let a = apply_view(d, prev);
    assert forall|i: int| 0 <= i < c.variables.len() implies a.variables[i] == c.variables[i] by {
        assert(d.variables[i] == diff_entry(c.variables[i], pv));
    }
    assert(a.variables =~= c.variables);
    assert forall|i: int| 0 <= i < c.children.len() implies a.children[i] == c.children[i] by {
        lemma_apply_diff_roundtrip(c.children[i].1, child_prev(prev, c.children[i].0));
    }
    assert(a.children =~= c.children);
    assert(a =~= c);
}

/// View of an optional previous snapshot.
pub open spec fn opt_view(prev: Option<&SerializedGlobals>) -> Option<GlobalsView> {
    match prev {
        Option::Some(g) => Option::Some(globals_view(*g)),
        Option::None => Option::None,
    }
}

/// First variable entry named `name`, if any.
fn lookup_var<'a>(vars: &'a Vec<(String, String)>, name: &String) -> (r: Option<&'a String>)
    ensures
        match r {
            Option::Some(v) => assoc_get(vars_view(*vars), name@) == Option::Some(v@),
            Option::None => assoc_get(vars_view(*vars), name@) is None,
        },
{
    let s = Ghost(vars_view(*vars));
    let mut i: usize = 0;
    while i < vars.len()
        invariant
            i <= vars.len(),
            s@ == vars_view(*vars),
            s@.len() == vars.len(),
            assoc_get(s@, name@) == assoc_find(s@, name@, i as int),
        decreases vars.len() - i,
    {
        if vars[i].0 == *name {
            return Some(&vars[i].1);
        }
        i += 1;
    }
    None
}

/// The previous value for `name`, if the previous snapshot binds one.
fn lookup_prev<'a>(prev: Option<&'a SerializedGlobals>, name: &String) -> (r: Option<&'a String>)
    ensures
        match r {
            Option::Some(v) => assoc_get(prev_vars(opt_view(prev)), name@) == Option::Some(v@),
            Option::None => assoc_get(prev_vars(opt_view(prev)), name@) is None,
        },
{
    match prev {
        Some(g) => lookup_var(&g.variables, name),
        None => None,
    }
}

/// Whether the previous snapshot binds `name` to exactly `value`.
fn unchanged_in(prev: Option<&SerializedGlobals>, name: &String, value: &String) -> (r: bool)
    ensures
        r == (assoc_get(prev_vars(opt_view(prev)), name@) == Option::Some(value@)),
{
    match lookup_prev(prev, name) {
        Some(v) => *v == *value,
        None => false,
    }
}

/// The previous child scope for `id`, if the previous snapshot has one.
fn lookup_prev_child<'a>(prev: Option<&'a SerializedGlobals>, id: ScopeId) -> (r: Option<
    &'a SerializedGlobals,
>)
    ensures
        opt_view(r) == child_prev(opt_view(prev), id.id),
{
    match prev {
        Some(g) => lookup_child(&g.children, id),
        None => None,
    }
}

/// First child scope keyed by `id`, if any.
fn lookup_child<'a>(children: &'a Vec<(ScopeId, SerializedGlobals)>, id: ScopeId) -> (r: Option<
    &'a SerializedGlobals,
>)
    ensures
        match r {
            Option::Some(g) => assoc_get(children_view(*children), id.id) == Option::Some(
                globals_view(*g),
            ),
            Option::None => assoc_get(children_view(*children), id.id) is None,
        },
{
    let s = Ghost(children_view(*children));
    let mut i: usize = 0;
    while i < children.len()
        invariant
            i <= children.len(),
            s@ == children_view(*children),
            s@.len() == children.len(),
            assoc_get(s@, id.id) == assoc_find(s@, id.id, i as int),
        decreases children.len() - i,
    {
        if children[i].0 == id {
            return Some(&children[i].1);
        }
        i += 1;
    }
    None
}

impl SerializedGlobals {
    /// A scope tree from its parts.
    pub fn new(
        name: String,
        variables: Vec<(String, String)>,
        children: Vec<(ScopeId, SerializedGlobals)>,
    ) -> (r: Self)
        ensures
            r@ == (GlobalsView {
                name: name@,
                variables: vars_view(variables),
                children: children_view(children),
            }),
    {
        let r = SerializedGlobals { name, variables, children };
        proof {
            assert(r@ =~= (GlobalsView {
                name: r.name@,
                variables: vars_view(r.variables),
                children: children_view(r.children),
            }));
        }
        r
    }

    /// The structural diff of `self` against an optional previous
    /// snapshot, as the kernel produces it after an execution: a variable
    /// entry is the unchanged sentinel exactly when the previous snapshot
    /// binds the same name to the same bytes; children recurse; entries
    /// only present in the previous snapshot are omitted.
    pub fn create_update(&self, old_globals: Option<&SerializedGlobals>) -> (r:
        SerializedGlobalsUpdate)
        ensures
            r@ == diff_view(self@, opt_view(old_globals)),
        decreases *self,
    {
        let ghost prev = opt_view(old_globals);
        let ghost pv = prev_vars(prev);
        let ghost d = diff_view(self@, prev);
        let mut variables: Vec<(String, Option<String>)> = Vec::new();
        let mut i: usize = 0;
        while i < self.variables.len()
            invariant
                i <= self.variables.len(),
                prev == opt_view(old_globals),
                pv == prev_vars(prev),
                variables@.len() == i,
                forall|j: int|
                    0 <= j < i ==> uvars_view(variables)[j] == diff_entry(
                        #[trigger] vars_view(self.variables)[j],
                        pv,
                    ),
            decreases self.variables.len() - i,
        {
            let ghost vi = i as int;
            let name = &self.variables[i].0;
            let value = &self.variables[i].1;
            let unchanged = unchanged_in(old_globals, name, value);
            if unchanged {
                variables.push((name.clone(), None));
            } else {
                variables.push((name.clone(), Some(value.clone())));
            }
            proof {
                assert(vars_view(self.variables)[vi] == (name@, value@));
                assert(uvars_view(variables)[vi] == diff_entry(
                    vars_view(self.variables)[vi],
                    pv,
                ));
            }
            i += 1;
        }
        let mut children: Vec<(ScopeId, SerializedGlobalsUpdate)> = Vec::new();
        let mut i: usize = 0;
        while i < self.children.len()
            invariant
                i <= self.children.len(),
                prev == opt_view(old_globals),
                children@.len() == i,
                forall|j: int|
                    0 <= j < i ==> uchildren_view(children)[j] == (
                        (#[trigger] children_view(self.children)[j]).0,
                        diff_view(
                            children_view(self.children)[j].1,
                            child_prev(prev, children_view(self.children)[j].0),
                        ),
                    ),
            decreases self.children.len() - i,
        {
            let ghost vi = i as int;
            let id = self.children[i].0;
            let prev_child = lookup_prev_child(old_globals, id);
            let cu = self.children[i].1.create_update(prev_child);
            children.push((id, cu));
            proof {
                assert(children_view(self.children)[vi] == (
                    id.id,
                    globals_view(self.children@[vi].1),
                ));
                assert(uchildren_view(children)[vi] == (
                    children_view(self.children)[vi].0,
                    diff_view(
                        children_view(self.children)[vi].1,
                        child_prev(prev, children_view(self.children)[vi].0),
                    ),
                ));
            }
            i += 1;
        }
        let r = SerializedGlobalsUpdate { name: self.name.clone(), variables, children };
        proof {
            assert(self@.variables == vars_view(self.variables));
            assert(self@.children == children_view(self.children));
            assert forall|j: int| 0 <= j < r@.variables.len() implies r@.variables[j]
                == d.variables[j] by {
                assert(uvars_view(variables)[j] == diff_entry(vars_view(self.variables)[j], pv));
            }
            assert(r@.variables =~= d.variables);
            assert forall|j: int| 0 <= j < r@.children.len() implies r@.children[j]
                == d.children[j] by {
                assert(uchildren_view(children)[j] == (
                    children_view(self.children)[j].0,
                    diff_view(
                        children_view(self.children)[j].1,
                        child_prev(prev, children_view(self.children)[j].0),
                    ),
                ));
            }
            assert(r@.children =~= d.children);
            assert(r@ =~= d);
        }
        r
    }
}

impl SerializedGlobalsUpdate {
    /// Apply this update to an optional previous snapshot, producing the
    /// next snapshot: fresh values are adopted, unchanged sentinels lift
    /// the previous value, previous entries not mentioned are dropped.
    /// Fails exactly when some sentinel finds no previous value.
    pub fn apply(&self, prev: Option<&SerializedGlobals>) -> (r: Result<
        SerializedGlobals,
        CoreError,
    >)
        ensures
            r is Ok <==> apply_ok(self@, opt_view(prev)),
            r is Ok ==> globals_view(r->Ok_0) == apply_view(self@, opt_view(prev)),
            r is Err ==> r->Err_0 == CoreError::IllFormedUpdate,
        decreases *self,
    {
        let ghost prevv = opt_view(prev);
        let ghost pv = prev_vars(prevv);
        let ghost a = apply_view(self@, prevv);
        let mut variables: Vec<(String, String)> = Vec::new();
        let mut i: usize = 0;
        while i < self.variables.len()
            invariant
                i <= self.variables.len(),
                prevv == opt_view(prev),
                pv == prev_vars(prevv),
                variables@.len() == i,
                forall|j: int|
                    0 <= j < i ==> resolve_entry(#[trigger] uvars_view(self.variables)[j], pv)
                        is Some,
                forall|j: int|
                    0 <= j < i ==> vars_view(variables)[j] == resolve_entry(
                        #[trigger] uvars_view(self.variables)[j],
                        pv,
                    ).unwrap(),
            decreases self.variables.len() - i,
        {
            let ghost vi = i as int;
            let ghost e = uvars_view(self.variables)[vi];
            let name = &self.variables[i].0;
            match &self.variables[i].1 {
                Some(v) => {
                    variables.push((name.clone(), v.clone()));
                    proof {
                        assert(e == (name@, Option::Some(v@)));
                        assert(resolve_entry(e, pv) == Option::Some((name@, v@)));
                        assert(vars_view(variables)[vi] == resolve_entry(e, pv).unwrap());
                    }
                },
                None => {
                    match lookup_prev(prev, name) {
                        Some(v) => {
                            variables.push((name.clone(), v.clone()));
                            proof {
                                assert(e == (name@, Option::<Seq<char>>::None));
                                assert(resolve_entry(e, pv) == Option::Some((name@, v@)));
                                assert(vars_view(variables)[vi] == resolve_entry(e, pv).unwrap());
                            }
                        },
                        None => {
                            proof {
                                assert(e == (name@, Option::<Seq<char>>::None));
                                assert(resolve_entry(e, pv) is None);
                                assert(!vars_ok(uvars_view(self.variables), pv));
                                assert(self@.variables == uvars_view(self.variables));
                                assert(!apply_ok(self@, prevv));
                            }
                            return Err(CoreError::IllFormedUpdate);
                        },
                    }
                },
            }
            i += 1;
        }
        let mut children: Vec<(ScopeId, SerializedGlobals)> = Vec::new();
        let mut i: usize = 0;
        while i < self.children.len()
            invariant
                i <= self.children.len(),
                prevv == opt_view(prev),
                vars_ok(uvars_view(self.variables), pv),
                pv == prev_vars(prevv),
                variables@.len() == self.variables@.len(),
                forall|j: int|
                    0 <= j < variables@.len() ==> vars_view(variables)[j] == resolve_entry(
                        #[trigger] uvars_view(self.variables)[j],
                        pv,
                    ).unwrap(),
                children@.len() == i,
                forall|j: int|
                    0 <= j < i ==> apply_ok(
                        (#[trigger] uchildren_view(self.children)[j]).1,
                        child_prev(prevv, uchildren_view(self.children)[j].0),
                    ),
                forall|j: int|
                    0 <= j < i ==> children_view(children)[j] == (
                        (#[trigger] uchildren_view(self.children)[j]).0,
                        apply_view(
                            uchildren_view(self.children)[j].1,
                            child_prev(prevv, uchildren_view(self.children)[j].0),
                        ),
                    ),
            decreases self.children.len() - i,
        {
            let ghost vi = i as int;
            let id = self.children[i].0;
            let prev_child = lookup_prev_child(prev, id);
            proof {
                assert(uchildren_view(self.children)[vi] == (
                    id.id,
                    update_view(self.children@[vi].1),
                ));
            }
            match self.children[i].1.apply(prev_child) {
                Ok(g) => {
                    children.push((id, g));
                    proof {
                        assert(children_view(children)[vi] == (id.id, globals_view(g)));
                    }
                },
                Err(e) => {
                    proof {
                        assert(!apply_ok(
                            uchildren_view(self.children)[vi].1,
                            child_prev(prevv, uchildren_view(self.children)[vi].0),
                        ));
                        assert(self@.children == uchildren_view(self.children));
                        assert(!apply_ok(self@, prevv));
                    }
                    return Err(e);
                },
            }
            i += 1;
        }
        let r = SerializedGlobals { name: self.name.clone(), variables, children };
        proof {
            assert(self@.variables == uvars_view(self.variables));
            assert(self@.children == uchildren_view(self.children));
            assert(apply_ok(self@, prevv));
            assert forall|j: int| 0 <= j < globals_view(r).variables.len() implies globals_view(
                r,
            ).variables[j] == a.variables[j] by {
                assert(vars_view(variables)[j] == resolve_entry(
                    uvars_view(self.variables)[j],
                    pv,
                ).unwrap());
            }
            assert(globals_view(r).variables =~= a.variables);
            assert forall|j: int| 0 <= j < globals_view(r).children.len() implies globals_view(
                r,
            ).children[j] == a.children[j] by {
                assert(children_view(children)[j] == (
                    uchildren_view(self.children)[j].0,
                    apply_view(
                        uchildren_view(self.children)[j].1,
                        child_prev(prevv, uchildren_view(self.children)[j].0),
                    ),
                ));
            }
            assert(globals_view(r).children =~= a.children);
            assert(globals_view(r) =~= a);
        }
        Ok(r)
    }
}

impl SerializedGlobals {
    /// A deep copy with the same model.
    pub fn duplicate(&self) -> (r: SerializedGlobals)
        ensures
            r@ == self@,
        decreases *self,
    {
        let mut variables: Vec<(String, String)> = Vec::new();
        let mut i: usize = 0;
        while i < self.variables.len()
            invariant
                i <= self.variables.len(),
                variables@.len() == i,
                forall|j: int|
                    0 <= j < i ==> (#[trigger] variables@[j]).0@ == self.variables@[j].0@
                        && variables@[j].1@ == self.variables@[j].1@,
            decreases self.variables.len() - i,
        {
            variables.push((self.variables[i].0.clone(), self.variables[i].1.clone()));
            i += 1;
        }
        let mut children: Vec<(ScopeId, SerializedGlobals)> = Vec::new();
        let mut i: usize = 0;
        while i < self.children.len()
            invariant
                i <= self.children.len(),
                children@.len() == i,
                forall|j: int|
                    0 <= j < i ==> (#[trigger] children@[j]).0 == self.children@[j].0
                        && globals_view(children@[j].1) == globals_view(self.children@[j].1),
            decreases self.children.len() - i,
        {
            let child = self.children[i].1.duplicate();
            children.push((self.children[i].0, child));
            i += 1;
        }
        let r = SerializedGlobals { name: self.name.clone(), variables, children };
        proof {
            assert forall|j: int| 0 <= j < r@.variables.len() implies r@.variables[j]
                == self@.variables[j] by {
                assert(vars_view(variables)[j] == (variables@[j].0@, variables@[j].1@));
                assert(vars_view(self.variables)[j] == (
                    self.variables@[j].0@,
                    self.variables@[j].1@,
                ));
            }
            assert(r@.variables =~= self@.variables);
            assert forall|j: int| 0 <= j < r@.children.len() implies r@.children[j]
                == self@.children[j] by {
                assert(children_view(children)[j] == (children@[j].0.id, globals_view(
                    children@[j].1,
                )));
                assert(children_view(self.children)[j] == (self.children@[j].0.id, globals_view(
                    self.children@[j].1,
                )));
            }
            assert(r@.children =~= self@.children);
            assert(r@ =~= self@);
        }
        r
    }
}

impl Default for SerializedGlobals {
    /// The empty scope tree.
    fn default() -> (r: Self)
        ensures
            r@ == empty_globals_view(),
    {
        let r = SerializedGlobals { name: String::new(), variables: Vec::new(), children: Vec::new() };
        proof {
            assert(r@.name =~= empty_globals_view().name);
            assert(r@.variables =~= empty_globals_view().variables);
            assert(r@.children =~= empty_globals_view().children);
            assert(r@ =~= empty_globals_view());
        }
        r
    }
}

} // verus!
