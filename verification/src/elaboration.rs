//! Module elaboration: instances are expanded into one flat statement list.
//! Names are prefixed with the instance path, parameter formulas are bound to
//! their instance, and overrides replace parameter defaults.
use crate::ast::{
    dup_decl, dup_externals, dup_includes, dup_model_decls, dup_param, dup_pins, dup_statement,
    dup_statements, dup_subcircuits, dup_texts, expr_view, external_views, include_views,
    model_decl_views, opt_expr_view, param_view, pin_views, stmt_view, stmt_views, subcircuit_views,
    ComponentDecl, ComponentType, Connection, ExprView, ModuleDef, NetDecl, PinRef, Program, Statement,
    StmtView,
};
use crate::erc::{join, join_text};
use crate::expression::{
    lookup_unit, qualify_tree, tree_size, unit_views, validate_units_spec, MAX_EXPRESSION_WORK,
    MAX_PARAMETERS,
};
use crate::ir::{views, SIUnit};
use crate::models::{debug_list, debug_list_spec, same_text_lists};
use crate::text::{append_str, nat_text, owned, text_is, usize_text};
use vstd::prelude::*;

verus! {

/// The most statements that an expansion may produce.
pub const MAX_EXPANDED_STATEMENTS: usize = 100000;

/// The deepest module nesting.
pub const MAX_NESTING: usize = 64;

// ---------------------------------------------------------------------------
// Scopes.

/// Instance path, parameter units, interface ports and local nets of a scope.
pub type ScopeView = (Seq<Seq<char>>, Seq<(Seq<char>, SIUnit)>, Seq<Seq<char>>, Seq<Seq<char>>);

/// Prefix of electrical names: the path joined by `_`, then `_`.
pub open spec fn name_prefix(path: Seq<Seq<char>>) -> Seq<char> {
    if path.len() == 0 {
        seq![]
    } else {
        join(path, "_"@) + "_"@
    }
}

/// Prefix of parameter names: the path joined by `.`, then `.`.
pub open spec fn parameter_prefix(path: Seq<Seq<char>>) -> Seq<char> {
    if path.len() == 0 {
        seq![]
    } else {
        join(path, "."@) + "."@
    }
}

/// How messages name an instance.
pub open spec fn scope_label(path: Seq<Seq<char>>) -> Seq<char> {
    if path.len() == 0 {
        "root"@
    } else {
        join(path, "."@)
    }
}

/// Parameter names and units, in declaration order.
pub open spec fn declarations(stmts: Seq<StmtView>) -> Seq<(Seq<char>, SIUnit)>
    decreases stmts.len(),
{
    if stmts.len() == 0 {
        seq![]
    } else {
        declarations(stmts.drop_last()) + match stmts.last() {
            StmtView::Param(p) => seq![(p.0, p.1)],
            _ => seq![],
        }
    }
}

/// Net names declared by the statements, in order.
pub open spec fn local_nets(stmts: Seq<StmtView>) -> Seq<Seq<char>>
    decreases stmts.len(),
{
    if stmts.len() == 0 {
        seq![]
    } else {
        local_nets(stmts.drop_last()) + match stmts.last() {
            StmtView::Net(n) => seq![n],
            _ => seq![],
        }
    }
}

pub struct Scope {
    pub path: Vec<String>,
    pub units: Vec<(String, SIUnit)>,
    pub ports: Vec<String>,
    pub nets: Vec<String>,
}

pub open spec fn scope_view(s: Scope) -> ScopeView {
    (views(s.path@), unit_views(s.units@), views(s.ports@), views(s.nets@))
}

fn prefix_of(path: &Vec<String>) -> (r: String)
    ensures
        r@ == name_prefix(views(path@)),
{
    if path.len() == 0 {
        return String::new();
    }
    let mut r = join_text(path, "_");
    append_str(&mut r, "_");
    r
}

fn parameter_prefix_of(path: &Vec<String>) -> (r: String)
    ensures
        r@ == parameter_prefix(views(path@)),
{
    if path.len() == 0 {
        return String::new();
    }
    let mut r = join_text(path, ".");
    append_str(&mut r, ".");
    r
}

fn label_of(path: &Vec<String>) -> (r: String)
    ensures
        r@ == scope_label(views(path@)),
{
    if path.len() == 0 {
        return owned("root");
    }
    join_text(path, ".")
}

fn declarations_of(stmts: &Vec<Statement>) -> (r: Vec<(String, SIUnit)>)
    ensures
        unit_views(r@) == declarations(stmt_views(stmts@)),
{
    let mut r: Vec<(String, SIUnit)> = Vec::new();
    let mut i: usize = 0;
    while i < stmts.len()
        invariant
            i <= stmts@.len(),
            unit_views(r@) == declarations(stmt_views(stmts@).take(i as int)),
        decreases stmts.len() - i,
    {
        let ghost before = r@;
        proof {
            assert(stmt_views(stmts@).take(i + 1).drop_last() =~= stmt_views(stmts@).take(i as int));
            assert(stmt_views(stmts@).take(i + 1).last() == stmt_view(stmts@[i as int]));
        }
        match &stmts[i] {
            Statement::Param(p) => {
                r.push((p.name.clone(), p.unit));
                proof {
                    assert(unit_views(r@) =~= unit_views(before).push((p.name@, p.unit)));
                }
            },
            _ => {
                proof {
                    assert(unit_views(r@) =~= unit_views(before) + Seq::<(Seq<char>, SIUnit)>::empty());
                }
            },
        }
        i = i + 1;
    }
    proof {
        assert(stmt_views(stmts@).take(stmts@.len() as int) =~= stmt_views(stmts@));
    }
    r
}

fn local_nets_of(stmts: &Vec<Statement>) -> (r: Vec<String>)
    ensures
        views(r@) == local_nets(stmt_views(stmts@)),
{
    let mut r: Vec<String> = Vec::new();
    let mut i: usize = 0;
    while i < stmts.len()
        invariant
            i <= stmts@.len(),
            views(r@) == local_nets(stmt_views(stmts@).take(i as int)),
        decreases stmts.len() - i,
    {
        let ghost before = r@;
        proof {
            assert(stmt_views(stmts@).take(i + 1).drop_last() =~= stmt_views(stmts@).take(i as int));
            assert(stmt_views(stmts@).take(i + 1).last() == stmt_view(stmts@[i as int]));
        }
        match &stmts[i] {
            Statement::Net(n) => {
                r.push(n.name.clone());
                proof {
                    assert(views(r@) =~= views(before).push(n.name@));
                }
            },
            _ => {
                proof {
                    assert(views(r@) =~= views(before) + Seq::<Seq<char>>::empty());
                }
            },
        }
        i = i + 1;
    }
    proof {
        assert(stmt_views(stmts@).take(stmts@.len() as int) =~= stmt_views(stmts@));
    }
    r
}

fn texts_contain(v: &Vec<String>, s: &str) -> (r: bool)
    ensures
        r == views(v@).contains(s@),
{
    let mut i: usize = 0;
    while i < v.len()
        invariant
            i <= v@.len(),
            forall|k: int| 0 <= k < i ==> (#[trigger] v@[k])@ != s@,
        decreases v.len() - i,
    {
        if text_is(v[i].as_str(), s) {
            proof {
                assert(views(v@)[i as int] == s@);
            }
            return true;
        }
        i = i + 1;
    }
    proof {
        if views(v@).contains(s@) {
            let k = choose|k: int| 0 <= k < views(v@).len() && views(v@)[k] == s@;
            assert(v@[k]@ == s@);
        }
    }
    false
}


// ---------------------------------------------------------------------------
// Emitting statements.

/// Output so far, the instance path that first produced each electrical name,
/// and the expression work spent.
pub type ElabState = (Seq<StmtView>, Seq<(Seq<char>, Seq<Seq<char>>)>, int);

/// The path recorded for a name: its first entry.
pub open spec fn ident_lookup(ids: Seq<(Seq<char>, Seq<Seq<char>>)>, n: Seq<char>) -> Option<Seq<Seq<char>>>
    decreases ids.len(),
{
    if ids.len() == 0 {
        None
    } else if ids[0].0 == n {
        Some(ids[0].1)
    } else {
        ident_lookup(ids.drop_first(), n)
    }
}

/// The electrical name a statement introduces: a component's or a net's.
pub open spec fn emitted_name(v: StmtView) -> Option<Seq<char>> {
    match v {
        StmtView::Decl(d) => Some(d.1),
        StmtView::Net(n) => Some(n),
        _ => None,
    }
}

pub open spec fn limit_message() -> Seq<char> {
    "Module expansion exceeds the 100000 statement limit"@
}

pub open spec fn work_message() -> Seq<char> {
    "Module expression work limit exceeded"@
}

/// Appends a statement; a name may only be reused from the instance path that
/// introduced it.
pub open spec fn emit_spec(st: ElabState, v: StmtView, path: Seq<Seq<char>>) -> Result<ElabState, Seq<char>> {
    if st.0.len() >= MAX_EXPANDED_STATEMENTS {
        Err(limit_message())
    } else {
        match emitted_name(v) {
            Some(n) => match ident_lookup(st.1, n) {
                Some(previous) => if previous != path {
                    Err(
                        "Flattened identifier collision '"@ + n + "' between instance paths "@ + debug_list_spec(previous)
                            + " and "@ + debug_list_spec(path),
                    )
                } else {
                    Ok((st.0.push(v), st.1, st.2))
                },
                None => Ok((st.0.push(v), st.1.push((n, path)), st.2)),
            },
            None => Ok((st.0.push(v), st.1, st.2)),
        }
    }
}

pub struct Elaborator {
    output: Vec<Statement>,
    identities: Vec<(String, Vec<String>)>,
    work: usize,
}

pub open spec fn ident_views(v: Seq<(String, Vec<String>)>) -> Seq<(Seq<char>, Seq<Seq<char>>)> {
    v.map_values(|p: (String, Vec<String>)| (p.0@, views(p.1@)))
}

impl Elaborator {
    pub closed spec fn state(&self) -> ElabState {
        (stmt_views(self.output@), ident_views(self.identities@), self.work as int)
    }

    fn find_identity(&self, name: &str) -> (r: Option<usize>)
        ensures
            match ident_lookup(self.state().1, name@) {
                Some(p) => r matches Some(i) && i < self.identities@.len() && views(self.identities@[i as int].1@) == p,
                None => r is None,
            },
    {
        let ghost ids = ident_views(self.identities@);
        let mut i: usize = 0;
        proof {
            assert(ids.skip(0) =~= ids);
        }
        while i < self.identities.len()
            invariant
                i <= self.identities@.len(),
                ids == ident_views(self.identities@),
                ident_lookup(ids, name@) == ident_lookup(ids.skip(i as int), name@),
            decreases self.identities.len() - i,
        {
            proof {
                assert(ids.skip(i as int).drop_first() =~= ids.skip(i + 1));
                assert(ids.skip(i as int)[0] == (self.identities@[i as int].0@, views(self.identities@[i as int].1@)));
            }
            if text_is(self.identities[i].0.as_str(), name) {
                return Some(i);
            }
            i = i + 1;
        }
        proof {
            assert(ids.skip(i as int).len() == 0);
        }
        None
    }

    fn emit(&mut self, s: Statement, path: &Vec<String>) -> (r: Result<(), String>)
        ensures
            match emit_spec(old(self).state(), stmt_view(s), views(path@)) {
                Ok(st) => r is Ok && final(self).state() == st,
                Err(e) => r matches Err(m) && m@ == e,
            },
            r is Ok ==> final(self).output@.len() <= MAX_EXPANDED_STATEMENTS && final(self).work == old(self).work,
            r is Err ==> final(self).state() == old(self).state(),
    {
        if self.output.len() >= MAX_EXPANDED_STATEMENTS {
            return Err(owned("Module expansion exceeds the 100000 statement limit"));
        }
        let name: Option<String> = match &s {
            Statement::Decl(d) => Some(d.name.clone()),
            Statement::Net(n) => Some(n.name.clone()),
            _ => None,
        };
        let ghost before = self.state();
        match name {
            Some(n) => match self.find_identity(n.as_str()) {
                Some(i) => {
                    if !same_text_lists(&self.identities[i].1, path) {
                        let mut m = owned("Flattened identifier collision '");
                        append_str(&mut m, n.as_str());
                        append_str(&mut m, "' between instance paths ");
                        append_str(&mut m, debug_list(&self.identities[i].1).as_str());
                        append_str(&mut m, " and ");
                        append_str(&mut m, debug_list(path).as_str());
                        return Err(m);
                    }
                    self.output.push(s);
                    proof {
                        assert(stmt_views(self.output@) =~= before.0.push(stmt_view(s)));
                    }
                },
                None => {
                    self.identities.push((n, dup_texts(path)));
                    self.output.push(s);
                    proof {
                        assert(stmt_views(self.output@) =~= before.0.push(stmt_view(s)));
                        assert(ident_views(self.identities@) =~= before.1.push((emitted_name(stmt_view(s))->0, views(path@))));
                    }
                },
            },
            None => {
                self.output.push(s);
                proof {
                    assert(stmt_views(self.output@) =~= before.0.push(stmt_view(s)));
                }
            },
        }
        Ok(())
    }
}


// ---------------------------------------------------------------------------
// What elaboration does, statement by statement.

/// Name, interface ports and statements of a module.
pub type ModuleView = (Seq<char>, Seq<Seq<char>>, Seq<StmtView>);

pub open spec fn module_views(v: Seq<ModuleDef>) -> Seq<ModuleView> {
    v.map_values(|m: ModuleDef| (m.name@, views(m.pins@), stmt_views(m.statements@)))
}

/// The first module of that name.
pub open spec fn module_find(mods: Seq<ModuleView>, name: Seq<char>) -> Option<int>
    decreases mods.len(),
{
    if mods.len() == 0 {
        None
    } else if mods[0].0 == name {
        Some(0)
    } else {
        match module_find(mods.drop_first(), name) {
            Some(i) => Some(i + 1),
            None => None,
        }
    }
}

pub open spec fn qualify_view(e: ExprView, prefix: Seq<char>) -> ExprView {
    (qualify_tree(e.0, prefix), e.1)
}

/// A parameter as it leaves its scope: renamed under the instance, bound to
/// the instance path, and its formula's names qualified unless an override
/// already bound it in the caller's scope.
pub open spec fn param_out(p: crate::ast::ParamView, sc: ScopeView) -> crate::ast::ParamView {
    let pp = parameter_prefix(sc.0);
    (
        pp + p.0,
        p.1,
        if p.6 is None {
            qualify_view(p.2, pp)
        } else {
            p.2
        },
        p.3,
        p.4,
        sc.0,
        p.6,
    )
}

/// A component as it leaves its scope: prefixed name, qualified value formula.
pub open spec fn decl_out(d: crate::ast::DeclView, sc: ScopeView) -> crate::ast::DeclView {
    (
        d.0,
        name_prefix(sc.0) + d.1,
        d.2,
        d.3,
        match d.4 {
            Some(e) => Some(qualify_view(e, parameter_prefix(sc.0))),
            None => None,
        },
        d.5,
        d.6,
        d.7,
    )
}

/// A connection endpoint as it leaves its scope: component pins are prefixed;
/// inside an instance a bare name is a module port (pin of the instance) or a
/// local net (prefixed).
pub open spec fn map_pin(p: (Seq<char>, Seq<char>), sc: ScopeView) -> Result<(Seq<char>, Seq<char>), Seq<char>> {
    if p.0.len() > 0 {
        Ok((name_prefix(sc.0) + p.0, p.1))
    } else if sc.0.len() == 0 {
        Ok(p)
    } else if sc.2.contains(p.1) {
        Ok((join(sc.0, "_"@), p.1))
    } else if sc.3.contains(p.1) {
        Ok((seq![], name_prefix(sc.0) + p.1))
    } else {
        Err("Instance '"@ + scope_label(sc.0) + "': undeclared module port or net '"@ + p.1 + "'"@)
    }
}

pub open spec fn map_pins(pins: Seq<(Seq<char>, Seq<char>)>, sc: ScopeView, n: int) -> Result<
    Seq<(Seq<char>, Seq<char>)>,
    Seq<char>,
>
    decreases n,
{
    if n <= 0 {
        Ok(seq![])
    } else {
        match map_pins(pins, sc, n - 1) {
            Err(e) => Err(e),
            Ok(acc) => match map_pin(pins[n - 1], sc) {
                Err(e) => Err(e),
                Ok(q) => Ok(acc.push(q)),
            },
        }
    }
}

pub open spec fn ov_names(acc: Seq<(Seq<char>, ExprView)>) -> Seq<Seq<char>> {
    acc.map_values(|o: (Seq<char>, ExprView)| o.0)
}

/// The overrides of an instance, checked in order: each names a parameter of
/// the module, at most once, with a formula of that parameter's dimension in
/// the caller's scope; each is bound to the caller's scope.
pub open spec fn overrides_spec(
    caller_units: Seq<(Seq<char>, SIUnit)>,
    child_units: Seq<(Seq<char>, SIUnit)>,
    ovs: Seq<(Seq<char>, ExprView, usize, usize)>,
    label: Seq<char>,
    pp: Seq<char>,
    n: int,
) -> Result<Seq<(Seq<char>, ExprView)>, Seq<char>>
    decreases n,
{
    if n <= 0 {
        Ok(seq![])
    } else {
        match overrides_spec(caller_units, child_units, ovs, label, pp, n - 1) {
            Err(e) => Err(e),
            Ok(acc) => {
                let o = ovs[n - 1];
                match lookup_unit(child_units, o.0) {
                    None => Err(
                        "Instance '"@ + label + "': unknown override '"@ + o.0 + "' at "@ + nat_text(o.2 as nat)
                            + ":"@ + nat_text(o.3 as nat),
                    ),
                    Some(u) => if ov_names(acc).contains(o.0) {
                        Err("Instance '"@ + label + "': duplicate override '"@ + o.0 + "'"@)
                    } else {
                        match validate_units_spec(o.1.0, caller_units, u) {
                            Err(m) => Err(
                                "Instance '"@ + label + "', override '"@ + o.0 + "' at "@ + nat_text(o.2 as nat)
                                    + ":"@ + nat_text(o.3 as nat) + ": "@ + m,
                            ),
                            Ok(()) => Ok(acc.push((o.0, qualify_view(o.1, pp)))),
                        }
                    },
                }
            },
        }
    }
}

/// The first override of that parameter.
pub open spec fn override_find(ovs: Seq<(Seq<char>, ExprView)>, name: Seq<char>) -> Option<int>
    decreases ovs.len(),
{
    if ovs.len() == 0 {
        None
    } else if ovs[0].0 == name {
        Some(0)
    } else {
        match override_find(ovs.drop_first(), name) {
            Some(i) => Some(i + 1),
            None => None,
        }
    }
}

/// The module's statements with overrides applied: an overridden parameter
/// keeps its own formula text as its default and takes the override's formula.
pub open spec fn effective_spec(stmts: Seq<StmtView>, ovs: Seq<(Seq<char>, ExprView)>) -> Seq<StmtView>
    decreases stmts.len(),
{
    if stmts.len() == 0 {
        seq![]
    } else {
        match stmts[0] {
            StmtView::Param(p) => match override_find(ovs, p.0) {
                Some(j) => seq![StmtView::Param((p.0, p.1, ovs[j].1, p.3, p.4, p.5, Some(p.2.1)))]
                    + effective_spec(stmts.drop_first(), ovs.remove(j)),
                None => seq![stmts[0]] + effective_spec(stmts.drop_first(), ovs),
            },
            _ => seq![stmts[0]] + effective_spec(stmts.drop_first(), ovs),
        }
    }
}

pub open spec fn nesting_measure(stack: Seq<Seq<char>>) -> nat {
    if stack.len() <= MAX_NESTING {
        (MAX_NESTING - stack.len()) as nat
    } else {
        0
    }
}

pub open spec fn root_only_message(label: Seq<char>) -> Seq<char> {
    "Instance '"@ + label
        + "': put analyses and assertions at the circuit root; parameterized module analysis/assertion contexts are not supported yet"@
}

/// Elaborates one statement in scope `sc`, with `stack` the modules being expanded.
pub open spec fn step_spec(
    mods: Seq<ModuleView>,
    st: ElabState,
    s: StmtView,
    sc: ScopeView,
    stack: Seq<Seq<char>>,
) -> Result<ElabState, Seq<char>>
    decreases nesting_measure(stack), 0nat,
{
    let pp = parameter_prefix(sc.0);
    let prefix = name_prefix(sc.0);
    match s {
        StmtView::Param(p) => {
            let out = param_out(p, sc);
            let w = st.2 + tree_size(out.2.0);
            if w > MAX_EXPRESSION_WORK {
                Err(work_message())
            } else {
                emit_spec((st.0, st.1, w), StmtView::Param(out), sc.0)
            }
        },
        StmtView::Decl(d) => match d.4 {
            Some(e) => {
                let w = st.2 + tree_size(e.0);
                if w > MAX_EXPRESSION_WORK {
                    Err(work_message())
                } else {
                    emit_spec((st.0, st.1, w), StmtView::Decl(decl_out(d, sc)), sc.0)
                }
            },
            None => emit_spec(st, StmtView::Decl(decl_out(d, sc)), sc.0),
        },
        StmtView::Net(n) => emit_spec(st, StmtView::Net(prefix + n), sc.0),
        StmtView::Connect(pins) => match map_pins(pins, sc, pins.len() as int) {
            Err(e) => Err(e),
            Ok(mapped) => emit_spec(st, StmtView::Connect(mapped), sc.0),
        },
        StmtView::Use(u) => match module_find(mods, u.0) {
            None => Err("Module not found: "@ + u.0),
            Some(mi) => if stack.contains(u.0) || stack.len() >= MAX_NESTING {
                Err("Recursive module or module nesting limit exceeded: "@ + u.0)
            } else {
                let m = mods[mi];
                let cpath = sc.0.push(u.1);
                let child: ScopeView = (cpath, declarations(m.2), m.1, local_nets(m.2));
                match overrides_spec(sc.1, child.1, u.2, scope_label(cpath), pp, u.2.len() as int) {
                    Err(e) => Err(e),
                    Ok(ovs) => if st.0.len() + m.2.len() > MAX_EXPANDED_STATEMENTS {
                        Err(limit_message())
                    } else {
                        let d = StmtView::Decl(
                            (ComponentType::ModulePort, prefix + u.1, None, Some(u.0), None, None, m.1, cpath),
                        );
                        match emit_spec(st, d, sc.0) {
                            Err(e) => Err(e),
                            Ok(st2) => expand_spec(mods, st2, effective_spec(m.2, ovs), child, stack.push(u.0)),
                        }
                    },
                }
            },
        },
        StmtView::Assert(_) | StmtView::Simulate(_) => if sc.0.len() > 0 && sc.1.len() > 0 {
            Err(root_only_message(scope_label(sc.0)))
        } else {
            emit_spec(st, s, sc.0)
        },
    }
}

/// Elaborates statements in order, stopping at the first error.
pub open spec fn expand_spec(
    mods: Seq<ModuleView>,
    st: ElabState,
    stmts: Seq<StmtView>,
    sc: ScopeView,
    stack: Seq<Seq<char>>,
) -> Result<ElabState, Seq<char>>
    decreases nesting_measure(stack), stmts.len(),
{
    if stmts.len() == 0 {
        Ok(st)
    } else {
        match step_spec(mods, st, stmts[0], sc, stack) {
            Err(e) => Err(e),
            Ok(st2) => expand_spec(mods, st2, stmts.drop_first(), sc, stack),
        }
    }
}


// ---------------------------------------------------------------------------
// Connections, overrides and effective statements.

proof fn lemma_map_pins_err(pv: Seq<(Seq<char>, Seq<char>)>, sc: ScopeView, k: int, n: int, e: Seq<char>)
    requires
        0 <= k <= n,
        map_pins(pv, sc, k) == Err::<Seq<(Seq<char>, Seq<char>)>, Seq<char>>(e),
    ensures
        map_pins(pv, sc, n) == Err::<Seq<(Seq<char>, Seq<char>)>, Seq<char>>(e),
    decreases n - k,
{
    if n > k {
        lemma_map_pins_err(pv, sc, k, n - 1, e);
    }
}

proof fn lemma_overrides_err(
    cu: Seq<(Seq<char>, SIUnit)>,
    du: Seq<(Seq<char>, SIUnit)>,
    ov: Seq<(Seq<char>, ExprView, usize, usize)>,
    label: Seq<char>,
    pp: Seq<char>,
    k: int,
    n: int,
    e: Seq<char>,
)
    requires
        0 <= k <= n,
        overrides_spec(cu, du, ov, label, pp, k) == Err::<Seq<(Seq<char>, ExprView)>, Seq<char>>(e),
    ensures
        overrides_spec(cu, du, ov, label, pp, n) == Err::<Seq<(Seq<char>, ExprView)>, Seq<char>>(e),
    decreases n - k,
{
    if n > k {
        lemma_overrides_err(cu, du, ov, label, pp, k, n - 1, e);
    }
}

fn map_connection(pins: &Vec<PinRef>, scope: &Scope) -> (r: Result<Vec<PinRef>, String>)
    ensures
        match map_pins(pin_views(pins@), scope_view(*scope), pins@.len() as int) {
            Ok(m) => r matches Ok(v) && pin_views(v@) == m,
            Err(e) => r matches Err(x) && x@ == e,
        },
{
    let ghost sc = scope_view(*scope);
    let ghost pv = pin_views(pins@);
    let prefix = prefix_of(&scope.path);
    let mut out: Vec<PinRef> = Vec::new();
    let mut i: usize = 0;
    proof {
        assert(pin_views(out@) =~= Seq::<(Seq<char>, Seq<char>)>::empty());
    }
    while i < pins.len()
        invariant
            i <= pins@.len(),
            sc == scope_view(*scope),
            pv == pin_views(pins@),
            prefix@ == name_prefix(sc.0),
            map_pins(pv, sc, i as int) == Ok::<Seq<(Seq<char>, Seq<char>)>, Seq<char>>(pin_views(out@)),
        decreases pins.len() - i,
    {
        let p = &pins[i];
        proof {
            assert(pv[i as int] == (p.component@, p.pin@));
        }
        let q = if !p.component.as_str().is_empty() {
            let mut c = prefix.clone();
            append_str(&mut c, p.component.as_str());
            PinRef { component: c, pin: p.pin.clone() }
        } else if scope.path.len() == 0 {
            PinRef { component: p.component.clone(), pin: p.pin.clone() }
        } else if texts_contain(&scope.ports, p.pin.as_str()) {
            PinRef { component: join_text(&scope.path, "_"), pin: p.pin.clone() }
        } else if texts_contain(&scope.nets, p.pin.as_str()) {
            let mut n = prefix.clone();
            append_str(&mut n, p.pin.as_str());
            PinRef { component: String::new(), pin: n }
        } else {
            let mut m = owned("Instance '");
            append_str(&mut m, label_of(&scope.path).as_str());
            append_str(&mut m, "': undeclared module port or net '");
            append_str(&mut m, p.pin.as_str());
            append_str(&mut m, "'");
            proof {
                assert(views(scope.path@).len() == scope.path@.len());
                assert(map_pin(pv[i as int], sc) == Err::<(Seq<char>, Seq<char>), Seq<char>>(m@));
                lemma_map_pins_err(pv, sc, i + 1, pins@.len() as int, m@);
            }
            return Err(m);
        };
        proof {
            assert(views(scope.path@).len() == scope.path@.len());
            assert(map_pin(pv[i as int], sc) == Ok::<(Seq<char>, Seq<char>), Seq<char>>((q.component@, q.pin@)));
        }
        let ghost before = out@;
        out.push(q);
        proof {
            assert(pin_views(out@) =~= pin_views(before).push((q.component@, q.pin@)));
        }
        i = i + 1;
    }
    Ok(out)
}

pub open spec fn acc_views(v: Seq<(String, crate::expression::Expression)>) -> Seq<(Seq<char>, ExprView)> {
    v.map_values(|o: (String, crate::expression::Expression)| (o.0@, expr_view(o.1)))
}

fn acc_contains(acc: &Vec<(String, crate::expression::Expression)>, name: &str) -> (r: bool)
    ensures
        r == ov_names(acc_views(acc@)).contains(name@),
{
    let ghost names = ov_names(acc_views(acc@));
    let mut i: usize = 0;
    while i < acc.len()
        invariant
            i <= acc@.len(),
            names == ov_names(acc_views(acc@)),
            forall|k: int| 0 <= k < i ==> (#[trigger] acc@[k]).0@ != name@,
        decreases acc.len() - i,
    {
        if text_is(acc[i].0.as_str(), name) {
            proof {
                assert(names[i as int] == name@);
            }
            return true;
        }
        i = i + 1;
    }
    proof {
        if names.contains(name@) {
            let k = choose|k: int| 0 <= k < names.len() && names[k] == name@;
            assert(acc@[k].0@ == name@);
        }
    }
    false
}

fn collect_overrides(
    caller: &Scope,
    child_units: &Vec<(String, SIUnit)>,
    ovs: &Vec<crate::ast::ParameterOverride>,
    label: &String,
    pp: &String,
) -> (r: Result<Vec<(String, crate::expression::Expression)>, String>)
    ensures
        match overrides_spec(
            unit_views(caller.units@),
            unit_views(child_units@),
            crate::ast::override_views(ovs@),
            label@,
            pp@,
            ovs@.len() as int,
        ) {
            Ok(m) => r matches Ok(v) && acc_views(v@) == m,
            Err(e) => r matches Err(x) && x@ == e,
        },
{
    let ghost ov = crate::ast::override_views(ovs@);
    let mut acc: Vec<(String, crate::expression::Expression)> = Vec::new();
    let mut i: usize = 0;
    proof {
        assert(acc_views(acc@) =~= Seq::<(Seq<char>, ExprView)>::empty());
    }
    while i < ovs.len()
        invariant
            i <= ovs@.len(),
            ov == crate::ast::override_views(ovs@),
            overrides_spec(unit_views(caller.units@), unit_views(child_units@), ov, label@, pp@, i as int)
                == Ok::<Seq<(Seq<char>, ExprView)>, Seq<char>>(acc_views(acc@)),
        decreases ovs.len() - i,
    {
        let o = &ovs[i];
        proof {
            assert(ov[i as int] == (o.name@, expr_view(o.expression), o.line, o.column));
        }
        let unit = match crate::expression::find_unit(child_units, &o.name) {
            Some(u) => u,
            None => {
                let mut m = owned("Instance '");
                append_str(&mut m, label.as_str());
                append_str(&mut m, "': unknown override '");
                append_str(&mut m, o.name.as_str());
                append_str(&mut m, "' at ");
                append_str(&mut m, usize_text(o.line).as_str());
                append_str(&mut m, ":");
                append_str(&mut m, usize_text(o.column).as_str());
                proof {
                    lemma_overrides_err(
                        unit_views(caller.units@),
                        unit_views(child_units@),
                        ov,
                        label@,
                        pp@,
                        i + 1,
                        ovs@.len() as int,
                        m@,
                    );
                }
                return Err(m);
            },
        };
        if acc_contains(&acc, o.name.as_str()) {
            let mut m = owned("Instance '");
            append_str(&mut m, label.as_str());
            append_str(&mut m, "': duplicate override '");
            append_str(&mut m, o.name.as_str());
            append_str(&mut m, "'");
            proof {
                    lemma_overrides_err(
                        unit_views(caller.units@),
                        unit_views(child_units@),
                        ov,
                        label@,
                        pp@,
                        i + 1,
                        ovs@.len() as int,
                        m@,
                    );
                }
                return Err(m);
        }
        match o.expression.validate_units(&caller.units, unit) {
            Err(e) => {
                let mut m = owned("Instance '");
                append_str(&mut m, label.as_str());
                append_str(&mut m, "', override '");
                append_str(&mut m, o.name.as_str());
                append_str(&mut m, "' at ");
                append_str(&mut m, usize_text(o.line).as_str());
                append_str(&mut m, ":");
                append_str(&mut m, usize_text(o.column).as_str());
                append_str(&mut m, ": ");
                append_str(&mut m, e.message.as_str());
                proof {
                    lemma_overrides_err(
                        unit_views(caller.units@),
                        unit_views(child_units@),
                        ov,
                        label@,
                        pp@,
                        i + 1,
                        ovs@.len() as int,
                        m@,
                    );
                }
                return Err(m);
            },
            Ok(()) => {},
        }
        let ghost before = acc@;
        acc.push((o.name.clone(), o.expression.qualify(pp.as_str())));
        proof {
            assert(acc_views(acc@) =~= acc_views(before).push((o.name@, qualify_view(expr_view(o.expression), pp@))));
        }
        i = i + 1;
    }
    Ok(acc)
}

fn find_override(ovs: &Vec<(String, crate::expression::Expression)>, name: &str) -> (r: Option<usize>)
    ensures
        match r {
            Some(k) => override_find(acc_views(ovs@), name@) == Some(k as int) && k < ovs@.len(),
            None => override_find(acc_views(ovs@), name@) is None,
        },
{
    let ghost a = acc_views(ovs@);
    let mut i: usize = 0;
    proof {
        assert(a.skip(0) =~= a);
    }
    while i < ovs.len()
        invariant
            i <= ovs@.len(),
            a == acc_views(ovs@),
            forall|k: int| 0 <= k < i ==> (#[trigger] a[k]).0 != name@,
            override_find(a, name@) == match override_find(a.skip(i as int), name@) {
                Some(j) => Some(j + i),
                None => None::<int>,
            },
        decreases ovs.len() - i,
    {
        proof {
            assert(a.skip(i as int).drop_first() =~= a.skip(i + 1));
            assert(a.skip(i as int)[0] == a[i as int]);
        }
        if text_is(ovs[i].0.as_str(), name) {
            return Some(i);
        }
        i = i + 1;
    }
    None
}

/// The statements of a module with the instance's overrides applied.
fn apply_overrides(stmts: &Vec<Statement>, ovs: Vec<(String, crate::expression::Expression)>) -> (r: Vec<Statement>)
    ensures
        stmt_views(r@) == effective_spec(stmt_views(stmts@), acc_views(ovs@)),
{
    let ghost all = stmt_views(stmts@);
    let ghost start = acc_views(ovs@);
    let mut rest = ovs;
    let mut out: Vec<Statement> = Vec::new();
    let mut i: usize = 0;
    proof {
        assert(all.skip(0) =~= all);
        assert(stmt_views(out@) + effective_spec(all.skip(0), acc_views(rest@)) =~= effective_spec(all, start));
    }
    while i < stmts.len()
        invariant
            i <= stmts@.len(),
            all == stmt_views(stmts@),
            effective_spec(all, start) == stmt_views(out@) + effective_spec(all.skip(i as int), acc_views(rest@)),
        decreases stmts.len() - i,
    {
        let ghost tail = all.skip(i as int);
        let ghost rv = acc_views(rest@);
        proof {
            assert(tail.drop_first() =~= all.skip(i + 1));
            assert(tail[0] == stmt_view(stmts@[i as int]));
        }
        let ghost before = out@;
        match &stmts[i] {
            Statement::Param(p) => match find_override(&rest, p.name.as_str()) {
                Some(j) => {
                    let (_, e) = rest.remove(j);
                    let mut q = dup_param(p);
                    q.default_expression = Some(p.expression.source().clone());
                    q.expression = e;
                    out.push(Statement::Param(q));
                    proof {
                        assert(acc_views(rest@) =~= rv.remove(j as int));
                        assert(stmt_views(out@) =~= stmt_views(before).push(stmt_view(Statement::Param(q))));
                    }
                },
                None => {
                    out.push(dup_statement(&stmts[i]));
                    proof {
                        assert(stmt_views(out@) =~= stmt_views(before).push(tail[0]));
                    }
                },
            },
            _ => {
                out.push(dup_statement(&stmts[i]));
                proof {
                    assert(stmt_views(out@) =~= stmt_views(before).push(tail[0]));
                }
            },
        }
        proof {
            assert(stmt_views(before).push(stmt_views(out@).last()) + effective_spec(all.skip(i + 1), acc_views(rest@))
                =~= stmt_views(before) + (seq![stmt_views(out@).last()] + effective_spec(all.skip(i + 1), acc_views(rest@))));
        }
        i = i + 1;
    }
    proof {
        assert(all.skip(stmts@.len() as int) =~= Seq::<StmtView>::empty());
        assert(stmt_views(out@) + Seq::<StmtView>::empty() =~= stmt_views(out@));
    }
    out
}


// ---------------------------------------------------------------------------
// Expansion.

fn find_module(mods: &Vec<ModuleDef>, name: &str) -> (r: Option<usize>)
    ensures
        match r {
            Some(k) => module_find(module_views(mods@), name@) == Some(k as int) && k < mods@.len(),
            None => module_find(module_views(mods@), name@) is None,
        },
{
    let ghost a = module_views(mods@);
    let mut i: usize = 0;
    proof {
        assert(a.skip(0) =~= a);
    }
    while i < mods.len()
        invariant
            i <= mods@.len(),
            a == module_views(mods@),
            module_find(a, name@) == match module_find(a.skip(i as int), name@) {
                Some(j) => Some(j + i),
                None => None::<int>,
            },
        decreases mods.len() - i,
    {
        proof {
            assert(a.skip(i as int).drop_first() =~= a.skip(i + 1));
            assert(a.skip(i as int)[0] == a[i as int]);
        }
        if text_is(mods[i].name.as_str(), name) {
            return Some(i);
        }
        i = i + 1;
    }
    None
}

impl Elaborator {
    pub closed spec fn bounded(&self) -> bool {
        self.work <= MAX_EXPRESSION_WORK && self.output@.len() <= MAX_EXPANDED_STATEMENTS
    }

    fn step(&mut self, mods: &Vec<ModuleDef>, s: &Statement, scope: &Scope, stack: &mut Vec<String>) -> (r: Result<(), String>)
        requires
            old(self).bounded(),
        ensures
            views(final(stack)@) == views(old(stack)@),
            match step_spec(module_views(mods@), old(self).state(), stmt_view(*s), scope_view(*scope), views(old(stack)@)) {
                Ok(st) => r is Ok && final(self).state() == st,
                Err(e) => r matches Err(m) && m@ == e,
            },
            r is Ok ==> final(self).bounded(),
            recursive_use(*s, views(old(stack)@)) ==> r is Err && final(self).state() == old(self).state(),
        decreases nesting_measure(views(old(stack)@)), 1nat,
    {
        proof {
            assert(views(scope.path@).len() == scope.path@.len());
            assert(stmt_views(self.output@).len() == self.output@.len());
        }
        match s {
            Statement::Param(p) => {
                let pp = parameter_prefix_of(&scope.path);
                let mut q = dup_param(p);
                let mut name = pp.clone();
                append_str(&mut name, p.name.as_str());
                q.name = name;
                q.instance_path = dup_texts(&scope.path);
                if p.default_expression.is_none() {
                    q.expression = p.expression.qualify(pp.as_str());
                }
                let n = q.expression.node_count();
                if self.work + n > MAX_EXPRESSION_WORK {
                    return Err(owned("Module expression work limit exceeded"));
                }
                self.work = self.work + n;
                proof {
                    assert(param_view(q) == param_out(param_view(*p), scope_view(*scope)));
                }
                self.emit(Statement::Param(q), &scope.path)
            },
            Statement::Decl(d) => {
                let prefix = prefix_of(&scope.path);
                let mut q = dup_decl(d);
                let mut name = prefix;
                append_str(&mut name, d.name.as_str());
                q.name = name;
                match &d.value_expression {
                    Some(e) => {
                        let n = e.node_count();
                        if self.work + n > MAX_EXPRESSION_WORK {
                            return Err(owned("Module expression work limit exceeded"));
                        }
                        self.work = self.work + n;
                        let pp = parameter_prefix_of(&scope.path);
                        q.value_expression = Some(e.qualify(pp.as_str()));
                    },
                    None => {},
                }
                proof {
                    assert(crate::ast::decl_view(q) == decl_out(crate::ast::decl_view(*d), scope_view(*scope)));
                }
                self.emit(Statement::Decl(q), &scope.path)
            },
            Statement::Net(n) => {
                let mut name = prefix_of(&scope.path);
                append_str(&mut name, n.name.as_str());
                self.emit(Statement::Net(NetDecl { name }), &scope.path)
            },
            Statement::Connect(c) => match map_connection(&c.pins, scope) {
                Err(e) => Err(e),
                Ok(pins) => self.emit(Statement::Connect(Connection { pins }), &scope.path),
            },
            Statement::Assert(_) | Statement::Simulate(_) => {
                if scope.path.len() > 0 && scope.units.len() > 0 {
                    let mut m = owned("Instance '");
                    append_str(&mut m, label_of(&scope.path).as_str());
                    append_str(
                        &mut m,
                        "': put analyses and assertions at the circuit root; parameterized module analysis/assertion contexts are not supported yet",
                    );
                    proof {
                        assert(unit_views(scope.units@).len() == scope.units@.len());
                    }
                    return Err(m);
                }
                proof {
                    assert(unit_views(scope.units@).len() == scope.units@.len());
                }
                self.emit(dup_statement(s), &scope.path)
            },
            Statement::Use(u) => self.instantiate(mods, u, scope, stack),
        }
    }

    fn instantiate(
        &mut self,
        mods: &Vec<ModuleDef>,
        u: &crate::ast::UseStmt,
        scope: &Scope,
        stack: &mut Vec<String>,
    ) -> (r: Result<(), String>)
        requires
            old(self).bounded(),
        ensures
            views(final(stack)@) == views(old(stack)@),
            match step_spec(
                module_views(mods@),
                old(self).state(),
                StmtView::Use(crate::ast::use_view(*u)),
                scope_view(*scope),
                views(old(stack)@),
            ) {
                Ok(st) => r is Ok && final(self).state() == st,
                Err(e) => r matches Err(m) && m@ == e,
            },
            r is Ok ==> final(self).bounded(),
            recursive_use(Statement::Use(*u), views(old(stack)@)) ==> r is Err && final(self).state() == old(self).state(),
        decreases nesting_measure(views(old(stack)@)), 0nat,
    {
        let ghost mv = module_views(mods@);
        let mi = match find_module(mods, u.module_name.as_str()) {
            None => {
                let mut m = owned("Module not found: ");
                append_str(&mut m, u.module_name.as_str());
                return Err(m);
            },
            Some(i) => i,
        };
        proof {
            assert(views(stack@).len() == stack@.len());
        }
        if texts_contain(stack, u.module_name.as_str()) || stack.len() >= MAX_NESTING {
            let mut m = owned("Recursive module or module nesting limit exceeded: ");
            append_str(&mut m, u.module_name.as_str());
            return Err(m);
        }
        let m = &mods[mi];
        proof {
            assert(mv[mi as int] == (m.name@, views(m.pins@), stmt_views(m.statements@)));
        }
        let mut cpath = dup_texts(&scope.path);
        cpath.push(u.inst_name.clone());
        proof {
            assert(views(cpath@) =~= views(scope.path@).push(u.inst_name@));
        }
        let child = Scope {
            path: cpath,
            units: declarations_of(&m.statements),
            ports: dup_texts(&m.pins),
            nets: local_nets_of(&m.statements),
        };
        let label = label_of(&child.path);
        let pp = parameter_prefix_of(&scope.path);
        let ovs = match collect_overrides(scope, &child.units, &u.overrides, &label, &pp) {
            Err(e) => {
                return Err(e);
            },
            Ok(v) => v,
        };
        proof {
            assert(stmt_views(self.output@).len() == self.output@.len());
            assert(stmt_views(m.statements@).len() == m.statements@.len());
        }
        if m.statements.len() > MAX_EXPANDED_STATEMENTS || self.output.len() > MAX_EXPANDED_STATEMENTS
            - m.statements.len() {
            return Err(owned("Module expansion exceeds the 100000 statement limit"));
        }
        let effective = apply_overrides(&m.statements, ovs);
        let mut name = prefix_of(&scope.path);
        append_str(&mut name, u.inst_name.as_str());
        let decl = ComponentDecl {
            comp_type: ComponentType::ModulePort,
            name,
            subtype: None,
            value: Some(u.module_name.clone()),
            value_expression: None,
            waveform_expression: None,
            interface_pins: dup_texts(&m.pins),
            instance_path: dup_texts(&child.path),
        };
        match self.emit(Statement::Decl(decl), &scope.path) {
            Err(e) => {
                return Err(e);
            },
            Ok(()) => {},
        }
        let ghost before_push = stack@;
        stack.push(u.module_name.clone());
        proof {
            assert(views(stack@) =~= views(before_push).push(u.module_name@));
        }
        let r = self.expand(mods, &effective, &child, stack);
        let ghost after = stack@;
        stack.pop();
        proof {
            assert(views(stack@) =~= views(after).drop_last());
            assert(views(after).drop_last() =~= views(before_push));
        }
        r
    }

    fn expand(&mut self, mods: &Vec<ModuleDef>, stmts: &Vec<Statement>, scope: &Scope, stack: &mut Vec<String>) -> (r: Result<(), String>)
        requires
            old(self).bounded(),
        ensures
            views(final(stack)@) == views(old(stack)@),
            match expand_spec(module_views(mods@), old(self).state(), stmt_views(stmts@), scope_view(*scope), views(old(stack)@)) {
                Ok(st) => r is Ok && final(self).state() == st,
                Err(e) => r matches Err(m) && m@ == e,
            },
            r is Ok ==> final(self).bounded(),
            stmts@.len() > 0 && recursive_use(stmts@[0], views(old(stack)@)) ==> r is Err && final(self).state() == old(
                self,
            ).state(),
        decreases nesting_measure(views(old(stack)@)), stmts@.len() + 1,
    {
        let ghost all = stmt_views(stmts@);
        let ghost stk = views(stack@);
        let ghost mv = module_views(mods@);
        let ghost sc = scope_view(*scope);
        let ghost whole = expand_spec(mv, self.state(), all, sc, stk);
        let mut i: usize = 0;
        proof {
            assert(all.skip(0) =~= all);
        }
        while i < stmts.len()
            invariant
                i <= stmts@.len(),
                all == stmt_views(stmts@),
                mv == module_views(mods@),
                sc == scope_view(*scope),
                views(stack@) == stk,
                self.bounded(),
                whole == expand_spec(mv, self.state(), all.skip(i as int), sc, stk),
                stk == views(old(stack)@),
                whole == expand_spec(module_views(mods@), old(self).state(), stmt_views(stmts@), scope_view(*scope), views(old(stack)@)),
                i == 0 ==> self.state() == old(self).state(),
                stmts@.len() > 0 && recursive_use(stmts@[0], views(old(stack)@)) ==> i == 0,
            decreases stmts.len() - i,
        {
            proof {
                assert(all.skip(i as int)[0] == stmt_view(stmts@[i as int]));
                assert(all.skip(i as int).drop_first() =~= all.skip(i + 1));
            }
            let ghost cur = self.state();
            match self.step(mods, &stmts[i], scope, stack) {
                Err(e) => {
                    proof {
                        assert(expand_spec(mv, cur, all.skip(i as int), sc, stk) == Err::<ElabState, Seq<char>>(e@));
                    }
                    return Err(e);
                },
                Ok(()) => {},
            }
            i = i + 1;
        }
        proof {
            assert(all.skip(i as int).len() == 0);
        }
        Ok(())
    }
}


/// A use of a module already being expanded, or past the nesting limit.
pub open spec fn recursive_use(s: Statement, stack: Seq<Seq<char>>) -> bool {
    match s {
        Statement::Use(u) => stack.contains(u.module_name@) || stack.len() >= MAX_NESTING,
        _ => false,
    }
}


// ---------------------------------------------------------------------------
// Module definitions and the whole program.

pub open spec fn has_repeat(v: Seq<Seq<char>>) -> bool {
    exists|i: int, j: int| 0 <= i < j < v.len() && v[i] == v[j]
}

pub open spec fn unit_names(u: Seq<(Seq<char>, SIUnit)>) -> Seq<Seq<char>> {
    u.map_values(|p: (Seq<char>, SIUnit)| p.0)
}

/// The parameters of a module, checked in order against the module's own
/// parameter units; returns the work spent so far.
pub open spec fn module_params_spec(
    name: Seq<char>,
    stmts: Seq<StmtView>,
    units: Seq<(Seq<char>, SIUnit)>,
    w0: int,
    k: int,
) -> Result<int, Seq<char>>
    decreases k,
{
    if k <= 0 {
        Ok(w0)
    } else {
        match module_params_spec(name, stmts, units, w0, k - 1) {
            Err(e) => Err(e),
            Ok(w) => match stmts[k - 1] {
                StmtView::Param(p) => match validate_units_spec(p.2.0, units, p.1) {
                    Err(e) => Err(
                        "Module '"@ + name + "', parameter '"@ + p.0 + "' at "@ + nat_text(p.3 as nat) + ":"@
                            + nat_text(p.4 as nat) + ": "@ + e,
                    ),
                    Ok(()) => if w + tree_size(p.2.0) > MAX_EXPRESSION_WORK {
                        Err(work_message())
                    } else {
                        Ok(w + tree_size(p.2.0))
                    },
                },
                _ => Ok(w),
            },
        }
    }
}

/// Module definitions checked in order: unique names, unique ports, unique
/// non-reserved parameters within the count limit, and well-dimensioned
/// parameter formulas; returns the work spent.
pub open spec fn modules_spec(mods: Seq<ModuleView>, n: int) -> Result<int, Seq<char>>
    decreases n,
{
    if n <= 0 {
        Ok(0)
    } else {
        match modules_spec(mods, n - 1) {
            Err(e) => Err(e),
            Ok(w) => {
                let m = mods[n - 1];
                let units = declarations(m.2);
                if module_find(mods.take(n - 1), m.0) is Some {
                    Err("Duplicate module definition: "@ + m.0)
                } else if has_repeat(m.1) {
                    Err("Module '"@ + m.0 + "': duplicate interface port"@)
                } else if has_repeat(unit_names(units)) || unit_names(units).contains("pi"@) || units.len()
                    > MAX_PARAMETERS {
                    Err("Module '"@ + m.0 + "': duplicate/reserved parameter or parameter count limit exceeded"@)
                } else {
                    module_params_spec(m.0, m.2, units, w, m.2.len() as int)
                }
            },
        }
    }
}

/// The statements of the flattened program, or why elaboration stopped.
pub open spec fn flatten_spec(p: Program) -> Result<Seq<StmtView>, Seq<char>> {
    let mods = module_views(p.modules@);
    let stmts = stmt_views(p.statements@);
    match modules_spec(mods, mods.len() as int) {
        Err(e) => Err(e),
        Ok(w) => {
            let root: ScopeView = (seq![], declarations(stmts), seq![], seq![]);
            match expand_spec(mods, (seq![], seq![], w), stmts, root, seq![]) {
                Err(e) => Err(e),
                Ok(st) => Ok(st.0),
            }
        },
    }
}

fn repeats(v: &Vec<String>) -> (r: bool)
    ensures
        r == has_repeat(views(v@)),
{
    let ghost w = views(v@);
    let mut j: usize = 0;
    while j < v.len()
        invariant
            j <= v@.len(),
            w == views(v@),
            forall|a: int, b: int| 0 <= a < b < j ==> w[a] != w[b],
        decreases v.len() - j,
    {
        let mut i: usize = 0;
        while i < j
            invariant
                i <= j < v@.len(),
                w == views(v@),
                forall|a: int| 0 <= a < i ==> w[a] != w[j as int],
            decreases j - i,
        {
            if text_is(v[i].as_str(), v[j].as_str()) {
                proof {
                    assert(w[i as int] == w[j as int]);
                }
                return true;
            }
            i = i + 1;
        }
        j = j + 1;
    }
    false
}

fn unit_repeats(u: &Vec<(String, SIUnit)>) -> (r: bool)
    ensures
        r == (has_repeat(unit_names(unit_views(u@))) || unit_names(unit_views(u@)).contains("pi"@)),
{
    let ghost w = unit_names(unit_views(u@));
    let mut j: usize = 0;
    while j < u.len()
        invariant
            j <= u@.len(),
            w == unit_names(unit_views(u@)),
            forall|a: int, b: int| 0 <= a < b < j ==> w[a] != w[b],
            forall|a: int| 0 <= a < j ==> w[a] != "pi"@,
        decreases u.len() - j,
    {
        if text_is(u[j].0.as_str(), "pi") {
            proof {
                assert(w[j as int] == "pi"@);
            }
            return true;
        }
        let mut i: usize = 0;
        while i < j
            invariant
                i <= j < u@.len(),
                w == unit_names(unit_views(u@)),
                forall|a: int| 0 <= a < i ==> w[a] != w[j as int],
            decreases j - i,
        {
            if text_is(u[i].0.as_str(), u[j].0.as_str()) {
                proof {
                    assert(w[i as int] == w[j as int]);
                }
                return true;
            }
            i = i + 1;
        }
        j = j + 1;
    }
    proof {
        if w.contains("pi"@) {
            let a = choose|a: int| 0 <= a < w.len() && w[a] == "pi"@;
        }
    }
    false
}

fn check_module_params(m: &ModuleDef, units: &Vec<(String, SIUnit)>, work: usize) -> (r: Result<usize, String>)
    requires
        work <= MAX_EXPRESSION_WORK,
    ensures
        match module_params_spec(
            m.name@,
            stmt_views(m.statements@),
            unit_views(units@),
            work as int,
            m.statements@.len() as int,
        ) {
            Ok(w) => r matches Ok(x) && x as int == w && x <= MAX_EXPRESSION_WORK,
            Err(e) => r matches Err(x) && x@ == e,
        },
{
    let ghost sv = stmt_views(m.statements@);
    let mut w = work;
    let mut k: usize = 0;
    while k < m.statements.len()
        invariant
            k <= m.statements@.len(),
            sv == stmt_views(m.statements@),
            w <= MAX_EXPRESSION_WORK,
            module_params_spec(m.name@, sv, unit_views(units@), work as int, k as int) == Ok::<int, Seq<char>>(w as int),
        decreases m.statements.len() - k,
    {
        proof {
            assert(sv[k as int] == stmt_view(m.statements@[k as int]));
        }
        match &m.statements[k] {
            Statement::Param(p) => {
                match p.expression.validate_units(units, p.unit) {
                    Err(e) => {
                        let mut msg = owned("Module '");
                        append_str(&mut msg, m.name.as_str());
                        append_str(&mut msg, "', parameter '");
                        append_str(&mut msg, p.name.as_str());
                        append_str(&mut msg, "' at ");
                        append_str(&mut msg, usize_text(p.line).as_str());
                        append_str(&mut msg, ":");
                        append_str(&mut msg, usize_text(p.column).as_str());
                        append_str(&mut msg, ": ");
                        append_str(&mut msg, e.message.as_str());
                        proof {
                            lemma_params_err(m.name@, sv, unit_views(units@), work as int, k + 1, m.statements@.len() as int, msg@);
                        }
                        return Err(msg);
                    },
                    Ok(()) => {},
                }
                let n = p.expression.node_count();
                if w + n > MAX_EXPRESSION_WORK {
                    proof {
                        lemma_params_err(
                            m.name@,
                            sv,
                            unit_views(units@),
                            work as int,
                            k + 1,
                            m.statements@.len() as int,
                            work_message(),
                        );
                    }
                    return Err(owned("Module expression work limit exceeded"));
                }
                w = w + n;
            },
            _ => {},
        }
        k = k + 1;
    }
    Ok(w)
}

proof fn lemma_params_err(
    name: Seq<char>,
    sv: Seq<StmtView>,
    u: Seq<(Seq<char>, SIUnit)>,
    w0: int,
    k: int,
    n: int,
    e: Seq<char>,
)
    requires
        0 <= k <= n,
        module_params_spec(name, sv, u, w0, k) == Err::<int, Seq<char>>(e),
    ensures
        module_params_spec(name, sv, u, w0, n) == Err::<int, Seq<char>>(e),
    decreases n - k,
{
    if n > k {
        lemma_params_err(name, sv, u, w0, k, n - 1, e);
    }
}

proof fn lemma_modules_err(mods: Seq<ModuleView>, k: int, n: int, e: Seq<char>)
    requires
        0 <= k <= n,
        modules_spec(mods, k) == Err::<int, Seq<char>>(e),
    ensures
        modules_spec(mods, n) == Err::<int, Seq<char>>(e),
    decreases n - k,
{
    if n > k {
        lemma_modules_err(mods, k, n - 1, e);
    }
}

/// Whether one of the first `i` modules has this name.
fn defined_before(mods: &Vec<ModuleDef>, i: usize, name: &str) -> (r: bool)
    requires
        i <= mods@.len(),
    ensures
        r == module_find(module_views(mods@).take(i as int), name@) is Some,
{
    let ghost t = module_views(mods@).take(i as int);
    let mut j: usize = 0;
    proof {
        assert(t.skip(0) =~= t);
    }
    while j < i
        invariant
            j <= i <= mods@.len(),
            t == module_views(mods@).take(i as int),
            (module_find(t, name@) is Some) == (module_find(t.skip(j as int), name@) is Some),
        decreases i - j,
    {
        proof {
            assert(t.skip(j as int).drop_first() =~= t.skip(j + 1));
            assert(t.skip(j as int)[0] == module_views(mods@)[j as int]);
        }
        if text_is(mods[j].name.as_str(), name) {
            return true;
        }
        j = j + 1;
    }
    proof {
        assert(t.skip(i as int).len() == 0);
    }
    false
}

/// Checks every module definition; returns the expression work spent.
fn check_modules(mods: &Vec<ModuleDef>) -> (r: Result<usize, String>)
    ensures
        match modules_spec(module_views(mods@), mods@.len() as int) {
            Ok(w) => r matches Ok(x) && x as int == w && x <= MAX_EXPRESSION_WORK,
            Err(e) => r matches Err(x) && x@ == e,
        },
{
    let ghost mv = module_views(mods@);
    let mut work: usize = 0;
    let mut i: usize = 0;
    while i < mods.len()
        invariant
            i <= mods@.len(),
            mv == module_views(mods@),
            work <= MAX_EXPRESSION_WORK,
            modules_spec(mv, i as int) == Ok::<int, Seq<char>>(work as int),
        decreases mods.len() - i,
    {
        let m = &mods[i];
        proof {
            assert(mv[i as int] == (m.name@, views(m.pins@), stmt_views(m.statements@)));
        }
        let seen = defined_before(mods, i, m.name.as_str());
        if seen {
            let mut msg = owned("Duplicate module definition: ");
            append_str(&mut msg, m.name.as_str());
            proof {
                lemma_modules_err(mv, i + 1, mods@.len() as int, msg@);
            }
            return Err(msg);
        }
        if repeats(&m.pins) {
            let mut msg = owned("Module '");
            append_str(&mut msg, m.name.as_str());
            append_str(&mut msg, "': duplicate interface port");
            proof {
                lemma_modules_err(mv, i + 1, mods@.len() as int, msg@);
            }
            return Err(msg);
        }
        let units = declarations_of(&m.statements);
        proof {
            assert(unit_views(units@).len() == units@.len());
        }
        if unit_repeats(&units) || units.len() > MAX_PARAMETERS {
            let mut msg = owned("Module '");
            append_str(&mut msg, m.name.as_str());
            append_str(&mut msg, "': duplicate/reserved parameter or parameter count limit exceeded");
            proof {
                lemma_modules_err(mv, i + 1, mods@.len() as int, msg@);
            }
            return Err(msg);
        }
        match check_module_params(m, &units, work) {
            Err(e) => {
                proof {
                    lemma_modules_err(mv, i + 1, mods@.len() as int, e@);
                }
                return Err(e);
            },
            Ok(w) => {
                work = w;
            },
        }
        i = i + 1;
    }
    Ok(work)
}

impl Program {
    /// Expands every module instance into one flat program: module definitions
    /// are checked, instances are elaborated from the root statements, and the
    /// model declarations are carried over unchanged.
    pub fn flatten(&self) -> (r: Result<Program, String>)
        ensures
            match flatten_spec(*self) {
                Ok(out) => r matches Ok(q) && stmt_views(q.statements@) == out && q.modules@.len() == 0
                    && include_views(q.model_includes@) == include_views(self.model_includes@)
                    && model_decl_views(q.models@) == model_decl_views(self.models@)
                    && subcircuit_views(q.subcircuits@) == subcircuit_views(self.subcircuits@)
                    && external_views(q.external_subcircuits@) == external_views(self.external_subcircuits@),
                Err(e) => r matches Err(m) && m@ == e,
            },
    {
        let work = match check_modules(&self.modules) {
            Err(e) => {
                return Err(e);
            },
            Ok(w) => w,
        };
        let root = Scope {
            path: Vec::new(),
            units: declarations_of(&self.statements),
            ports: Vec::new(),
            nets: Vec::new(),
        };
        proof {
            assert(scope_view(root) =~= (Seq::<Seq<char>>::empty(), declarations(stmt_views(self.statements@)), Seq::<Seq<char>>::empty(), Seq::<Seq<char>>::empty()));
        }
        let mut elaborator = Elaborator { output: Vec::new(), identities: Vec::new(), work };
        proof {
            assert(elaborator.state() =~= (Seq::<StmtView>::empty(), Seq::<(Seq<char>, Seq<Seq<char>>)>::empty(), work as int));
        }
        let mut stack: Vec<String> = Vec::new();
        proof {
            assert(views(stack@) =~= Seq::<Seq<char>>::empty());
        }
        match elaborator.expand(&self.modules, &self.statements, &root, &mut stack) {
            Err(e) => {
                return Err(e);
            },
            Ok(()) => {},
        }
        Ok(
            Program {
                modules: Vec::new(),
                model_includes: dup_includes(&self.model_includes),
                models: dup_model_decls(&self.models),
                subcircuits: dup_subcircuits(&self.subcircuits),
                external_subcircuits: dup_externals(&self.external_subcircuits),
                statements: elaborator.output,
            },
        )
    }
}


// ---------------------------------------------------------------------------
// Laws.

/// No statement of the sequence instantiates a module.
pub open spec fn no_instances(v: Seq<StmtView>) -> bool {
    forall|i: int| 0 <= i < v.len() ==> !(#[trigger] v[i] is Use)
}

proof fn lemma_emit_push(st: ElabState, v: StmtView, path: Seq<Seq<char>>)
    requires
        emit_spec(st, v, path) is Ok,
    ensures
        emit_spec(st, v, path)->Ok_0.0 == st.0.push(v),
        emit_spec(st, v, path)->Ok_0.2 == st.2,
{
}

proof fn lemma_push_keeps(s: Seq<StmtView>, v: StmtView)
    requires
        no_instances(s),
        !(v is Use),
    ensures
        no_instances(s.push(v)),
{
    assert forall|i: int| 0 <= i < s.push(v).len() implies !(#[trigger] s.push(v)[i] is Use) by {
        if i < s.len() {
            assert(s.push(v)[i] == s[i]);
        }
    }
}

proof fn lemma_step_no_instances(mods: Seq<ModuleView>, st: ElabState, s: StmtView, sc: ScopeView, stack: Seq<Seq<char>>)
    requires
        no_instances(st.0),
        step_spec(mods, st, s, sc, stack) is Ok,
    ensures
        no_instances(step_spec(mods, st, s, sc, stack)->Ok_0.0),
    decreases nesting_measure(stack), 0nat,
{
    let pp = parameter_prefix(sc.0);
    let prefix = name_prefix(sc.0);
    match s {
        StmtView::Param(p) => {
            let out = param_out(p, sc);
            let w = st.2 + tree_size(out.2.0);
            lemma_emit_push((st.0, st.1, w), StmtView::Param(out), sc.0);
            lemma_push_keeps(st.0, StmtView::Param(out));
        },
        StmtView::Decl(d) => {
            let v = StmtView::Decl(decl_out(d, sc));
            match d.4 {
                Some(e) => lemma_emit_push((st.0, st.1, st.2 + tree_size(e.0)), v, sc.0),
                None => lemma_emit_push(st, v, sc.0),
            }
            lemma_push_keeps(st.0, v);
        },
        StmtView::Net(n) => {
            lemma_emit_push(st, StmtView::Net(prefix + n), sc.0);
            lemma_push_keeps(st.0, StmtView::Net(prefix + n));
        },
        StmtView::Connect(pins) => {
            let mapped = map_pins(pins, sc, pins.len() as int)->Ok_0;
            lemma_emit_push(st, StmtView::Connect(mapped), sc.0);
            lemma_push_keeps(st.0, StmtView::Connect(mapped));
        },
        StmtView::Use(u) => {
            let mi = module_find(mods, u.0)->0;
            let m = mods[mi];
            let cpath = sc.0.push(u.1);
            let child: ScopeView = (cpath, declarations(m.2), m.1, local_nets(m.2));
            let ovs = overrides_spec(sc.1, child.1, u.2, scope_label(cpath), pp, u.2.len() as int)->Ok_0;
            let d = StmtView::Decl((ComponentType::ModulePort, prefix + u.1, None, Some(u.0), None, None, m.1, cpath));
            lemma_emit_push(st, d, sc.0);
            lemma_push_keeps(st.0, d);
            let st2 = emit_spec(st, d, sc.0)->Ok_0;
            lemma_expand_no_instances(mods, st2, effective_spec(m.2, ovs), child, stack.push(u.0));
        },
        StmtView::Assert(_) | StmtView::Simulate(_) => {
            lemma_emit_push(st, s, sc.0);
            lemma_push_keeps(st.0, s);
        },
    }
}

proof fn lemma_expand_no_instances(
    mods: Seq<ModuleView>,
    st: ElabState,
    stmts: Seq<StmtView>,
    sc: ScopeView,
    stack: Seq<Seq<char>>,
)
    requires
        no_instances(st.0),
        expand_spec(mods, st, stmts, sc, stack) is Ok,
    ensures
        no_instances(expand_spec(mods, st, stmts, sc, stack)->Ok_0.0),
    decreases nesting_measure(stack), stmts.len(),
{
    if stmts.len() > 0 {
        lemma_step_no_instances(mods, st, stmts[0], sc, stack);
        let st2 = step_spec(mods, st, stmts[0], sc, stack)->Ok_0;
        lemma_expand_no_instances(mods, st2, stmts.drop_first(), sc, stack);
    }
}

/// A flattened program instantiates no module: every instance was expanded.
pub proof fn lemma_flatten_expands_every_instance(p: Program)
    requires
        flatten_spec(p) is Ok,
    ensures
        no_instances(flatten_spec(p)->Ok_0),
{
    let mods = module_views(p.modules@);
    let stmts = stmt_views(p.statements@);
    let w = modules_spec(mods, mods.len() as int)->Ok_0;
    let root: ScopeView = (seq![], declarations(stmts), seq![], seq![]);
    lemma_expand_no_instances(mods, (seq![], seq![], w), stmts, root, seq![]);
}

/// Qualifying with the empty prefix changes nothing.
pub proof fn lemma_qualify_empty(t: crate::expression::Tree)
    ensures
        qualify_tree(t, seq![]) == t,
    decreases t,
{
    match t {
        crate::expression::Tree::Name(n) => {
            assert(Seq::<char>::empty() + n =~= n);
        },
        crate::expression::Tree::Unary(_, o) => lemma_qualify_empty(*o),
        crate::expression::Tree::Binary(_, l, r) => {
            lemma_qualify_empty(*l);
            lemma_qualify_empty(*r);
        },
        _ => {},
    }
}

/// A root statement that elaboration passes through: no instance, and a
/// parameter not bound to any instance path.
pub open spec fn flat_statement(s: StmtView) -> bool {
    match s {
        StmtView::Use(_) => false,
        StmtView::Param(p) => p.5.len() == 0,
        _ => true,
    }
}

/// Expression work of root statements: parameter formulas and component values.
pub open spec fn flat_work(stmts: Seq<StmtView>) -> int
    decreases stmts.len(),
{
    if stmts.len() == 0 {
        0
    } else {
        (match stmts[0] {
            StmtView::Param(p) => tree_size(p.2.0) as int,
            StmtView::Decl(d) => match d.4 {
                Some(e) => tree_size(e.0) as int,
                None => 0,
            },
            _ => 0,
        }) + flat_work(stmts.drop_first())
    }
}

proof fn lemma_flat_work_nonneg(stmts: Seq<StmtView>)
    ensures
        flat_work(stmts) >= 0,
    decreases stmts.len(),
{
    if stmts.len() > 0 {
        lemma_flat_work_nonneg(stmts.drop_first());
    }
}

proof fn lemma_root_pins(pins: Seq<(Seq<char>, Seq<char>)>, sc: ScopeView, n: int)
    requires
        sc.0.len() == 0,
        0 <= n <= pins.len(),
    ensures
        map_pins(pins, sc, n) == Ok::<Seq<(Seq<char>, Seq<char>)>, Seq<char>>(pins.take(n)),
    decreases n,
{
    if n > 0 {
        lemma_root_pins(pins, sc, n - 1);
        let p = pins[n - 1];
        assert(name_prefix(sc.0) =~= Seq::<char>::empty());
        if p.0.len() > 0 {
            assert(Seq::<char>::empty() + p.0 =~= p.0);
            assert((name_prefix(sc.0) + p.0, p.1) == p);
        }
        assert(map_pin(p, sc) == Ok::<(Seq<char>, Seq<char>), Seq<char>>(p));
        assert(pins.take(n - 1).push(p) =~= pins.take(n));
    } else {
        assert(pins.take(0) =~= Seq::<(Seq<char>, Seq<char>)>::empty());
    }
}

proof fn lemma_expand_flat(
    mods: Seq<ModuleView>,
    st: ElabState,
    stmts: Seq<StmtView>,
    sc: ScopeView,
)
    requires
        sc.0.len() == 0,
        forall|i: int| 0 <= i < st.1.len() ==> (#[trigger] st.1[i]).1.len() == 0,
        forall|i: int| 0 <= i < stmts.len() ==> flat_statement(#[trigger] stmts[i]),
        st.0.len() + stmts.len() <= MAX_EXPANDED_STATEMENTS,
        st.2 + flat_work(stmts) <= MAX_EXPRESSION_WORK,
    ensures
        expand_spec(mods, st, stmts, sc, seq![]) matches Ok(st2) && st2.0 == st.0 + stmts,
    decreases stmts.len(),
{
    if stmts.len() == 0 {
        assert(st.0 + stmts =~= st.0);
    } else {
        let s = stmts[0];
        assert(flat_statement(stmts[0]));
        lemma_flat_work_nonneg(stmts.drop_first());
        assert(name_prefix(sc.0) =~= Seq::<char>::empty());
        assert(parameter_prefix(sc.0) =~= Seq::<char>::empty());
        // Emitting at the root never collides: every recorded path is the root path.
        assert forall|n: Seq<char>| #[trigger] ident_lookup(st.1, n) is Some implies ident_lookup(st.1, n)->0 == sc.0 by {
            lemma_ident_root(st.1, n);
        }
        let st2 = step_spec(mods, st, s, sc, seq![]);
        match s {
            StmtView::Param(p) => {
                match p.2 {
                    _ => {},
                }
                lemma_qualify_empty(p.2.0);
                assert(Seq::<char>::empty() + p.0 =~= p.0);
                assert(p.5 =~= sc.0);
                assert(param_out(p, sc) == p);
            },
            StmtView::Decl(d) => {
                assert(Seq::<char>::empty() + d.1 =~= d.1);
                match d.4 {
                    Some(e) => lemma_qualify_empty(e.0),
                    None => {},
                }
                assert(decl_out(d, sc) == d);
            },
            StmtView::Net(n) => {
                assert(Seq::<char>::empty() + n =~= n);
            },
            StmtView::Connect(pins) => {
                lemma_root_pins(pins, sc, pins.len() as int);
                assert(pins.take(pins.len() as int) =~= pins);
            },
            _ => {},
        }
        assert(st2 matches Ok(x) && x.0 == st.0.push(s));
        let x = st2->Ok_0;
        assert forall|i: int| 0 <= i < x.1.len() implies (#[trigger] x.1[i]).1.len() == 0 by {
            if i < st.1.len() {
                assert(x.1[i] == st.1[i]);
            }
        }
        assert forall|i: int| 0 <= i < stmts.drop_first().len() implies flat_statement(#[trigger] stmts.drop_first()[i]) by {
            assert(stmts.drop_first()[i] == stmts[i + 1]);
        }
        lemma_expand_flat(mods, x, stmts.drop_first(), sc);
        assert(x.0 + stmts.drop_first() =~= st.0 + stmts);
    }
}

proof fn lemma_ident_root(ids: Seq<(Seq<char>, Seq<Seq<char>>)>, n: Seq<char>)
    requires
        forall|i: int| 0 <= i < ids.len() ==> (#[trigger] ids[i]).1.len() == 0,
    ensures
        ident_lookup(ids, n) matches Some(p) ==> p == Seq::<Seq<char>>::empty(),
    decreases ids.len(),
{
    if ids.len() > 0 {
        assert(ids[0].1 =~= Seq::<Seq<char>>::empty());
        assert forall|i: int| 0 <= i < ids.drop_first().len() implies (#[trigger] ids.drop_first()[i]).1.len() == 0 by {
            assert(ids.drop_first()[i] == ids[i + 1]);
        }
        lemma_ident_root(ids.drop_first(), n);
    }
}

/// A program without modules whose statements are all root statements (no
/// instance, no parameter bound to an instance path) comes out of elaboration
/// unchanged, within the statement and work limits: `flatten` then returns `Ok`
/// with the same statements, as its contract carries this result over.
pub proof fn lemma_flatten_flat_program(p: Program)
    requires
        p.modules@.len() == 0,
        forall|i: int| 0 <= i < p.statements@.len() ==> flat_statement(#[trigger] stmt_views(p.statements@)[i]),
        p.statements@.len() <= MAX_EXPANDED_STATEMENTS,
        flat_work(stmt_views(p.statements@)) <= MAX_EXPRESSION_WORK,
    ensures
        flatten_spec(p) == Ok::<Seq<StmtView>, Seq<char>>(stmt_views(p.statements@)),
{
    let mods = module_views(p.modules@);
    let stmts = stmt_views(p.statements@);
    assert(mods.len() == 0);
    let root: ScopeView = (seq![], declarations(stmts), seq![], seq![]);
    lemma_expand_flat(mods, (seq![], seq![], 0), stmts, root);
    assert(Seq::<StmtView>::empty() + stmts =~= stmts);
}

} // verus!
