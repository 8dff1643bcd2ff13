//! Source-level syntax tree of a Kessetsu program.
use crate::expression::{tree_size, Expression, ParameterDecl, Tree};
use crate::ir::{opt_view, views, SIUnit};
use vstd::prelude::*;

verus! {

#[derive(Debug, Clone, Copy, PartialEq, Eq, Structural)]
pub enum ComponentType {
    Resistor,
    Source,
    CurrentSource,
    Capacitor,
    Inductor,
    Diode,
    Transistor,
    Mosfet,
    OpAmp,
    ExternalDevice,
    ModulePort,
}

#[derive(Debug, Clone)]
pub struct ComponentDecl {
    pub comp_type: ComponentType,
    pub name: String,
    pub subtype: Option<String>,
    pub value: Option<String>,
    pub value_expression: Option<Expression>,
    pub waveform_expression: Option<WaveformCall>,
    pub interface_pins: Vec<String>,
    /// Structured identity of a virtual module interface; not an electrical ID.
    pub instance_path: Vec<String>,
}

#[derive(Debug, Clone)]
pub struct PinRef {
    pub component: String,
    pub pin: String,
}

#[derive(Debug, Clone)]
pub struct Connection {
    pub pins: Vec<PinRef>,
}

#[derive(Debug, Clone)]
pub struct NetDecl {
    pub name: String,
}

#[derive(Debug, Clone, Copy, PartialEq, Eq, Structural)]
pub enum Cmp {
    Lt,
    Gt,
    Eq,
    Le,
    Ge,
}

#[derive(Debug, Clone)]
pub struct AssertStmt {
    pub metric: String,
    pub signal: String,
    pub cmp: Cmp,
    pub threshold: String,
    pub threshold_expression: Option<Expression>,
    pub numeric_expressions: Vec<IndexedExpression>,
}

#[derive(Debug, Clone)]
pub struct UseStmt {
    pub module_name: String,
    pub inst_name: String,
    pub overrides: Vec<ParameterOverride>,
}

#[derive(Debug, Clone)]
pub struct ParameterOverride {
    pub name: String,
    pub expression: Expression,
    pub line: usize,
    pub column: usize,
}

#[derive(Debug, Clone)]
pub struct SimulateStmt {
    pub cmd: String,
    pub args: Vec<String>,
    pub numeric_expressions: Vec<IndexedExpression>,
}

/// An expression bound to a positional argument.
#[derive(Debug, Clone)]
pub struct IndexedExpression {
    pub index: usize,
    pub expression: Expression,
}

#[derive(Debug, Clone)]
pub struct WaveformCall {
    pub name: String,
    pub args: Vec<NumericArgument>,
}

#[derive(Debug, Clone)]
pub struct NumericArgument {
    pub value: String,
    pub expression: Option<Expression>,
}

#[derive(Debug, Clone)]
pub struct NamedValue {
    pub name: String,
    pub value: String,
}

#[derive(Debug, Clone, Copy, PartialEq, Eq, Structural)]
pub enum ModelDeclKind {
    Diode,
    BJT,
    MOSFET,
}

#[derive(Debug, Clone)]
pub struct ModelDecl {
    pub kind: ModelDeclKind,
    pub name: String,
    pub polarity: Option<String>,
    pub parameters: Vec<NamedValue>,
}

#[derive(Debug, Clone)]
pub struct SubcircuitDecl {
    pub kind: String,
    pub name: String,
    pub pins: Vec<String>,
    pub parameters: Vec<NamedValue>,
}

#[derive(Debug, Clone)]
pub struct ExternalSubcircuitDecl {
    pub kind: String,
    pub name: String,
    pub pins: Vec<String>,
    pub parameters: Vec<NamedValue>,
}

#[derive(Debug, Clone)]
pub struct ModelInclude {
    pub package: String,
    pub version: String,
}

#[derive(Debug, Clone)]
pub enum Statement {
    Param(ParameterDecl),
    Decl(ComponentDecl),
    Connect(Connection),
    Net(NetDecl),
    Assert(AssertStmt),
    Use(UseStmt),
    Simulate(SimulateStmt),
}

#[derive(Debug, Clone)]
pub struct ModuleDef {
    pub name: String,
    pub pins: Vec<String>,
    pub statements: Vec<Statement>,
}

#[derive(Debug, Clone)]
pub struct Program {
    pub modules: Vec<ModuleDef>,
    pub model_includes: Vec<ModelInclude>,
    pub models: Vec<ModelDecl>,
    pub subcircuits: Vec<SubcircuitDecl>,
    pub external_subcircuits: Vec<ExternalSubcircuitDecl>,
    pub statements: Vec<Statement>,
}

pub open spec fn opt_size(e: Option<Expression>) -> nat {
    match e {
        Some(x) => tree_size(x.tree()),
        None => 0,
    }
}

/// Total node count of the expressions bound to positional arguments.
pub open spec fn indexed_size(v: Seq<IndexedExpression>) -> nat
    decreases v.len(),
{
    if v.len() == 0 {
        0
    } else {
        indexed_size(v.drop_last()) + tree_size(v.last().expression.tree())
    }
}

pub open spec fn override_size(v: Seq<ParameterOverride>) -> nat
    decreases v.len(),
{
    if v.len() == 0 {
        0
    } else {
        override_size(v.drop_last()) + tree_size(v.last().expression.tree())
    }
}

pub open spec fn argument_size(v: Seq<NumericArgument>) -> nat
    decreases v.len(),
{
    if v.len() == 0 {
        0
    } else {
        argument_size(v.drop_last()) + opt_size(v.last().expression)
    }
}

/// Node count of every expression a statement carries.
pub open spec fn statement_nodes(s: Statement) -> nat {
    match s {
        Statement::Param(p) => tree_size(p.expression.tree()),
        Statement::Decl(d) => opt_size(d.value_expression) + match d.waveform_expression {
            Some(call) => argument_size(call.args@),
            None => 0,
        },
        Statement::Use(u) => override_size(u.overrides@),
        Statement::Simulate(a) => indexed_size(a.numeric_expressions@),
        Statement::Assert(a) => opt_size(a.threshold_expression) + indexed_size(
            a.numeric_expressions@,
        ),
        _ => 0,
    }
}

fn opt_nodes(e: &Option<Expression>) -> (r: usize)
    ensures
        r == opt_size(*e),
{
    match e {
        Some(x) => x.node_count(),
        None => 0,
    }
}

fn indexed_nodes(v: &Vec<IndexedExpression>) -> (r: usize)
    requires
        indexed_size(v@) <= usize::MAX,
    ensures
        r == indexed_size(v@),
{
    let mut total: usize = 0;
    let mut i: usize = 0;
    assert(v@.take(0) =~= Seq::<IndexedExpression>::empty());
    while i < v.len()
        invariant
            i <= v.len(),
            total == indexed_size(v@.take(i as int)),
            indexed_size(v@) <= usize::MAX,
        decreases v.len() - i,
    {
        assert(v@.take(i + 1).drop_last() =~= v@.take(i as int));
        proof {
            lemma_indexed_prefix(v@, i + 1);
        }
        total = total + v[i].expression.node_count();
        i = i + 1;
    }
    assert(v@.take(i as int) =~= v@);
    total
}

proof fn lemma_indexed_prefix(v: Seq<IndexedExpression>, k: int)
    requires
        0 <= k <= v.len(),
    ensures
        indexed_size(v.take(k)) <= indexed_size(v),
    decreases v.len() - k,
{
    if k < v.len() {
        lemma_indexed_prefix(v, k + 1);
        assert(v.take(k + 1).drop_last() =~= v.take(k));
    } else {
        assert(v.take(k) =~= v);
    }
}

proof fn lemma_override_prefix(v: Seq<ParameterOverride>, k: int)
    requires
        0 <= k <= v.len(),
    ensures
        override_size(v.take(k)) <= override_size(v),
    decreases v.len() - k,
{
    if k < v.len() {
        lemma_override_prefix(v, k + 1);
        assert(v.take(k + 1).drop_last() =~= v.take(k));
    } else {
        assert(v.take(k) =~= v);
    }
}

proof fn lemma_argument_prefix(v: Seq<NumericArgument>, k: int)
    requires
        0 <= k <= v.len(),
    ensures
        argument_size(v.take(k)) <= argument_size(v),
    decreases v.len() - k,
{
    if k < v.len() {
        lemma_argument_prefix(v, k + 1);
        assert(v.take(k + 1).drop_last() =~= v.take(k));
    } else {
        assert(v.take(k) =~= v);
    }
}

fn override_nodes(v: &Vec<ParameterOverride>) -> (r: usize)
    requires
        override_size(v@) <= usize::MAX,
    ensures
        r == override_size(v@),
{
    let mut total: usize = 0;
    let mut i: usize = 0;
    assert(v@.take(0) =~= Seq::<ParameterOverride>::empty());
    while i < v.len()
        invariant
            i <= v.len(),
            total == override_size(v@.take(i as int)),
            override_size(v@) <= usize::MAX,
        decreases v.len() - i,
    {
        assert(v@.take(i + 1).drop_last() =~= v@.take(i as int));
        proof {
            lemma_override_prefix(v@, i + 1);
        }
        total = total + v[i].expression.node_count();
        i = i + 1;
    }
    assert(v@.take(i as int) =~= v@);
    total
}

fn argument_nodes(v: &Vec<NumericArgument>) -> (r: usize)
    requires
        argument_size(v@) <= usize::MAX,
    ensures
        r == argument_size(v@),
{
    let mut total: usize = 0;
    let mut i: usize = 0;
    assert(v@.take(0) =~= Seq::<NumericArgument>::empty());
    while i < v.len()
        invariant
            i <= v.len(),
            total == argument_size(v@.take(i as int)),
            argument_size(v@) <= usize::MAX,
        decreases v.len() - i,
    {
        assert(v@.take(i + 1).drop_last() =~= v@.take(i as int));
        proof {
            lemma_argument_prefix(v@, i + 1);
        }
        total = total + opt_nodes(&v[i].expression);
        i = i + 1;
    }
    assert(v@.take(i as int) =~= v@);
    total
}

impl Statement {
    /// Node count of every expression the statement carries.
    pub fn expression_nodes(&self) -> (r: usize)
        requires
            statement_nodes(*self) <= usize::MAX,
        ensures
            r == statement_nodes(*self),
    {
        match self {
            Statement::Param(parameter) => parameter.expression.node_count(),
            Statement::Decl(decl) => {
                let a = opt_nodes(&decl.value_expression);
                let b = match &decl.waveform_expression {
                    Some(call) => argument_nodes(&call.args),
                    None => 0,
                };
                a + b
            },
            Statement::Use(instance) => override_nodes(&instance.overrides),
            Statement::Simulate(analysis) => indexed_nodes(&analysis.numeric_expressions),
            Statement::Assert(assertion) => opt_nodes(&assertion.threshold_expression)
                + indexed_nodes(&assertion.numeric_expressions),
            _ => 0,
        }
    }
}

/// The first expression bound to argument `index`.
pub open spec fn indexed_lookup(v: Seq<IndexedExpression>, index: usize) -> Option<int> {
    if exists|i: int| 0 <= i < v.len() && v[i].index == index {
        Some(
            choose|i: int|
                0 <= i < v.len() && v[i].index == index && forall|j: int|
                    0 <= j < i ==> v[j].index != index,
        )
    } else {
        None
    }
}

fn position_of(v: &Vec<IndexedExpression>, index: usize) -> (r: Option<usize>)
    ensures
        match r {
            Some(i) => indexed_lookup(v@, index) == Some(i as int) && i < v.len(),
            None => indexed_lookup(v@, index) is None,
        },
{
    let mut i: usize = 0;
    while i < v.len()
        invariant
            i <= v.len(),
            forall|j: int| 0 <= j < i ==> v@[j].index != index,
        decreases v.len() - i,
    {
        if v[i].index == index {
            proof {
                assert(v@[i as int].index == index);
                let k = choose|k: int|
                    0 <= k < v@.len() && v@[k].index == index && forall|j: int|
                        0 <= j < k ==> v@[j].index != index;
                if k > i {
                    assert(v@[i as int].index != index);
                }
                if k < i {
                    assert(v@[k].index != index);
                }
            }
            return Some(i);
        }
        i = i + 1;
    }
    None
}

impl SimulateStmt {
    /// The expression bound to argument `index`, if any.
    pub fn numeric_expression(&self, index: usize) -> (r: Option<&Expression>)
        ensures
            match indexed_lookup(self.numeric_expressions@, index) {
                Some(i) => r == Some(&self.numeric_expressions@[i].expression),
                None => r is None,
            },
    {
        match position_of(&self.numeric_expressions, index) {
            Some(i) => Some(&self.numeric_expressions[i].expression),
            None => None,
        }
    }
}


// ---------------------------------------------------------------------------
// Views: what a syntax-tree value says, field by field.

/// An expression: its tree and its source text.
pub type ExprView = (Tree, Seq<char>);

pub open spec fn expr_view(e: Expression) -> ExprView {
    (e.tree(), e.source_text())
}

pub open spec fn opt_expr_view(e: Option<Expression>) -> Option<ExprView> {
    match e {
        Some(x) => Some(expr_view(x)),
        None => None,
    }
}

pub open spec fn arg_views(v: Seq<NumericArgument>) -> Seq<(Seq<char>, Option<ExprView>)> {
    v.map_values(|a: NumericArgument| (a.value@, opt_expr_view(a.expression)))
}

pub open spec fn wave_view(w: Option<WaveformCall>) -> Option<(Seq<char>, Seq<(Seq<char>, Option<ExprView>)>)> {
    match w {
        Some(c) => Some((c.name@, arg_views(c.args@))),
        None => None,
    }
}

pub open spec fn indexed_views(v: Seq<IndexedExpression>) -> Seq<(usize, ExprView)> {
    v.map_values(|x: IndexedExpression| (x.index, expr_view(x.expression)))
}

pub open spec fn override_views(v: Seq<ParameterOverride>) -> Seq<(Seq<char>, ExprView, usize, usize)> {
    v.map_values(|o: ParameterOverride| (o.name@, expr_view(o.expression), o.line, o.column))
}

pub open spec fn pin_views(v: Seq<PinRef>) -> Seq<(Seq<char>, Seq<char>)> {
    v.map_values(|p: PinRef| (p.component@, p.pin@))
}

/// Name, unit, expression, line, column, instance path and overridden default.
pub type ParamView = (Seq<char>, SIUnit, ExprView, usize, usize, Seq<Seq<char>>, Option<Seq<char>>);

pub open spec fn param_view(p: ParameterDecl) -> ParamView {
    (p.name@, p.unit, expr_view(p.expression), p.line, p.column, views(p.instance_path@), opt_view(p.default_expression))
}

/// Type, name, subtype, value, value expression, waveform, interface pins, instance path.
pub type DeclView = (
    ComponentType,
    Seq<char>,
    Option<Seq<char>>,
    Option<Seq<char>>,
    Option<ExprView>,
    Option<(Seq<char>, Seq<(Seq<char>, Option<ExprView>)>)>,
    Seq<Seq<char>>,
    Seq<Seq<char>>,
);

pub open spec fn decl_view(d: ComponentDecl) -> DeclView {
    (
        d.comp_type,
        d.name@,
        opt_view(d.subtype),
        opt_view(d.value),
        opt_expr_view(d.value_expression),
        wave_view(d.waveform_expression),
        views(d.interface_pins@),
        views(d.instance_path@),
    )
}

pub type AssertView = (Seq<char>, Seq<char>, Cmp, Seq<char>, Option<ExprView>, Seq<(usize, ExprView)>);

pub open spec fn assert_view(a: AssertStmt) -> AssertView {
    (a.metric@, a.signal@, a.cmp, a.threshold@, opt_expr_view(a.threshold_expression), indexed_views(a.numeric_expressions@))
}

pub type SimulateView = (Seq<char>, Seq<Seq<char>>, Seq<(usize, ExprView)>);

pub open spec fn simulate_view(s: SimulateStmt) -> SimulateView {
    (s.cmd@, views(s.args@), indexed_views(s.numeric_expressions@))
}

pub type UseView = (Seq<char>, Seq<char>, Seq<(Seq<char>, ExprView, usize, usize)>);

pub open spec fn use_view(u: UseStmt) -> UseView {
    (u.module_name@, u.inst_name@, override_views(u.overrides@))
}

pub enum StmtView {
    Param(ParamView),
    Decl(DeclView),
    Connect(Seq<(Seq<char>, Seq<char>)>),
    Net(Seq<char>),
    Assert(AssertView),
    Use(UseView),
    Simulate(SimulateView),
}

pub open spec fn stmt_view(s: Statement) -> StmtView {
    match s {
        Statement::Param(p) => StmtView::Param(param_view(p)),
        Statement::Decl(d) => StmtView::Decl(decl_view(d)),
        Statement::Connect(c) => StmtView::Connect(pin_views(c.pins@)),
        Statement::Net(n) => StmtView::Net(n.name@),
        Statement::Assert(a) => StmtView::Assert(assert_view(a)),
        Statement::Use(u) => StmtView::Use(use_view(u)),
        Statement::Simulate(s) => StmtView::Simulate(simulate_view(s)),
    }
}

pub open spec fn stmt_views(v: Seq<Statement>) -> Seq<StmtView> {
    v.map_values(|s: Statement| stmt_view(s))
}

pub open spec fn named_views(v: Seq<NamedValue>) -> Seq<(Seq<char>, Seq<char>)> {
    v.map_values(|n: NamedValue| (n.name@, n.value@))
}

pub open spec fn include_views(v: Seq<ModelInclude>) -> Seq<(Seq<char>, Seq<char>)> {
    v.map_values(|i: ModelInclude| (i.package@, i.version@))
}

pub open spec fn model_decl_views(v: Seq<ModelDecl>) -> Seq<(ModelDeclKind, Seq<char>, Option<Seq<char>>, Seq<(Seq<char>, Seq<char>)>)> {
    v.map_values(|m: ModelDecl| (m.kind, m.name@, opt_view(m.polarity), named_views(m.parameters@)))
}

pub open spec fn subcircuit_views(v: Seq<SubcircuitDecl>) -> Seq<(Seq<char>, Seq<char>, Seq<Seq<char>>, Seq<(Seq<char>, Seq<char>)>)> {
    v.map_values(|s: SubcircuitDecl| (s.kind@, s.name@, views(s.pins@), named_views(s.parameters@)))
}

pub open spec fn external_views(v: Seq<ExternalSubcircuitDecl>) -> Seq<(Seq<char>, Seq<char>, Seq<Seq<char>>, Seq<(Seq<char>, Seq<char>)>)> {
    v.map_values(|s: ExternalSubcircuitDecl| (s.kind@, s.name@, views(s.pins@), named_views(s.parameters@)))
}

// ---------------------------------------------------------------------------
// Copies that keep the view.

pub fn dup_texts(v: &Vec<String>) -> (r: Vec<String>)
    ensures
        views(r@) == views(v@),
{
    let mut r: Vec<String> = Vec::new();
    let mut i: usize = 0;
    while i < v.len()
        invariant
            i <= v@.len(),
            r@.len() == i,
            forall|k: int| 0 <= k < i ==> (#[trigger] r@[k])@ == v@[k]@,
        decreases v.len() - i,
    {
        r.push(v[i].clone());
        i = i + 1;
    }
    proof {
        assert(views(r@) =~= views(v@));
    }
    r
}

pub fn dup_opt_text(v: &Option<String>) -> (r: Option<String>)
    ensures
        opt_view(r) == opt_view(*v),
{
    match v {
        Some(s) => Some(s.clone()),
        None => None,
    }
}

pub fn dup_opt_expr(e: &Option<Expression>) -> (r: Option<Expression>)
    ensures
        opt_expr_view(r) == opt_expr_view(*e),
{
    match e {
        Some(x) => Some(x.duplicate()),
        None => None,
    }
}

fn dup_args(v: &Vec<NumericArgument>) -> (r: Vec<NumericArgument>)
    ensures
        arg_views(r@) == arg_views(v@),
{
    let mut r: Vec<NumericArgument> = Vec::new();
    let mut i: usize = 0;
    while i < v.len()
        invariant
            i <= v@.len(),
            r@.len() == i,
            forall|k: int|
                0 <= k < i ==> (#[trigger] r@[k]).value@ == v@[k].value@ && opt_expr_view(r@[k].expression)
                    == opt_expr_view(v@[k].expression),
        decreases v.len() - i,
    {
        r.push(NumericArgument { value: v[i].value.clone(), expression: dup_opt_expr(&v[i].expression) });
        i = i + 1;
    }
    proof {
        assert(arg_views(r@) =~= arg_views(v@));
    }
    r
}

fn dup_wave(w: &Option<WaveformCall>) -> (r: Option<WaveformCall>)
    ensures
        wave_view(r) == wave_view(*w),
{
    match w {
        Some(c) => Some(WaveformCall { name: c.name.clone(), args: dup_args(&c.args) }),
        None => None,
    }
}

fn dup_indexed(v: &Vec<IndexedExpression>) -> (r: Vec<IndexedExpression>)
    ensures
        indexed_views(r@) == indexed_views(v@),
{
    let mut r: Vec<IndexedExpression> = Vec::new();
    let mut i: usize = 0;
    while i < v.len()
        invariant
            i <= v@.len(),
            r@.len() == i,
            forall|k: int|
                0 <= k < i ==> (#[trigger] r@[k]).index == v@[k].index && expr_view(r@[k].expression)
                    == expr_view(v@[k].expression),
        decreases v.len() - i,
    {
        r.push(IndexedExpression { index: v[i].index, expression: v[i].expression.duplicate() });
        i = i + 1;
    }
    proof {
        assert(indexed_views(r@) =~= indexed_views(v@));
    }
    r
}

fn dup_overrides(v: &Vec<ParameterOverride>) -> (r: Vec<ParameterOverride>)
    ensures
        override_views(r@) == override_views(v@),
{
    let mut r: Vec<ParameterOverride> = Vec::new();
    let mut i: usize = 0;
    while i < v.len()
        invariant
            i <= v@.len(),
            r@.len() == i,
            forall|k: int|
                0 <= k < i ==> (#[trigger] r@[k]).name@ == v@[k].name@ && expr_view(r@[k].expression)
                    == expr_view(v@[k].expression) && r@[k].line == v@[k].line && r@[k].column == v@[k].column,
        decreases v.len() - i,
    {
        r.push(
            ParameterOverride {
                name: v[i].name.clone(),
                expression: v[i].expression.duplicate(),
                line: v[i].line,
                column: v[i].column,
            },
        );
        i = i + 1;
    }
    proof {
        assert(override_views(r@) =~= override_views(v@));
    }
    r
}

pub fn dup_pins(v: &Vec<PinRef>) -> (r: Vec<PinRef>)
    ensures
        pin_views(r@) == pin_views(v@),
{
    let mut r: Vec<PinRef> = Vec::new();
    let mut i: usize = 0;
    while i < v.len()
        invariant
            i <= v@.len(),
            r@.len() == i,
            forall|k: int| 0 <= k < i ==> (#[trigger] r@[k]).component@ == v@[k].component@ && r@[k].pin@ == v@[k].pin@,
        decreases v.len() - i,
    {
        r.push(PinRef { component: v[i].component.clone(), pin: v[i].pin.clone() });
        i = i + 1;
    }
    proof {
        assert(pin_views(r@) =~= pin_views(v@));
    }
    r
}

pub fn dup_param(p: &ParameterDecl) -> (r: ParameterDecl)
    ensures
        param_view(r) == param_view(*p),
{
    ParameterDecl {
        name: p.name.clone(),
        unit: p.unit,
        expression: p.expression.duplicate(),
        line: p.line,
        column: p.column,
        instance_path: dup_texts(&p.instance_path),
        default_expression: dup_opt_text(&p.default_expression),
    }
}

pub fn dup_decl(d: &ComponentDecl) -> (r: ComponentDecl)
    ensures
        decl_view(r) == decl_view(*d),
{
    ComponentDecl {
        comp_type: d.comp_type,
        name: d.name.clone(),
        subtype: dup_opt_text(&d.subtype),
        value: dup_opt_text(&d.value),
        value_expression: dup_opt_expr(&d.value_expression),
        waveform_expression: dup_wave(&d.waveform_expression),
        interface_pins: dup_texts(&d.interface_pins),
        instance_path: dup_texts(&d.instance_path),
    }
}

pub fn dup_statement(s: &Statement) -> (r: Statement)
    ensures
        stmt_view(r) == stmt_view(*s),
{
    match s {
        Statement::Param(p) => Statement::Param(dup_param(p)),
        Statement::Decl(d) => Statement::Decl(dup_decl(d)),
        Statement::Connect(c) => Statement::Connect(Connection { pins: dup_pins(&c.pins) }),
        Statement::Net(n) => Statement::Net(NetDecl { name: n.name.clone() }),
        Statement::Assert(a) => Statement::Assert(
            AssertStmt {
                metric: a.metric.clone(),
                signal: a.signal.clone(),
                cmp: a.cmp,
                threshold: a.threshold.clone(),
                threshold_expression: dup_opt_expr(&a.threshold_expression),
                numeric_expressions: dup_indexed(&a.numeric_expressions),
            },
        ),
        Statement::Use(u) => Statement::Use(
            UseStmt {
                module_name: u.module_name.clone(),
                inst_name: u.inst_name.clone(),
                overrides: dup_overrides(&u.overrides),
            },
        ),
        Statement::Simulate(x) => Statement::Simulate(
            SimulateStmt {
                cmd: x.cmd.clone(),
                args: dup_texts(&x.args),
                numeric_expressions: dup_indexed(&x.numeric_expressions),
            },
        ),
    }
}

pub fn dup_statements(v: &Vec<Statement>) -> (r: Vec<Statement>)
    ensures
        stmt_views(r@) == stmt_views(v@),
{
    let mut r: Vec<Statement> = Vec::new();
    let mut i: usize = 0;
    while i < v.len()
        invariant
            i <= v@.len(),
            r@.len() == i,
            forall|k: int| 0 <= k < i ==> stmt_view(#[trigger] r@[k]) == stmt_view(v@[k]),
        decreases v.len() - i,
    {
        r.push(dup_statement(&v[i]));
        i = i + 1;
    }
    proof {
        assert(stmt_views(r@) =~= stmt_views(v@));
    }
    r
}

fn dup_named(v: &Vec<NamedValue>) -> (r: Vec<NamedValue>)
    ensures
        named_views(r@) == named_views(v@),
{
    let mut r: Vec<NamedValue> = Vec::new();
    let mut i: usize = 0;
    while i < v.len()
        invariant
            i <= v@.len(),
            r@.len() == i,
            forall|k: int| 0 <= k < i ==> (#[trigger] r@[k]).name@ == v@[k].name@ && r@[k].value@ == v@[k].value@,
        decreases v.len() - i,
    {
        r.push(NamedValue { name: v[i].name.clone(), value: v[i].value.clone() });
        i = i + 1;
    }
    proof {
        assert(named_views(r@) =~= named_views(v@));
    }
    r
}

pub fn dup_includes(v: &Vec<ModelInclude>) -> (r: Vec<ModelInclude>)
    ensures
        include_views(r@) == include_views(v@),
{
    let mut r: Vec<ModelInclude> = Vec::new();
    let mut i: usize = 0;
    while i < v.len()
        invariant
            i <= v@.len(),
            r@.len() == i,
            forall|k: int| 0 <= k < i ==> (#[trigger] r@[k]).package@ == v@[k].package@ && r@[k].version@ == v@[k].version@,
        decreases v.len() - i,
    {
        r.push(ModelInclude { package: v[i].package.clone(), version: v[i].version.clone() });
        i = i + 1;
    }
    proof {
        assert(include_views(r@) =~= include_views(v@));
    }
    r
}

pub fn dup_model_decls(v: &Vec<ModelDecl>) -> (r: Vec<ModelDecl>)
    ensures
        model_decl_views(r@) == model_decl_views(v@),
{
    let mut r: Vec<ModelDecl> = Vec::new();
    let mut i: usize = 0;
    while i < v.len()
        invariant
            i <= v@.len(),
            r@.len() == i,
            forall|k: int|
                0 <= k < i ==> (#[trigger] r@[k]).kind == v@[k].kind && r@[k].name@ == v@[k].name@ && opt_view(
                    r@[k].polarity,
                ) == opt_view(v@[k].polarity) && named_views(r@[k].parameters@) == named_views(v@[k].parameters@),
        decreases v.len() - i,
    {
        r.push(
            ModelDecl {
                kind: v[i].kind,
                name: v[i].name.clone(),
                polarity: dup_opt_text(&v[i].polarity),
                parameters: dup_named(&v[i].parameters),
            },
        );
        i = i + 1;
    }
    proof {
        assert(model_decl_views(r@) =~= model_decl_views(v@));
    }
    r
}

pub fn dup_subcircuits(v: &Vec<SubcircuitDecl>) -> (r: Vec<SubcircuitDecl>)
    ensures
        subcircuit_views(r@) == subcircuit_views(v@),
{
    let mut r: Vec<SubcircuitDecl> = Vec::new();
    let mut i: usize = 0;
    while i < v.len()
        invariant
            i <= v@.len(),
            r@.len() == i,
            forall|k: int|
                0 <= k < i ==> (#[trigger] r@[k]).kind@ == v@[k].kind@ && r@[k].name@ == v@[k].name@ && views(
                    r@[k].pins@,
                ) == views(v@[k].pins@) && named_views(r@[k].parameters@) == named_views(v@[k].parameters@),
        decreases v.len() - i,
    {
        r.push(
            SubcircuitDecl {
                kind: v[i].kind.clone(),
                name: v[i].name.clone(),
                pins: dup_texts(&v[i].pins),
                parameters: dup_named(&v[i].parameters),
            },
        );
        i = i + 1;
    }
    proof {
        assert(subcircuit_views(r@) =~= subcircuit_views(v@));
    }
    r
}

pub fn dup_externals(v: &Vec<ExternalSubcircuitDecl>) -> (r: Vec<ExternalSubcircuitDecl>)
    ensures
        external_views(r@) == external_views(v@),
{
    let mut r: Vec<ExternalSubcircuitDecl> = Vec::new();
    let mut i: usize = 0;
    while i < v.len()
        invariant
            i <= v@.len(),
            r@.len() == i,
            forall|k: int|
                0 <= k < i ==> (#[trigger] r@[k]).kind@ == v@[k].kind@ && r@[k].name@ == v@[k].name@ && views(
                    r@[k].pins@,
                ) == views(v@[k].pins@) && named_views(r@[k].parameters@) == named_views(v@[k].parameters@),
        decreases v.len() - i,
    {
        r.push(
            ExternalSubcircuitDecl {
                kind: v[i].kind.clone(),
                name: v[i].name.clone(),
                pins: dup_texts(&v[i].pins),
                parameters: dup_named(&v[i].parameters),
            },
        );
        i = i + 1;
    }
    proof {
        assert(external_views(r@) =~= external_views(v@));
    }
    r
}

} // verus!
