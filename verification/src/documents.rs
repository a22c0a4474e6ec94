use vstd::prelude::*;
use vstd::string::StringExecFns;

use crate::cst::{
    has_named_children, lemma_dig_chain, lemma_forest_fits_index, lemma_forest_nested_index,
    lemma_get_parent_encloses, lemma_pickup_fits, lemma_pickup_nested, lemma_pickup_rule,
    required_children, span_fits, spans_nested, tree_fits, Cst, CstText, Span,
};
use crate::cst::LineCol;
use crate::parse::{listing_fits, lists, satysfi_parse_program, ParseError};
use crate::paths::{
    file_url, is_absolute, joined_path, parent_path, path_join, path_parent, url_file_path,
    url_to_file_path,
};
use crate::rule::Rule;

verus! {

/// The visibility of something defined in a package.
#[derive(Debug, Clone, Copy, PartialEq, Eq, Structural)]
pub enum PackageVisibility {
    /// Defined by a statement of the preamble: usable wherever the package is loaded.
    Public,
    /// Bound inside an expression: usable until the end of that binding.
    Binded,
}

/// The visibility of something defined in a module.
#[derive(Debug, Clone, Copy, PartialEq, Eq, Structural)]
pub enum ModuleVisibility {
    /// Declared `direct` in the signature: usable without the module's name.
    Direct,
    /// Declared with `val` in the signature: usable as `Module.x` or after `open Module`.
    Public,
    /// Not declared in the signature: not usable outside the module.
    Private,
    /// Bound inside an expression: usable until the end of that binding.
    Binded,
}

/// Something defined in a package: a variable, a type or a command.
#[derive(Debug)]
pub struct PackageComponent<T> {
    /// Whether it can be seen from outside.
    pub visibility: PackageVisibility,
    /// What is defined.
    pub body: T,
    /// The part of the file in which it can be used.
    pub scope: Span,
    /// Where it is defined.
    pub pos_definition: usize,
}

impl<T: View> View for PackageComponent<T> {
    type V = PackageComponent<T::V>;

    open spec fn view(&self) -> PackageComponent<T::V> {
        PackageComponent {
            visibility: self.visibility,
            body: self.body@,
            scope: self.scope,
            pos_definition: self.pos_definition,
        }
    }
}

/// Something defined in a module.
#[derive(Debug)]
pub struct ModuleComponent<T> {
    /// Whether it can be seen from outside.
    pub visibility: ModuleVisibility,
    /// What is defined.
    pub body: T,
    /// The part of the file in which it can be used.
    pub scope: Span,
    /// Where the signature declares it, if it does.
    pub pos_declaration: Option<usize>,
    /// Where it is defined.
    pub pos_definition: usize,
}

/// A variable.
#[derive(Debug)]
pub struct Variable {
    /// Its name.
    pub name: String,
    /// Its type, when known.
    pub type_: Option<String>,
    /// Where the `let` gives its type, if it does.
    pub type_declaration: Option<Span>,
}

/// What a variable amounts to.
pub struct VariableView {
    pub name: Seq<char>,
    pub type_: Option<Seq<char>>,
    pub type_declaration: Option<Span>,
}

impl View for Variable {
    type V = VariableView;

    open spec fn view(&self) -> VariableView {
        VariableView {
            name: self.name@,
            type_: match self.type_ {
                Some(t) => Some(t@),
                None => None,
            },
            type_declaration: self.type_declaration,
        }
    }
}

/// A type defined by the user.
#[derive(Debug)]
pub struct CustomType {
    /// Its name.
    pub name: String,
    /// Its definition.
    pub definition: String,
}

/// A variant of a type defined by the user.
#[derive(Debug)]
pub struct Variant {
    /// Its name.
    pub name: String,
    /// The name of the type it belongs to.
    pub typename: String,
}

/// An inline command.
#[derive(Debug)]
pub struct InlineCmd {
    /// Its name.
    pub name: String,
    /// Its type, when known.
    pub type_: Option<Vec<String>>,
    /// Where its type is given, if it is.
    pub type_declaration: Option<Span>,
}

/// A block command.
#[derive(Debug)]
pub struct BlockCmd {
    /// Its name.
    pub name: String,
    /// Its type, when known.
    pub type_: Option<Vec<String>>,
    /// Where its type is given, if it is.
    pub type_declaration: Option<Span>,
}

/// A math command.
#[derive(Debug)]
pub struct MathCmd {
    /// Its name.
    pub name: String,
    /// Its type, when known.
    pub type_: Option<Vec<String>>,
    /// Where its type is given, if it is.
    pub type_declaration: Option<Span>,
}

/// What a command amounts to.
pub struct CommandView {
    pub name: Seq<char>,
    pub type_: Option<Seq<Seq<char>>>,
    pub type_declaration: Option<Span>,
}

pub open spec fn type_view(t: Option<Vec<String>>) -> Option<Seq<Seq<char>>> {
    match t {
        Some(v) => Some(v@.map_values(|s: String| s@)),
        None => None,
    }
}

impl View for InlineCmd {
    type V = CommandView;

    open spec fn view(&self) -> CommandView {
        CommandView {
            name: self.name@,
            type_: type_view(self.type_),
            type_declaration: self.type_declaration,
        }
    }
}

impl View for MathCmd {
    type V = CommandView;

    open spec fn view(&self) -> CommandView {
        CommandView {
            name: self.name@,
            type_: type_view(self.type_),
            type_declaration: self.type_declaration,
        }
    }
}

/// What a type defined by the user amounts to.
pub struct CustomTypeView {
    pub name: Seq<char>,
    pub definition: Seq<char>,
}

impl View for CustomType {
    type V = CustomTypeView;

    open spec fn view(&self) -> CustomTypeView {
        CustomTypeView { name: self.name@, definition: self.definition@ }
    }
}

/// What a variant amounts to.
pub struct VariantView {
    pub name: Seq<char>,
    pub typename: Seq<char>,
}

impl View for Variant {
    type V = VariantView;

    open spec fn view(&self) -> VariantView {
        VariantView { name: self.name@, typename: self.typename@ }
    }
}

impl View for BlockCmd {
    type V = CommandView;

    open spec fn view(&self) -> CommandView {
        CommandView {
            name: self.name@,
            type_: type_view(self.type_),
            type_declaration: self.type_declaration,
        }
    }
}

/// A module.
#[derive(Debug)]
pub struct Module {
    /// Its name.
    pub name: String,
    /// The variables defined in it.
    pub variables: Vec<Variable>,
    /// The types defined in it.
    pub types: Vec<ModuleComponent<CustomType>>,
    /// The variants defined in it.
    pub variants: Vec<ModuleComponent<Variant>>,
    /// The inline commands defined in it.
    pub inline_cmds: Vec<ModuleComponent<InlineCmd>>,
    /// The block commands defined in it.
    pub block_cmds: Vec<ModuleComponent<BlockCmd>>,
    /// The math commands defined in it.
    pub math_cmds: Vec<ModuleComponent<MathCmd>>,
}

// ---------------------------------------------------------------------------------------------
// Where a definition stands.
/// Which places a definition is looked up in.
#[derive(Clone, Copy, PartialEq, Eq, Structural)]
pub enum PlaceKind {
    /// A binding, a module or the preamble: where a `let` statement may stand.
    Binding,
    /// A module or the preamble: where a `type` statement may stand.
    Toplevel,
}

pub open spec fn is_place(kind: PlaceKind, rule: Rule) -> bool {
    match kind {
        PlaceKind::Binding => is_binding_place(rule),
        PlaceKind::Toplevel => is_toplevel_place(rule),
    }
}

/// The rule of the first node of `s` that is a place of the given kind.
pub open spec fn first_place(s: Seq<Cst>, kind: PlaceKind) -> Option<Rule>
    decreases s.len(),
{
    if s.len() == 0 {
        None
    } else if is_place(kind, s[0].rule) {
        Some(s[0].rule)
    } else {
        first_place(s.drop_first(), kind)
    }
}

/// A binding, a module or the preamble: what a `let` statement may stand in.
pub open spec fn is_binding_place(rule: Rule) -> bool {
    rule == Rule::bind_stmt || rule == Rule::module_stmt || rule == Rule::preamble
}

/// A module or the preamble: what a `type` statement may stand in.
pub open spec fn is_toplevel_place(rule: Rule) -> bool {
    rule == Rule::module_stmt || rule == Rule::preamble
}

/// What a definition that stands in a place with rule `parent` (if any) is kept for: a place
/// exists and it is not a module.
pub open spec fn outside_module(parent: Option<Rule>) -> bool {
    match parent {
        Some(p) => p != Rule::module_stmt,
        None => false,
    }
}

proof fn lemma_first_place_is_place(s: Seq<Cst>, kind: PlaceKind)
    ensures
        first_place(s, kind) matches Some(r) ==> is_place(kind, r),
    decreases s.len(),
{
    if s.len() > 0 && !is_place(kind, s[0].rule) {
        lemma_first_place_is_place(s.drop_first(), kind);
    }
}

proof fn lemma_first_place_skip(s: Seq<Cst>, kind: PlaceKind, i: int)
    requires
        0 <= i < s.len(),
        !is_place(kind, s[i].rule),
        first_place(s, kind) == first_place(s.skip(i), kind),
    ensures
        first_place(s, kind) == first_place(s.skip(i + 1), kind),
{
    assert(s.skip(i).drop_first() == s.skip(i + 1));
}

// ---------------------------------------------------------------------------------------------
// Variables.
/// The place in which a statement stands: the nearest binding, module or preamble, that is the
/// first one met while digging from the root of `ct` towards the start of `stmt`.
pub open spec fn statement_place(ct: CstText, stmt: Cst) -> Option<Rule> {
    first_place(ct.tree().spec_dig(stmt.span.start as int), PlaceKind::Binding)
}

/// The variables that a `let` statement defines: the `var` nodes of its pattern, in order.
pub open spec fn statement_variables(ct: CstText, stmt: Cst) -> Seq<VariableView> {
    stmt.inner@[0].spec_pickup(Rule::var).map_values(
        |v: Cst| VariableView { name: ct.spec_text(v.span), type_: None, type_declaration: None },
    )
}

pub open spec fn variable_visibility(ct: CstText, stmt: Cst) -> PackageVisibility {
    if statement_place(ct, stmt) == Some(Rule::bind_stmt) {
        PackageVisibility::Binded
    } else {
        PackageVisibility::Public
    }
}

/// From the end of the statement to the end of the expression it binds (or to its own end if
/// that expression is not found), or to the end of the file for a preamble definition.
pub open spec fn variable_scope(ct: CstText, stmt: Cst) -> Span {
    Span {
        start: stmt.span.end,
        end: if variable_visibility(ct, stmt) == PackageVisibility::Binded {
            match ct.tree().spec_get_parent(stmt) {
                Some(p) => p.span.end,
                None => stmt.span.end,
            }
        } else {
            ct.tree().span.end
        },
    }
}

/// The components that a `let` statement adds to its package.
pub open spec fn statement_components(ct: CstText, stmt: Cst) -> Seq<
    PackageComponent<VariableView>,
> {
    statement_variables(ct, stmt).map_values(
        |b: VariableView|
            PackageComponent {
                visibility: variable_visibility(ct, stmt),
                body: b,
                scope: variable_scope(ct, stmt),
                pos_definition: stmt.inner@[0].span.start,
            },
    )
}

/// The components added by those of the `let` statements `stmts` that stand outside modules.
pub open spec fn package_variables(ct: CstText, stmts: Seq<Cst>) -> Seq<
    PackageComponent<VariableView>,
>
    decreases stmts.len(),
{
    if stmts.len() == 0 {
        seq![]
    } else {
        let last = stmts.last();
        package_variables(ct, stmts.drop_last()) + if outside_module(statement_place(ct, last)) {
            statement_components(ct, last)
        } else {
            seq![]
        }
    }
}

pub open spec fn variable_views(v: Seq<PackageComponent<Variable>>) -> Seq<
    PackageComponent<VariableView>,
> {
    v.map_values(|c: PackageComponent<Variable>| c@)
}

impl Variable {
    /// The variables defined by the `let` statements of the package, outside modules.
    pub fn extract_from_package(csttext: &CstText) -> (res: Vec<PackageComponent<Variable>>)
        ensures
            variable_views(res@) == package_variables(
                *csttext,
                csttext.tree().spec_pickup(Rule::let_stmt),
            ),
    {
        let root = csttext.cst();
        let stmts = root.pickup(Rule::let_stmt);
        let ghost s = stmts@.map_values(|c: &Cst| *c);
        proof {
            lemma_pickup_fits(csttext.bytes(), root.inner@, Rule::let_stmt);
            lemma_pickup_rule(root.inner@, Rule::let_stmt);
        }
        let mut res: Vec<PackageComponent<Variable>> = Vec::new();
        let n = stmts.len();
        for i in 0..n
            invariant
                n == stmts.len(),
                s == stmts@.map_values(|c: &Cst| *c),
                s == csttext.tree().spec_pickup(Rule::let_stmt),
                csttext.well_formed(),
                forall|j: int| 0 <= j < s.len() ==> tree_fits(csttext.bytes(), #[trigger] s[j]),
                forall|j: int| 0 <= j < s.len() ==> (#[trigger] s[j]).rule == Rule::let_stmt,
                variable_views(res@) == package_variables(*csttext, s.take(i as int)),
        {
            let cst = stmts[i];
            assert(s[i as int] == *cst);
            assert(s.take(i + 1).drop_last() == s.take(i as int));
            let ghost before = res@;
            let keep = match Variable::find_parent(csttext, cst) {
                Some(parent) => parent != Rule::module_stmt,
                None => false,
            };
            if keep {
                proof {
                    lemma_first_place_is_place(
                        csttext.tree().spec_dig(cst.span.start as int),
                        PlaceKind::Binding,
                    );
                }
                let comps = Variable::new_package_variable(csttext, cst);
                res = append_all(res, comps);
                assert(variable_views(res@) =~= variable_views(before) + variable_views(comps@));
            } else {
                assert(variable_views(res@) =~= package_variables(*csttext, s.take(i + 1)));
            }
        }
        assert(s.take(n as int) == s);
        res
    }

    /// The variables that the `let` statement `cst_stmt` adds to its package, with the
    /// visibility and scope that the place it stands in gives them.
    pub fn new_package_variable(csttext: &CstText, cst_stmt: &Cst) -> (res: Vec<
        PackageComponent<Variable>,
    >)
        requires
            cst_stmt.rule == Rule::let_stmt,
            tree_fits(csttext.bytes(), *cst_stmt),
            statement_place(*csttext, *cst_stmt) == Some(Rule::bind_stmt) || statement_place(
                *csttext,
                *cst_stmt,
            ) == Some(Rule::preamble),
        ensures
            variable_views(res@) == statement_components(*csttext, *cst_stmt),
    {
        let visibility = match Variable::find_parent(csttext, cst_stmt) {
            Some(Rule::bind_stmt) => PackageVisibility::Binded,
            _ => PackageVisibility::Public,
        };
        let bodies = Variable::new(csttext, cst_stmt);
        let pos_definition = cst_stmt.inner[0].span.start;
        let start = cst_stmt.span.end;
        let end = if visibility == PackageVisibility::Binded {
            match csttext.cst().get_parent(cst_stmt) {
                Some(parent) => parent.span.end,
                None => cst_stmt.span.end,
            }
        } else {
            csttext.cst().span.end
        };
        let scope = Span { start, end };
        let mut res: Vec<PackageComponent<Variable>> = Vec::new();
        let mut bodies = bodies;
        let ghost all = bodies@;
        let n = bodies.len();
        let mut k: usize = 0;
        while bodies.len() > 0
            invariant
                k + bodies.len() == n,
                n == all.len(),
                bodies@ == all.skip(k as int),
                res.len() == k,
                forall|j: int|
                    0 <= j < k ==> (#[trigger] res@[j])@ == (PackageComponent {
                        visibility,
                        body: all[j]@,
                        scope,
                        pos_definition,
                    }),
            decreases bodies.len(),
        {
            let body = bodies.remove(0);
            assert(all.skip(k as int)[0] == body);
            assert(all.skip(k as int).drop_first() == all.skip(k + 1));
            res.push(PackageComponent { visibility, body, pos_definition, scope });
            k += 1;
        }
        assert(variable_views(res@) == statement_components(*csttext, *cst_stmt));
        res
    }

    /// The variables that the `let` statement `cst_stmt` defines: a statement may define
    /// several at once.
    pub fn new(csttext: &CstText, cst_stmt: &Cst) -> (res: Vec<Variable>)
        requires
            cst_stmt.rule == Rule::let_stmt,
            tree_fits(csttext.bytes(), *cst_stmt),
        ensures
            res@.map_values(|v: Variable| v@) == statement_variables(*csttext, *cst_stmt),
    {
        let pattern = &cst_stmt.inner[0];
        proof {
            lemma_forest_fits_index(csttext.bytes(), cst_stmt.inner@, 0);
            lemma_pickup_fits(csttext.bytes(), pattern.inner@, Rule::var);
        }
        let vars = pattern.pickup(Rule::var);
        let ghost s = vars@.map_values(|c: &Cst| *c);
        let mut res: Vec<Variable> = Vec::new();
        let n = vars.len();
        for i in 0..n
            invariant
                n == vars.len(),
                s == vars@.map_values(|c: &Cst| *c),
                s == pattern.spec_pickup(Rule::var),
                forall|j: int| 0 <= j < s.len() ==> tree_fits(csttext.bytes(), #[trigger] s[j]),
                res.len() == i,
                forall|j: int|
                    0 <= j < i ==> (#[trigger] res@[j])@ == (VariableView {
                        name: csttext.spec_text(s[j].span),
                        type_: None,
                        type_declaration: None,
                    }),
        {
            let cst = vars[i];
            assert(s[i as int] == *cst);
            let name = csttext.get_text(cst).to_owned();
            res.push(Variable { name, type_: None, type_declaration: None });
        }
        assert(res@.map_values(|v: Variable| v@) == statement_variables(*csttext, *cst_stmt));
        res
    }

    /// The place in which the definition `cst` stands: a binding, a module or the preamble,
    /// whichever comes first when digging from the root towards the start of `cst`.
    pub fn find_parent(csttext: &CstText, cst: &Cst) -> (res: Option<Rule>)
        ensures
            res == statement_place(*csttext, *cst),
    {
        place_of(csttext, cst, PlaceKind::Binding)
    }
}

/// The first place of the given kind met while digging from the root of `csttext` towards the
/// start of `cst`.
fn place_of(csttext: &CstText, cst: &Cst, kind: PlaceKind) -> (res: Option<Rule>)
    ensures
        res == first_place(csttext.tree().spec_dig(cst.span.start as int), kind),
{
    let start_pos = cst.span.start;
    let path = csttext.cst().dig(start_pos);
    let ghost s = path@.map_values(|c: &Cst| *c);
    assert(s.skip(0) == s);
    let n = path.len();
    for i in 0..n
        invariant
            n == path.len(),
            s == path@.map_values(|c: &Cst| *c),
            s == csttext.tree().spec_dig(start_pos as int),
            start_pos == cst.span.start,
            first_place(s, kind) == first_place(s.skip(i as int), kind),
    {
        let parent = path[i];
        assert(s.skip(i as int)[0] == *parent);
        let rule = parent.rule;
        let found = match kind {
            PlaceKind::Binding => rule == Rule::bind_stmt || rule == Rule::module_stmt || rule
                == Rule::preamble,
            PlaceKind::Toplevel => rule == Rule::module_stmt || rule == Rule::preamble,
        };
        if found {
            assert(first_place(s.skip(i as int), kind) == Some(rule));
            return Some(rule);
        }
        proof {
            lemma_first_place_skip(s, kind, i as int);
        }
    }
    assert(s.skip(n as int).len() == 0);
    None
}



/// Every command defined in a package is public and usable from the end of its definition up
/// to the end of the file.
pub proof fn lemma_commands_public(ct: CstText, stmts: Seq<Cst>)
    ensures
        forall|i: int|
            0 <= i < package_commands(ct, stmts).len() ==> {
                let c = #[trigger] package_commands(ct, stmts)[i];
                &&& c.visibility == PackageVisibility::Public
                &&& c.scope.end == ct.tree().span.end
            },
    decreases stmts.len(),
{
    if stmts.len() > 0 {
        lemma_commands_public(ct, stmts.drop_last());
        let a = package_commands(ct, stmts.drop_last());
        assert forall|i: int| 0 <= i < package_commands(ct, stmts).len() implies {
            let c = #[trigger] package_commands(ct, stmts)[i];
            &&& c.visibility == PackageVisibility::Public
            &&& c.scope.end == ct.tree().span.end
        } by {
            if i < a.len() {
                assert(package_commands(ct, stmts)[i] == a[i]);
            }
        }
    }
}

/// A public variable of a package is usable up to the end of the file.
pub proof fn lemma_variable_scopes(ct: CstText, stmts: Seq<Cst>)
    ensures
        forall|i: int|
            0 <= i < package_variables(ct, stmts).len() ==> {
                let v = #[trigger] package_variables(ct, stmts)[i];
                v.visibility == PackageVisibility::Public ==> v.scope.end == ct.tree().span.end
            },
    decreases stmts.len(),
{
    if stmts.len() > 0 {
        lemma_variable_scopes(ct, stmts.drop_last());
        let a = package_variables(ct, stmts.drop_last());
        let last = stmts.last();
        let b = if outside_module(statement_place(ct, last)) {
            statement_components(ct, last)
        } else {
            seq![]
        };
        assert forall|i: int| 0 <= i < package_variables(ct, stmts).len() implies {
            let v = #[trigger] package_variables(ct, stmts)[i];
            v.visibility == PackageVisibility::Public ==> v.scope.end == ct.tree().span.end
        } by {
            if i < a.len() {
                assert(package_variables(ct, stmts)[i] == a[i]);
            } else {
                assert(package_variables(ct, stmts)[i] == b[i - a.len()]);
            }
        }
    }
}

/// Where what a statement defines can be used, read off the tree: from the end of the
/// statement, up to the end of the nearest node enclosing it when it stands in a binding (up to
/// its own end if there is none), else up to the end of the file.
pub open spec fn use_span(ct: CstText, s: Cst) -> Span {
    Span {
        start: s.span.end,
        end: if statement_place(ct, s) == Some(Rule::bind_stmt) {
            match ct.tree().spec_get_parent(s) {
                Some(p) => p.span.end,
                None => s.span.end,
            }
        } else {
            ct.tree().span.end
        },
    }
}

/// Local to a binding when the statement stands in one, public otherwise.
pub open spec fn use_visibility(ct: CstText, s: Cst) -> PackageVisibility {
    if statement_place(ct, s) == Some(Rule::bind_stmt) {
        PackageVisibility::Binded
    } else {
        PackageVisibility::Public
    }
}

/// The variables that a `let` statement adds, read off the statement: one for each variable of
/// its pattern (its first child), in order, named by the variable's text and defined where the
/// pattern starts.
pub open spec fn variables_read_off(ct: CstText) -> spec_fn(Cst) -> Seq<
    PackageComponent<VariableView>,
> {
    |s: Cst|
        s.inner@[0].spec_pickup(Rule::var).map_values(
            |v: Cst|
                PackageComponent {
                    visibility: use_visibility(ct, s),
                    body: VariableView {
                        name: ct.spec_text(v.span),
                        type_: None,
                        type_declaration: None,
                    },
                    scope: use_span(ct, s),
                    pos_definition: s.inner@[0].span.start,
                },
        )
}

/// The variables that the `let` statements `stmts` add are, in order, those of each statement
/// kept for the package, read off that statement.
pub proof fn lemma_variables_read_off(ct: CstText, stmts: Seq<Cst>)
    ensures
        package_variables(ct, stmts) == stmts.filter(kept_for_package(ct)).map_values(
            variables_read_off(ct),
        ).flatten(),
    decreases stmts.len(),
{
    reveal(Seq::filter);
    if stmts.len() > 0 {
        let init = stmts.drop_last();
        let last = stmts.last();
        lemma_variables_read_off(ct, init);
        let f = init.filter(kept_for_package(ct));
        let g = f.map_values(variables_read_off(ct));
        if kept_for_package(ct)(last) {
            assert(stmts.filter(kept_for_package(ct)) == f.push(last));
            assert(f.push(last).map_values(variables_read_off(ct)) =~= g.push(
                variables_read_off(ct)(last),
            ));
            g.lemma_flatten_push(variables_read_off(ct)(last));
            assert(statement_components(ct, last) =~= variables_read_off(ct)(last));
        } else {
            assert(stmts.filter(kept_for_package(ct)) == f);
            assert(package_variables(ct, stmts) =~= package_variables(ct, init));
        }
    } else {
        assert(stmts.filter(kept_for_package(ct)).map_values(variables_read_off(ct)) =~= Seq::<
            Seq<PackageComponent<VariableView>>,
        >::empty());
    }
}

// ---------------------------------------------------------------------------------------------
// Types.
/// The place in which a `type` statement stands: the nearest module or preamble, that is the
/// first one met while digging from the root of `ct` towards the start of `stmt`.
pub open spec fn type_place(ct: CstText, stmt: Cst) -> Option<Rule> {
    first_place(ct.tree().spec_dig(stmt.span.start as int), PlaceKind::Toplevel)
}

/// The node that names the type a `type_inner` node defines: the first type name below it.
pub open spec fn type_name_node(ti: Cst) -> Option<Cst> {
    if ti.spec_pickup(Rule::typename).len() > 0 {
        Some(ti.spec_pickup(Rule::typename)[0])
    } else {
        None
    }
}

/// From the end of a statement to the end of the file.
pub open spec fn toplevel_scope(ct: CstText, stmt: Cst) -> Span {
    Span { start: stmt.span.end, end: ct.tree().span.end }
}

/// The types that the definitions `inners` of the `type` statement `stmt` add to the package:
/// one for each definition that names a type.
pub open spec fn inner_types(ct: CstText, stmt: Cst, inners: Seq<Cst>) -> Seq<
    PackageComponent<CustomTypeView>,
>
    decreases inners.len(),
{
    if inners.len() == 0 {
        seq![]
    } else {
        let ti = inners.last();
        inner_types(ct, stmt, inners.drop_last()) + match type_name_node(ti) {
            Some(n) => seq![
                PackageComponent {
                    visibility: PackageVisibility::Public,
                    body: CustomTypeView {
                        name: ct.spec_text(n.span),
                        definition: ct.spec_text(ti.span),
                    },
                    scope: toplevel_scope(ct, stmt),
                    pos_definition: n.span.start,
                },
            ],
            None => seq![],
        }
    }
}

/// The types that a `type` statement adds to its package.
pub open spec fn statement_types(ct: CstText, stmt: Cst) -> Seq<PackageComponent<CustomTypeView>> {
    inner_types(ct, stmt, stmt.spec_pickup(Rule::type_inner))
}

/// The types added by those of the `type` statements `stmts` that stand outside modules.
pub open spec fn package_types(ct: CstText, stmts: Seq<Cst>) -> Seq<
    PackageComponent<CustomTypeView>,
>
    decreases stmts.len(),
{
    if stmts.len() == 0 {
        seq![]
    } else {
        let last = stmts.last();
        package_types(ct, stmts.drop_last()) + if outside_module(type_place(ct, last)) {
            statement_types(ct, last)
        } else {
            seq![]
        }
    }
}

/// The variants that the definition `ti` of the `type` statement `stmt` adds to the package,
/// when it names a type.
pub open spec fn inner_variants(ct: CstText, stmt: Cst, ti: Cst) -> Seq<
    PackageComponent<VariantView>,
> {
    match type_name_node(ti) {
        Some(n) => ti.spec_pickup(Rule::type_variant).map_values(
            |tv: Cst|
                PackageComponent {
                    visibility: PackageVisibility::Public,
                    body: VariantView {
                        name: ct.spec_text(tv.inner@[0].span),
                        typename: ct.spec_text(n.span),
                    },
                    scope: toplevel_scope(ct, stmt),
                    pos_definition: tv.inner@[0].span.start,
                },
        ),
        None => seq![],
    }
}

pub open spec fn inners_variants(ct: CstText, stmt: Cst, inners: Seq<Cst>) -> Seq<
    PackageComponent<VariantView>,
>
    decreases inners.len(),
{
    if inners.len() == 0 {
        seq![]
    } else {
        inners_variants(ct, stmt, inners.drop_last()) + inner_variants(ct, stmt, inners.last())
    }
}

/// The variants that a `type` statement adds to its package.
pub open spec fn statement_variants(ct: CstText, stmt: Cst) -> Seq<PackageComponent<VariantView>> {
    inners_variants(ct, stmt, stmt.spec_pickup(Rule::type_inner))
}

/// The variants added by those of the `type` statements `stmts` that stand outside modules.
pub open spec fn package_variants(ct: CstText, stmts: Seq<Cst>) -> Seq<
    PackageComponent<VariantView>,
>
    decreases stmts.len(),
{
    if stmts.len() == 0 {
        seq![]
    } else {
        let last = stmts.last();
        package_variants(ct, stmts.drop_last()) + if outside_module(type_place(ct, last)) {
            statement_variants(ct, last)
        } else {
            seq![]
        }
    }
}

/// Whether a `type` statement is kept for the package: the module or preamble it stands in
/// exists and is not a module.
pub open spec fn kept_at_top(ct: CstText) -> spec_fn(Cst) -> bool {
    |s: Cst| type_place(ct, s) matches Some(p) && p != Rule::module_stmt
}

/// Whether a definition of a `type` statement names a type: a type name stands below it.
pub open spec fn names_type() -> spec_fn(Cst) -> bool {
    |ti: Cst| ti.spec_pickup(Rule::typename).len() > 0
}

/// The type that the definition `ti` of the `type` statement `s` adds, read off the
/// definition: named by the first type name below it, with the definition's text, public from
/// the end of the statement to the end of the file.
pub open spec fn type_read_off(ct: CstText, s: Cst) -> spec_fn(Cst) -> PackageComponent<
    CustomTypeView,
> {
    |ti: Cst|
        PackageComponent {
            visibility: PackageVisibility::Public,
            body: CustomTypeView {
                name: ct.spec_text(ti.spec_pickup(Rule::typename)[0].span),
                definition: ct.spec_text(ti.span),
            },
            scope: Span { start: s.span.end, end: ct.tree().span.end },
            pos_definition: ti.spec_pickup(Rule::typename)[0].span.start,
        }
}

/// The types that a `type` statement adds: one per definition below it that names a type.
pub open spec fn types_read_off(ct: CstText) -> spec_fn(Cst) -> Seq<
    PackageComponent<CustomTypeView>,
> {
    |s: Cst| s.spec_pickup(Rule::type_inner).filter(names_type()).map_values(type_read_off(ct, s))
}

proof fn lemma_inner_types_read_off(ct: CstText, stmt: Cst, inners: Seq<Cst>)
    ensures
        inner_types(ct, stmt, inners) == inners.filter(names_type()).map_values(
            type_read_off(ct, stmt),
        ),
    decreases inners.len(),
{
    reveal(Seq::filter);
    if inners.len() > 0 {
        let init = inners.drop_last();
        let ti = inners.last();
        lemma_inner_types_read_off(ct, stmt, init);
        let f = init.filter(names_type());
        if names_type()(ti) {
            assert(f.push(ti).map_values(type_read_off(ct, stmt)) =~= f.map_values(
                type_read_off(ct, stmt),
            ).push(type_read_off(ct, stmt)(ti)));
            assert(type_name_node(ti) == Some(ti.spec_pickup(Rule::typename)[0]));
        } else {
            assert(type_name_node(ti) is None);
            assert(inner_types(ct, stmt, inners) =~= inner_types(ct, stmt, init));
        }
    }
}

/// The types that the `type` statements `stmts` add are, in order, those of each statement
/// kept for the package: one per definition that names a type, named by that type name.
pub proof fn lemma_types_read_off(ct: CstText, stmts: Seq<Cst>)
    ensures
        package_types(ct, stmts) == stmts.filter(kept_at_top(ct)).map_values(
            types_read_off(ct),
        ).flatten(),
    decreases stmts.len(),
{
    reveal(Seq::filter);
    if stmts.len() > 0 {
        let init = stmts.drop_last();
        let last = stmts.last();
        lemma_types_read_off(ct, init);
        let f = init.filter(kept_at_top(ct));
        let g = f.map_values(types_read_off(ct));
        if kept_at_top(ct)(last) {
            assert(f.push(last).map_values(types_read_off(ct)) =~= g.push(
                types_read_off(ct)(last),
            ));
            g.lemma_flatten_push(types_read_off(ct)(last));
            lemma_inner_types_read_off(ct, last, last.spec_pickup(Rule::type_inner));
        } else {
            assert(package_types(ct, stmts) =~= package_types(ct, init));
        }
    } else {
        assert(stmts.filter(kept_at_top(ct)).map_values(types_read_off(ct)) =~= Seq::<
            Seq<PackageComponent<CustomTypeView>>,
        >::empty());
    }
}

/// The variants that a definition `ti` of the `type` statement `s` adds, read off the
/// definition: none when it names no type; else one per variant below it, in order, named by
/// the variant's first child and belonging to the type that the definition names.
pub open spec fn variants_of_definition(ct: CstText, s: Cst) -> spec_fn(Cst) -> Seq<
    PackageComponent<VariantView>,
> {
    |ti: Cst|
        if ti.spec_pickup(Rule::typename).len() > 0 {
            ti.spec_pickup(Rule::type_variant).map_values(
                |tv: Cst|
                    PackageComponent {
                        visibility: PackageVisibility::Public,
                        body: VariantView {
                            name: ct.spec_text(tv.inner@[0].span),
                            typename: ct.spec_text(ti.spec_pickup(Rule::typename)[0].span),
                        },
                        scope: Span { start: s.span.end, end: ct.tree().span.end },
                        pos_definition: tv.inner@[0].span.start,
                    },
            )
        } else {
            seq![]
        }
}

/// The variants that a `type` statement adds: those of each of its definitions, in order.
pub open spec fn variants_read_off(ct: CstText) -> spec_fn(Cst) -> Seq<
    PackageComponent<VariantView>,
> {
    |s: Cst| s.spec_pickup(Rule::type_inner).map_values(variants_of_definition(ct, s)).flatten()
}

proof fn lemma_inners_variants_read_off(ct: CstText, stmt: Cst, inners: Seq<Cst>)
    ensures
        inners_variants(ct, stmt, inners) == inners.map_values(
            variants_of_definition(ct, stmt),
        ).flatten(),
    decreases inners.len(),
{
    if inners.len() > 0 {
        let init = inners.drop_last();
        let ti = inners.last();
        lemma_inners_variants_read_off(ct, stmt, init);
        let g = init.map_values(variants_of_definition(ct, stmt));
        assert(inners.map_values(variants_of_definition(ct, stmt)) =~= g.push(
            variants_of_definition(ct, stmt)(ti),
        ));
        g.lemma_flatten_push(variants_of_definition(ct, stmt)(ti));
        assert(inner_variants(ct, stmt, ti) =~= variants_of_definition(ct, stmt)(ti));
    } else {
        assert(inners.map_values(variants_of_definition(ct, stmt)) =~= Seq::<
            Seq<PackageComponent<VariantView>>,
        >::empty());
    }
}

/// The variants that the `type` statements `stmts` add are, in order, those of each statement
/// kept for the package: for each definition that names a type, one per variant, named by its
/// variant name and belonging to that type.
pub proof fn lemma_variants_read_off(ct: CstText, stmts: Seq<Cst>)
    ensures
        package_variants(ct, stmts) == stmts.filter(kept_at_top(ct)).map_values(
            variants_read_off(ct),
        ).flatten(),
    decreases stmts.len(),
{
    reveal(Seq::filter);
    if stmts.len() > 0 {
        let init = stmts.drop_last();
        let last = stmts.last();
        lemma_variants_read_off(ct, init);
        let f = init.filter(kept_at_top(ct));
        let g = f.map_values(variants_read_off(ct));
        if kept_at_top(ct)(last) {
            assert(f.push(last).map_values(variants_read_off(ct)) =~= g.push(
                variants_read_off(ct)(last),
            ));
            g.lemma_flatten_push(variants_read_off(ct)(last));
            lemma_inners_variants_read_off(ct, last, last.spec_pickup(Rule::type_inner));
        } else {
            assert(package_variants(ct, stmts) =~= package_variants(ct, init));
        }
    } else {
        assert(stmts.filter(kept_at_top(ct)).map_values(variants_read_off(ct)) =~= Seq::<
            Seq<PackageComponent<VariantView>>,
        >::empty());
    }
}

pub open spec fn type_views(v: Seq<PackageComponent<CustomType>>) -> Seq<
    PackageComponent<CustomTypeView>,
> {
    v.map_values(|c: PackageComponent<CustomType>| c@)
}

pub open spec fn variant_views(v: Seq<PackageComponent<Variant>>) -> Seq<
    PackageComponent<VariantView>,
> {
    v.map_values(|c: PackageComponent<Variant>| c@)
}

/// Picks up the nodes of `rule` below `cst`, with what the loops over them need to know.
fn pick_below<'a>(csttext: &CstText, cst: &'a Cst, rule: Rule) -> (res: Vec<&'a Cst>)
    requires
        tree_fits(csttext.bytes(), *cst),
    ensures
        res@.map_values(|c: &Cst| *c) == cst.spec_pickup(rule),
        forall|j: int|
            0 <= j < res.len() ==> tree_fits(csttext.bytes(), *#[trigger] res@[j]) && res@[j].rule
                == rule,
{
    let res = cst.pickup(rule);
    proof {
        lemma_pickup_fits(csttext.bytes(), cst.inner@, rule);
        lemma_pickup_rule(cst.inner@, rule);
        assert forall|j: int| 0 <= j < res.len() implies tree_fits(
            csttext.bytes(),
            *#[trigger] res@[j],
        ) && res@[j].rule == rule by {
            assert(res@.map_values(|c: &Cst| *c)[j] == *res@[j]);
        }
    }
    res
}

/// The node that names the type `ti` defines.
fn type_name_of<'a>(csttext: &CstText, ti: &'a Cst) -> (r: Option<&'a Cst>)
    requires
        tree_fits(csttext.bytes(), *ti),
    ensures
        match r {
            Some(n) => type_name_node(*ti) == Some(*n) && tree_fits(csttext.bytes(), *n),
            None => type_name_node(*ti) is None,
        },
{
    let names = pick_below(csttext, ti, Rule::typename);
    if names.len() > 0 {
        assert(names@.map_values(|c: &Cst| *c)[0] == *names@[0]);
        Some(names[0])
    } else {
        None
    }
}

impl CustomType {
    /// The types defined in the package, outside modules.
    pub fn extract_from_package(csttext: &CstText) -> (res: Vec<PackageComponent<CustomType>>)
        ensures
            type_views(res@) == package_types(
                *csttext,
                csttext.tree().spec_pickup(Rule::type_stmt),
            ),
    {
        let root = csttext.cst();
        let stmts = pick_below(csttext, root, Rule::type_stmt);
        let ghost s = stmts@.map_values(|c: &Cst| *c);
        let mut res: Vec<PackageComponent<CustomType>> = Vec::new();
        let n = stmts.len();
        for i in 0..n
            invariant
                n == stmts.len(),
                s == stmts@.map_values(|c: &Cst| *c),
                s == csttext.tree().spec_pickup(Rule::type_stmt),
                forall|j: int| 0 <= j < n ==> tree_fits(csttext.bytes(), *#[trigger] stmts@[j]),
                type_views(res@) == package_types(*csttext, s.take(i as int)),
        {
            let cst = stmts[i];
            assert(s[i as int] == *cst);
            assert(s.take(i + 1).drop_last() == s.take(i as int));
            let ghost before = res@;
            let keep = match CustomType::find_parent(csttext, cst) {
                Some(parent) => parent != Rule::module_stmt,
                None => false,
            };
            if keep {
                let comps = CustomType::new_package_types(csttext, cst);
                res = append_all(res, comps);
                assert(type_views(res@) =~= type_views(before) + type_views(comps@));
            } else {
                assert(type_views(res@) =~= package_types(*csttext, s.take(i + 1)));
            }
        }
        assert(s.take(n as int) == s);
        res
    }

    /// The types that the `type` statement `cst_stmt` defines, usable from the end of the
    /// statement to the end of the file.
    pub fn new_package_types(csttext: &CstText, cst_stmt: &Cst) -> (res: Vec<
        PackageComponent<CustomType>,
    >)
        requires
            tree_fits(csttext.bytes(), *cst_stmt),
        ensures
            type_views(res@) == statement_types(*csttext, *cst_stmt),
    {
        let inners = pick_below(csttext, cst_stmt, Rule::type_inner);
        let ghost s = inners@.map_values(|c: &Cst| *c);
        let scope = Span { start: cst_stmt.span.end, end: csttext.cst().span.end };
        let mut res: Vec<PackageComponent<CustomType>> = Vec::new();
        let n = inners.len();
        for i in 0..n
            invariant
                n == inners.len(),
                s == inners@.map_values(|c: &Cst| *c),
                s == cst_stmt.spec_pickup(Rule::type_inner),
                scope == toplevel_scope(*csttext, *cst_stmt),
                forall|j: int| 0 <= j < n ==> tree_fits(csttext.bytes(), *#[trigger] inners@[j]),
                type_views(res@) == inner_types(*csttext, *cst_stmt, s.take(i as int)),
        {
            let ti = inners[i];
            assert(s[i as int] == *ti);
            assert(s.take(i + 1).drop_last() == s.take(i as int));
            match CustomType::new(csttext, ti) {
                Some(body) => {
                    let name_node = type_name_of(csttext, ti);
                    let pos_definition = match name_node {
                        Some(name) => name.span.start,
                        None => 0,
                    };
                    res.push(
                        PackageComponent {
                            visibility: PackageVisibility::Public,
                            body,
                            scope,
                            pos_definition,
                        },
                    );
                },
                None => {},
            }
            assert(type_views(res@) =~= inner_types(*csttext, *cst_stmt, s.take(i + 1)));
        }
        assert(s.take(n as int) == s);
        res
    }

    /// The type that the definition `cst` (a `type_inner` node) defines: its name and the text
    /// of the definition, when it names one.
    pub fn new(csttext: &CstText, cst: &Cst) -> (res: Option<CustomType>)
        requires
            tree_fits(csttext.bytes(), *cst),
        ensures
            match res {
                Some(t) => type_name_node(*cst) matches Some(n) && t@ == (CustomTypeView {
                    name: csttext.spec_text(n.span),
                    definition: csttext.spec_text(cst.span),
                }),
                None => type_name_node(*cst) is None,
            },
    {
        match type_name_of(csttext, cst) {
            Some(name) => Some(
                CustomType {
                    name: csttext.get_text(name).to_owned(),
                    definition: csttext.get_text(cst).to_owned(),
                },
            ),
            None => None,
        }
    }

    /// The module or preamble in which the definition `cst` stands.
    pub fn find_parent(csttext: &CstText, cst: &Cst) -> (res: Option<Rule>)
        ensures
            res == type_place(*csttext, *cst),
    {
        place_of(csttext, cst, PlaceKind::Toplevel)
    }
}

impl Variant {
    /// The variants of the types defined in the package, outside modules.
    pub fn extract_from_package(csttext: &CstText) -> (res: Vec<PackageComponent<Variant>>)
        ensures
            variant_views(res@) == package_variants(
                *csttext,
                csttext.tree().spec_pickup(Rule::type_stmt),
            ),
    {
        let root = csttext.cst();
        let stmts = pick_below(csttext, root, Rule::type_stmt);
        let ghost s = stmts@.map_values(|c: &Cst| *c);
        let mut res: Vec<PackageComponent<Variant>> = Vec::new();
        let n = stmts.len();
        for i in 0..n
            invariant
                n == stmts.len(),
                s == stmts@.map_values(|c: &Cst| *c),
                s == csttext.tree().spec_pickup(Rule::type_stmt),
                forall|j: int| 0 <= j < n ==> tree_fits(csttext.bytes(), *#[trigger] stmts@[j]),
                variant_views(res@) == package_variants(*csttext, s.take(i as int)),
        {
            let cst = stmts[i];
            assert(s[i as int] == *cst);
            assert(s.take(i + 1).drop_last() == s.take(i as int));
            let ghost before = res@;
            let keep = match CustomType::find_parent(csttext, cst) {
                Some(parent) => parent != Rule::module_stmt,
                None => false,
            };
            if keep {
                let comps = Variant::new_package_variants(csttext, cst);
                res = append_all(res, comps);
                assert(variant_views(res@) =~= variant_views(before) + variant_views(comps@));
            } else {
                assert(variant_views(res@) =~= package_variants(*csttext, s.take(i + 1)));
            }
        }
        assert(s.take(n as int) == s);
        res
    }

    /// The variants of the types that the `type` statement `cst_stmt` defines, usable from the
    /// end of the statement to the end of the file.
    pub fn new_package_variants(csttext: &CstText, cst_stmt: &Cst) -> (res: Vec<
        PackageComponent<Variant>,
    >)
        requires
            tree_fits(csttext.bytes(), *cst_stmt),
        ensures
            variant_views(res@) == statement_variants(*csttext, *cst_stmt),
    {
        let inners = pick_below(csttext, cst_stmt, Rule::type_inner);
        let ghost s = inners@.map_values(|c: &Cst| *c);
        let scope = Span { start: cst_stmt.span.end, end: csttext.cst().span.end };
        let mut res: Vec<PackageComponent<Variant>> = Vec::new();
        let n = inners.len();
        for i in 0..n
            invariant
                n == inners.len(),
                s == inners@.map_values(|c: &Cst| *c),
                s == cst_stmt.spec_pickup(Rule::type_inner),
                scope == toplevel_scope(*csttext, *cst_stmt),
                forall|j: int| 0 <= j < n ==> tree_fits(csttext.bytes(), *#[trigger] inners@[j]),
                variant_views(res@) == inners_variants(*csttext, *cst_stmt, s.take(i as int)),
        {
            let ti = inners[i];
            assert(s[i as int] == *ti);
            assert(s.take(i + 1).drop_last() == s.take(i as int));
            let ghost before = res@;
            let comps = Variant::of_definition(csttext, ti, scope);
            res = append_all(res, comps);
            assert(variant_views(res@) =~= variant_views(before) + variant_views(comps@));
        }
        assert(s.take(n as int) == s);
        res
    }

    /// The variants of the type that the definition `ti` (a `type_inner` node) defines, each
    /// usable in `scope`: none when the definition names no type.
    fn of_definition(csttext: &CstText, ti: &Cst, scope: Span) -> (res: Vec<PackageComponent<Variant>>)
        requires
            tree_fits(csttext.bytes(), *ti),
        ensures
            variant_views(res@) == (match type_name_node(*ti) {
                Some(n) => ti.spec_pickup(Rule::type_variant).map_values(
                    |tv: Cst|
                        PackageComponent {
                            visibility: PackageVisibility::Public,
                            body: VariantView {
                                name: csttext.spec_text(tv.inner@[0].span),
                                typename: csttext.spec_text(n.span),
                            },
                            scope,
                            pos_definition: tv.inner@[0].span.start,
                        },
                ),
                None => Seq::empty(),
            }),
    {
        let mut res: Vec<PackageComponent<Variant>> = Vec::new();
        let name_node = match type_name_of(csttext, ti) {
            Some(name) => name,
            None => {
                assert(variant_views(res@) =~= Seq::empty());
                return res;
            },
        };
        let typename = csttext.get_text(name_node);
        let variants = pick_below(csttext, ti, Rule::type_variant);
        let ghost s = variants@.map_values(|c: &Cst| *c);
        let n = variants.len();
        for i in 0..n
            invariant
                n == variants.len(),
                s == variants@.map_values(|c: &Cst| *c),
                typename@ == csttext.spec_text(name_node.span),
                forall|j: int|
                    0 <= j < n ==> tree_fits(csttext.bytes(), *#[trigger] variants@[j])
                        && variants@[j].rule == Rule::type_variant,
                res.len() == i,
                forall|j: int|
                    0 <= j < i ==> (#[trigger] res@[j])@ == (PackageComponent {
                        visibility: PackageVisibility::Public,
                        body: VariantView {
                            name: csttext.spec_text(s[j].inner@[0].span),
                            typename: csttext.spec_text(name_node.span),
                        },
                        scope,
                        pos_definition: s[j].inner@[0].span.start,
                    }),
        {
            let tv = variants[i];
            assert(s[i as int] == *tv);
            let name = &tv.inner[0];
            proof {
                lemma_forest_fits_index(csttext.bytes(), tv.inner@, 0);
            }
            res.push(
                PackageComponent {
                    visibility: PackageVisibility::Public,
                    body: Variant {
                        name: csttext.get_text(name).to_owned(),
                        typename: typename.to_owned(),
                    },
                    scope,
                    pos_definition: name.span.start,
                },
            );
        }
        assert(variant_views(res@) =~= ti.spec_pickup(Rule::type_variant).map_values(
            |tv: Cst|
                PackageComponent {
                    visibility: PackageVisibility::Public,
                    body: VariantView {
                        name: csttext.spec_text(tv.inner@[0].span),
                        typename: csttext.spec_text(name_node.span),
                    },
                    scope,
                    pos_definition: tv.inner@[0].span.start,
                },
        ));
        res
    }
}

// ---------------------------------------------------------------------------------------------
// Commands.
pub open spec fn is_inline_definition(rule: Rule) -> bool {
    rule == Rule::let_inline_stmt_ctx || rule == Rule::let_inline_stmt_noctx
}

pub open spec fn is_block_definition(rule: Rule) -> bool {
    rule == Rule::let_block_stmt_ctx || rule == Rule::let_block_stmt_noctx
}

/// The node that holds the name of a command definition: the first child, or the second one
/// when the definition names a context first.
pub open spec fn command_name_node(stmt: Cst) -> Cst {
    if stmt.rule == Rule::let_inline_stmt_noctx || stmt.rule == Rule::let_block_stmt_noctx {
        stmt.inner@[0]
    } else {
        stmt.inner@[1]
    }
}

/// The command that a definition defines.
pub open spec fn defined_command(ct: CstText, stmt: Cst) -> CommandView {
    CommandView {
        name: ct.spec_text(command_name_node(stmt).span),
        type_: None,
        type_declaration: None,
    }
}

/// The component that a command definition adds to its package: public, usable from the end of
/// the definition to the end of the file.
pub open spec fn command_component(ct: CstText, stmt: Cst) -> PackageComponent<CommandView> {
    PackageComponent {
        visibility: PackageVisibility::Public,
        body: defined_command(ct, stmt),
        scope: Span { start: stmt.span.end, end: ct.tree().span.end },
        pos_definition: command_name_node(stmt).span.start,
    }
}

/// The components added by those of the command definitions `stmts` that stand outside modules.
pub open spec fn package_commands(ct: CstText, stmts: Seq<Cst>) -> Seq<
    PackageComponent<CommandView>,
>
    decreases stmts.len(),
{
    if stmts.len() == 0 {
        seq![]
    } else {
        let last = stmts.last();
        package_commands(ct, stmts.drop_last()) + if outside_module(statement_place(ct, last)) {
            seq![command_component(ct, last)]
        } else {
            seq![]
        }
    }
}

/// The command definitions of the given two rules in the tree of `ct`: all of the first rule,
/// then all of the second.
pub open spec fn definitions(ct: CstText, first: Rule, second: Rule) -> Seq<Cst> {
    ct.tree().spec_pickup(first) + ct.tree().spec_pickup(second)
}

pub open spec fn inline_views(v: Seq<PackageComponent<InlineCmd>>) -> Seq<
    PackageComponent<CommandView>,
> {
    v.map_values(|c: PackageComponent<InlineCmd>| c@)
}

pub open spec fn block_views(v: Seq<PackageComponent<BlockCmd>>) -> Seq<
    PackageComponent<CommandView>,
> {
    v.map_values(|c: PackageComponent<BlockCmd>| c@)
}

/// Picks up the definitions of the two given rules, with what the loops over them need to know.
fn pick_definitions<'a>(csttext: &'a CstText, first: Rule, second: Rule) -> (res: Vec<&'a Cst>)
    ensures
        res@.map_values(|c: &Cst| *c) == definitions(*csttext, first, second),
        forall|j: int|
            0 <= j < res.len() ==> tree_fits(csttext.bytes(), *#[trigger] res@[j]) && (res@[j].rule
                == first || res@[j].rule == second),
{
    let root = csttext.cst();
    let a = root.pickup(first);
    let b = root.pickup(second);
    proof {
        lemma_pickup_fits(csttext.bytes(), root.inner@, first);
        lemma_pickup_fits(csttext.bytes(), root.inner@, second);
        lemma_pickup_rule(root.inner@, first);
        lemma_pickup_rule(root.inner@, second);
    }
    let ghost sa = a@;
    let ghost sb = b@;
    let res = append_all(a, b);
    proof {
        assert(res@.map_values(|c: &Cst| *c) =~= sa.map_values(|c: &Cst| *c) + sb.map_values(
            |c: &Cst| *c,
        ));
        assert forall|j: int| 0 <= j < res.len() implies tree_fits(
            csttext.bytes(),
            *#[trigger] res@[j],
        ) && (res@[j].rule == first || res@[j].rule == second) by {
            if j < sa.len() {
                assert(res@[j] == sa[j]);
                assert(*sa[j] == sa.map_values(|c: &Cst| *c)[j]);
            } else {
                assert(res@[j] == sb[j - sa.len()]);
                assert(*sb[j - sa.len()] == sb.map_values(|c: &Cst| *c)[j - sa.len()]);
            }
        }
    }
    res
}

impl InlineCmd {
    /// The inline commands defined in the package, outside modules.
    pub fn extract_from_package(csttext: &CstText) -> (res: Vec<PackageComponent<InlineCmd>>)
        ensures
            inline_views(res@) == package_commands(
                *csttext,
                definitions(*csttext, Rule::let_inline_stmt_ctx, Rule::let_inline_stmt_noctx),
            ),
    {
        let stmts = pick_definitions(
            csttext,
            Rule::let_inline_stmt_ctx,
            Rule::let_inline_stmt_noctx,
        );
        let ghost s = stmts@.map_values(|c: &Cst| *c);
        let mut res: Vec<PackageComponent<InlineCmd>> = Vec::new();
        let n = stmts.len();
        for i in 0..n
            invariant
                n == stmts.len(),
                s == stmts@.map_values(|c: &Cst| *c),
                forall|j: int|
                    0 <= j < n ==> tree_fits(csttext.bytes(), *#[trigger] stmts@[j])
                        && is_inline_definition(stmts@[j].rule),
                inline_views(res@) == package_commands(*csttext, s.take(i as int)),
        {
            let cst = stmts[i];
            assert(s[i as int] == *cst);
            assert(s.take(i + 1).drop_last() == s.take(i as int));
            let ghost before = res@;
            let keep = match InlineCmd::find_parent(csttext, cst) {
                Some(parent) => parent != Rule::module_stmt,
                None => false,
            };
            if keep {
                res.push(InlineCmd::new_package_variable(csttext, cst));
            }
            assert(inline_views(res@) =~= package_commands(*csttext, s.take(i + 1)));
        }
        assert(s.take(n as int) == s);
        res
    }

    /// The component that the definition `cst_stmt` adds: public, usable from the end of the
    /// definition to the end of the file.
    pub fn new_package_variable(csttext: &CstText, cst_stmt: &Cst) -> (res: PackageComponent<
        InlineCmd,
    >)
        requires
            is_inline_definition(cst_stmt.rule),
            tree_fits(csttext.bytes(), *cst_stmt),
        ensures
            res@ == command_component(*csttext, *cst_stmt),
    {
        let visibility = PackageVisibility::Public;
        let body = InlineCmd::new(csttext, cst_stmt);
        let scope = Span { start: cst_stmt.span.end, end: csttext.cst().span.end };
        let pos_definition = match cst_stmt.rule {
            Rule::let_inline_stmt_noctx => cst_stmt.inner[0].span.start,
            _ => cst_stmt.inner[1].span.start,
        };
        PackageComponent { visibility, body, pos_definition, scope }
    }

    /// The command that the definition `cst_stmt` defines.
    pub fn new(csttext: &CstText, cst_stmt: &Cst) -> (res: InlineCmd)
        requires
            is_inline_definition(cst_stmt.rule),
            tree_fits(csttext.bytes(), *cst_stmt),
        ensures
            res@ == defined_command(*csttext, *cst_stmt),
    {
        let cst_cmd_name = match cst_stmt.rule {
            Rule::let_inline_stmt_noctx => &cst_stmt.inner[0],
            _ => &cst_stmt.inner[1],
        };
        proof {
            let k: int = if cst_stmt.rule == Rule::let_inline_stmt_noctx { 0 } else { 1 };
            lemma_forest_fits_index(csttext.bytes(), cst_stmt.inner@, k);
        }
        let name = csttext.get_text(cst_cmd_name).to_owned();
        InlineCmd { name, type_: None, type_declaration: None }
    }

    /// The place in which the definition `cst` stands: the nearest binding, module or preamble.
    pub fn find_parent(csttext: &CstText, cst: &Cst) -> (res: Option<Rule>)
        ensures
            res == statement_place(*csttext, *cst),
    {
        place_of(csttext, cst, PlaceKind::Binding)
    }
}

impl BlockCmd {
    /// The block commands defined in the package, outside modules.
    pub fn extract_from_package(csttext: &CstText) -> (res: Vec<PackageComponent<BlockCmd>>)
        ensures
            block_views(res@) == package_commands(
                *csttext,
                definitions(*csttext, Rule::let_block_stmt_ctx, Rule::let_block_stmt_noctx),
            ),
    {
        let stmts = pick_definitions(
            csttext,
            Rule::let_block_stmt_ctx,
            Rule::let_block_stmt_noctx,
        );
        let ghost s = stmts@.map_values(|c: &Cst| *c);
        let mut res: Vec<PackageComponent<BlockCmd>> = Vec::new();
        let n = stmts.len();
        for i in 0..n
            invariant
                n == stmts.len(),
                s == stmts@.map_values(|c: &Cst| *c),
                forall|j: int|
                    0 <= j < n ==> tree_fits(csttext.bytes(), *#[trigger] stmts@[j])
                        && is_block_definition(stmts@[j].rule),
                block_views(res@) == package_commands(*csttext, s.take(i as int)),
        {
            let cst = stmts[i];
            assert(s[i as int] == *cst);
            assert(s.take(i + 1).drop_last() == s.take(i as int));
            let keep = match BlockCmd::find_parent(csttext, cst) {
                Some(parent) => parent != Rule::module_stmt,
                None => false,
            };
            if keep {
                res.push(BlockCmd::new_package_variable(csttext, cst));
            }
            assert(block_views(res@) =~= package_commands(*csttext, s.take(i + 1)));
        }
        assert(s.take(n as int) == s);
        res
    }

    /// The component that the definition `cst_stmt` adds: public, usable from the end of the
    /// definition to the end of the file.
    pub fn new_package_variable(csttext: &CstText, cst_stmt: &Cst) -> (res: PackageComponent<
        BlockCmd,
    >)
        requires
            is_block_definition(cst_stmt.rule),
            tree_fits(csttext.bytes(), *cst_stmt),
        ensures
            res@ == command_component(*csttext, *cst_stmt),
    {
        let visibility = PackageVisibility::Public;
        let body = BlockCmd::new(csttext, cst_stmt);
        let scope = Span { start: cst_stmt.span.end, end: csttext.cst().span.end };
        let pos_definition = match cst_stmt.rule {
            Rule::let_block_stmt_noctx => cst_stmt.inner[0].span.start,
            _ => cst_stmt.inner[1].span.start,
        };
        PackageComponent { visibility, body, pos_definition, scope }
    }

    /// The command that the definition `cst_stmt` defines.
    pub fn new(csttext: &CstText, cst_stmt: &Cst) -> (res: BlockCmd)
        requires
            is_block_definition(cst_stmt.rule),
            tree_fits(csttext.bytes(), *cst_stmt),
        ensures
            res@ == defined_command(*csttext, *cst_stmt),
    {
        let cst_cmd_name = match cst_stmt.rule {
            Rule::let_block_stmt_noctx => &cst_stmt.inner[0],
            _ => &cst_stmt.inner[1],
        };
        proof {
            let k: int = if cst_stmt.rule == Rule::let_block_stmt_noctx { 0 } else { 1 };
            lemma_forest_fits_index(csttext.bytes(), cst_stmt.inner@, k);
        }
        let name = csttext.get_text(cst_cmd_name).to_owned();
        BlockCmd { name, type_: None, type_declaration: None }
    }

    /// The place in which the definition `cst` stands: the nearest binding, module or preamble.
    pub fn find_parent(csttext: &CstText, cst: &Cst) -> (res: Option<Rule>)
        ensures
            res == statement_place(*csttext, *cst),
    {
        place_of(csttext, cst, PlaceKind::Binding)
    }
}


/// Whether a definition is kept for the package: the place it stands in (the nearest binding,
/// module or preamble) exists and is not a module.
pub open spec fn kept_for_package(ct: CstText) -> spec_fn(Cst) -> bool {
    |s: Cst| statement_place(ct, s) matches Some(p) && p != Rule::module_stmt
}

/// The component that a command definition adds, read off the definition: named by the text
/// of its command-name node, which is the first child of a definition without a context and
/// the second child (after the context) of one with a context; public, from the end of the
/// definition to the end of the file.
pub open spec fn command_read_off(ct: CstText) -> spec_fn(Cst) -> PackageComponent<CommandView> {
    |s: Cst|
        {
            let name = if s.rule == Rule::let_inline_stmt_ctx || s.rule
                == Rule::let_block_stmt_ctx {
                s.inner@[1]
            } else {
                s.inner@[0]
            };
            PackageComponent {
                visibility: PackageVisibility::Public,
                body: CommandView {
                    name: ct.spec_text(name.span),
                    type_: None,
                    type_declaration: None,
                },
                scope: Span { start: s.span.end, end: ct.tree().span.end },
                pos_definition: name.span.start,
            }
        }
}

/// The commands that the definitions `stmts` add are, in order, one for each definition kept
/// for the package, read off that definition.
pub proof fn lemma_commands_read_off(ct: CstText, stmts: Seq<Cst>)
    requires
        forall|i: int|
            0 <= i < stmts.len() ==> {
                let r = (#[trigger] stmts[i]).rule;
                r == Rule::let_inline_stmt_ctx || r == Rule::let_inline_stmt_noctx || r
                    == Rule::let_block_stmt_ctx || r == Rule::let_block_stmt_noctx
            },
    ensures
        package_commands(ct, stmts) == stmts.filter(kept_for_package(ct)).map_values(
            command_read_off(ct),
        ),
    decreases stmts.len(),
{
    if stmts.len() > 0 {
        let init = stmts.drop_last();
        let last = stmts.last();
        assert(last == stmts[stmts.len() - 1]);
        assert forall|i: int| 0 <= i < init.len() implies {
            let r = (#[trigger] init[i]).rule;
            r == Rule::let_inline_stmt_ctx || r == Rule::let_inline_stmt_noctx || r
                == Rule::let_block_stmt_ctx || r == Rule::let_block_stmt_noctx
        } by {
            assert(init[i] == stmts[i]);
        }
        lemma_commands_read_off(ct, init);
        let f = init.filter(kept_for_package(ct));
        reveal(Seq::filter);
        assert(stmts.filter(kept_for_package(ct)) == if kept_for_package(ct)(last) {
            f.push(last)
        } else {
            f
        });
        if kept_for_package(ct)(last) {
            assert(f.push(last).map_values(command_read_off(ct)) =~= f.map_values(
                command_read_off(ct),
            ).push(command_read_off(ct)(last)));
            assert(command_read_off(ct)(last) == command_component(ct, last));
        }
    }
}

/// The inline commands read off a file are, in order, one for each inline-command definition
/// of its tree (those with a context, then those without) that is kept for the package, named
/// by its command-name node.
pub proof fn lemma_inline_commands_read_off(ct: CstText)
    ensures
        package_commands(
            ct,
            definitions(ct, Rule::let_inline_stmt_ctx, Rule::let_inline_stmt_noctx),
        ) == (ct.tree().spec_pickup(Rule::let_inline_stmt_ctx) + ct.tree().spec_pickup(
            Rule::let_inline_stmt_noctx,
        )).filter(kept_for_package(ct)).map_values(command_read_off(ct)),
{
    lemma_definitions_rules(ct, Rule::let_inline_stmt_ctx, Rule::let_inline_stmt_noctx);
    lemma_commands_read_off(
        ct,
        definitions(ct, Rule::let_inline_stmt_ctx, Rule::let_inline_stmt_noctx),
    );
}

/// The block commands read off a file are, in order, one for each block-command definition of
/// its tree (those with a context, then those without) that is kept for the package, named by
/// its command-name node.
pub proof fn lemma_block_commands_read_off(ct: CstText)
    ensures
        package_commands(
            ct,
            definitions(ct, Rule::let_block_stmt_ctx, Rule::let_block_stmt_noctx),
        ) == (ct.tree().spec_pickup(Rule::let_block_stmt_ctx) + ct.tree().spec_pickup(
            Rule::let_block_stmt_noctx,
        )).filter(kept_for_package(ct)).map_values(command_read_off(ct)),
{
    lemma_definitions_rules(ct, Rule::let_block_stmt_ctx, Rule::let_block_stmt_noctx);
    lemma_commands_read_off(
        ct,
        definitions(ct, Rule::let_block_stmt_ctx, Rule::let_block_stmt_noctx),
    );
}

proof fn lemma_definitions_rules(ct: CstText, first: Rule, second: Rule)
    ensures
        definitions(ct, first, second) == ct.tree().spec_pickup(first) + ct.tree().spec_pickup(
            second,
        ),
        forall|i: int|
            0 <= i < definitions(ct, first, second).len() ==> (#[trigger] definitions(
                ct,
                first,
                second,
            )[i]).rule == first || definitions(ct, first, second)[i].rule == second,
{
    let root = ct.tree();
    lemma_pickup_rule(root.inner@, first);
    lemma_pickup_rule(root.inner@, second);
    let a = root.spec_pickup(first);
    let b = root.spec_pickup(second);
    assert forall|i: int| 0 <= i < definitions(ct, first, second).len() implies (#[trigger] definitions(
        ct,
        first,
        second,
    )[i]).rule == first || definitions(ct, first, second)[i].rule == second by {
        if i < a.len() {
            assert(definitions(ct, first, second)[i] == a[i]);
        } else {
            assert(definitions(ct, first, second)[i] == b[i - a.len()]);
        }
    }
}

// ---------------------------------------------------------------------------------------------
// Math commands.
/// The math command that a `let-math` statement defines: the text of its first child.
pub open spec fn defined_math_command(ct: CstText, stmt: Cst) -> CommandView {
    CommandView { name: ct.spec_text(stmt.inner@[0].span), type_: None, type_declaration: None }
}

/// The component that a `let-math` statement adds to its package: visible and usable as a
/// variable defined by a `let` statement in the same place would be.
pub open spec fn math_component(ct: CstText, stmt: Cst) -> PackageComponent<CommandView> {
    PackageComponent {
        visibility: variable_visibility(ct, stmt),
        body: defined_math_command(ct, stmt),
        scope: variable_scope(ct, stmt),
        pos_definition: stmt.inner@[0].span.start,
    }
}

/// The components added by those of the `let-math` statements `stmts` that stand outside
/// modules.
pub open spec fn package_math_commands(ct: CstText, stmts: Seq<Cst>) -> Seq<
    PackageComponent<CommandView>,
>
    decreases stmts.len(),
{
    if stmts.len() == 0 {
        seq![]
    } else {
        let last = stmts.last();
        package_math_commands(ct, stmts.drop_last()) + if outside_module(
            statement_place(ct, last),
        ) {
            seq![math_component(ct, last)]
        } else {
            seq![]
        }
    }
}

pub open spec fn math_views(v: Seq<PackageComponent<MathCmd>>) -> Seq<
    PackageComponent<CommandView>,
> {
    v.map_values(|c: PackageComponent<MathCmd>| c@)
}

impl MathCmd {
    /// The math commands defined in the package, outside modules.
    pub fn extract_from_package(csttext: &CstText) -> (res: Vec<PackageComponent<MathCmd>>)
        ensures
            math_views(res@) == package_math_commands(
                *csttext,
                csttext.tree().spec_pickup(Rule::let_math_stmt),
            ),
    {
        let root = csttext.cst();
        let stmts = pick_below(csttext, root, Rule::let_math_stmt);
        let ghost s = stmts@.map_values(|c: &Cst| *c);
        let mut res: Vec<PackageComponent<MathCmd>> = Vec::new();
        let n = stmts.len();
        for i in 0..n
            invariant
                n == stmts.len(),
                s == stmts@.map_values(|c: &Cst| *c),
                s == csttext.tree().spec_pickup(Rule::let_math_stmt),
                forall|j: int|
                    0 <= j < n ==> tree_fits(csttext.bytes(), *#[trigger] stmts@[j])
                        && stmts@[j].rule == Rule::let_math_stmt,
                math_views(res@) == package_math_commands(*csttext, s.take(i as int)),
        {
            let cst = stmts[i];
            assert(s[i as int] == *cst);
            assert(s.take(i + 1).drop_last() == s.take(i as int));
            let keep = match MathCmd::find_parent(csttext, cst) {
                Some(parent) => parent != Rule::module_stmt,
                None => false,
            };
            if keep {
                res.push(MathCmd::new_package_variable(csttext, cst));
            }
            assert(math_views(res@) =~= package_math_commands(*csttext, s.take(i + 1)));
        }
        assert(s.take(n as int) == s);
        res
    }

    /// The component that the `let-math` statement `cst_stmt` adds: local to the expression
    /// it binds when it stands in a binding, else public up to the end of the file.
    pub fn new_package_variable(csttext: &CstText, cst_stmt: &Cst) -> (res: PackageComponent<
        MathCmd,
    >)
        requires
            cst_stmt.rule == Rule::let_math_stmt,
            tree_fits(csttext.bytes(), *cst_stmt),
        ensures
            res@ == math_component(*csttext, *cst_stmt),
    {
        let visibility = match MathCmd::find_parent(csttext, cst_stmt) {
            Some(Rule::bind_stmt) => PackageVisibility::Binded,
            _ => PackageVisibility::Public,
        };
        let body = MathCmd::new(csttext, cst_stmt);
        let pos_definition = cst_stmt.inner[0].span.start;
        let start = cst_stmt.span.end;
        let end = if visibility == PackageVisibility::Binded {
            match csttext.cst().get_parent(cst_stmt) {
                Some(parent) => parent.span.end,
                None => cst_stmt.span.end,
            }
        } else {
            csttext.cst().span.end
        };
        PackageComponent { visibility, body, pos_definition, scope: Span { start, end } }
    }

    /// The math command that the `let-math` statement `cst_stmt` defines.
    pub fn new(csttext: &CstText, cst_stmt: &Cst) -> (res: MathCmd)
        requires
            cst_stmt.rule == Rule::let_math_stmt,
            tree_fits(csttext.bytes(), *cst_stmt),
        ensures
            res@ == defined_math_command(*csttext, *cst_stmt),
    {
        proof {
            lemma_forest_fits_index(csttext.bytes(), cst_stmt.inner@, 0);
        }
        let name = csttext.get_text(&cst_stmt.inner[0]).to_owned();
        MathCmd { name, type_: None, type_declaration: None }
    }

    /// The place in which the definition `cst` stands: the nearest binding, module or preamble.
    pub fn find_parent(csttext: &CstText, cst: &Cst) -> (res: Option<Rule>)
        ensures
            res == statement_place(*csttext, *cst),
    {
        place_of(csttext, cst, PlaceKind::Binding)
    }
}

/// The component that a `let-math` statement adds, read off the statement: named by the text
/// of its first child, defined where that child starts, local to a binding when it stands in
/// one and public otherwise.
pub open spec fn math_read_off(ct: CstText) -> spec_fn(Cst) -> PackageComponent<CommandView> {
    |s: Cst|
        PackageComponent {
            visibility: use_visibility(ct, s),
            body: CommandView {
                name: ct.spec_text(s.inner@[0].span),
                type_: None,
                type_declaration: None,
            },
            scope: use_span(ct, s),
            pos_definition: s.inner@[0].span.start,
        }
}

/// The math commands that the `let-math` statements `stmts` add are, in order, one for each
/// statement kept for the package, read off that statement.
pub proof fn lemma_math_commands_read_off(ct: CstText, stmts: Seq<Cst>)
    ensures
        package_math_commands(ct, stmts) == stmts.filter(kept_for_package(ct)).map_values(
            math_read_off(ct),
        ),
    decreases stmts.len(),
{
    reveal(Seq::filter);
    if stmts.len() > 0 {
        let init = stmts.drop_last();
        let last = stmts.last();
        lemma_math_commands_read_off(ct, init);
        let f = init.filter(kept_for_package(ct));
        if kept_for_package(ct)(last) {
            assert(f.push(last).map_values(math_read_off(ct)) =~= f.map_values(math_read_off(ct)).push(
                math_read_off(ct)(last),
            ));
            assert(math_read_off(ct)(last) == math_component(ct, last));
        }
    }
}

// ---------------------------------------------------------------------------------------------
// Where definitions can be used.
/// The component is defined before it can be used: its definition starts before its scope,
/// which ends within a file that ends at `file_end`.
pub open spec fn defined_before_use<T>(c: PackageComponent<T>, file_end: usize) -> bool {
    c.pos_definition < c.scope.start <= c.scope.end <= file_end
}

/// What the extraction reads of a statement picked up from the tree of `ct`: it lies within
/// the file, the names it defines are not empty, its spans nest and its nodes fit the text.
spec fn picked(ct: CstText, stmt: Cst) -> bool {
    &&& ct.tree().span.spec_contains(stmt.span)
    &&& has_named_children(stmt)
    &&& spans_nested(stmt)
    &&& tree_fits(ct.bytes(), stmt)
}

proof fn lemma_picked(ct: CstText, rule: Rule)
    requires
        ct.well_formed(),
    ensures
        forall|i: int|
            0 <= i < ct.tree().spec_pickup(rule).len() ==> picked(
                ct,
                #[trigger] ct.tree().spec_pickup(rule)[i],
            ) && ct.tree().spec_pickup(rule)[i].rule == rule,
{
    let root = ct.tree();
    lemma_pickup_nested(root.inner@, root.span, rule);
    lemma_pickup_fits(ct.bytes(), root.inner@, rule);
    lemma_pickup_rule(root.inner@, rule);
}

/// A name that a picked statement defines starts before the statement ends, and the scope
/// that a binding or the file gives the statement ends within the file, not before the
/// statement.
proof fn lemma_statement_bounds(ct: CstText, stmt: Cst, k: int)
    requires
        ct.well_formed(),
        picked(ct, stmt),
        0 <= k < required_children(stmt.rule),
    ensures
        stmt.inner@[k].span.start < stmt.span.end,
        stmt.span.end <= variable_scope(ct, stmt).end <= ct.tree().span.end,
{
    let root = ct.tree();
    assert(stmt.inner.len() >= required_children(stmt.rule));
    lemma_forest_nested_index(stmt.inner@, stmt.span, k);
    assert(required_children(stmt.rule) <= 2);
    if variable_visibility(ct, stmt) == PackageVisibility::Binded {
        if let Some(p) = root.spec_get_parent(stmt) {
            lemma_get_parent_encloses(root, stmt);
            let pos = stmt.span.start as int;
            let d = root.spec_dig(pos);
            assert(root.span.spec_includes(pos));
            assert(d.last() == root);
            lemma_dig_chain(root, pos);
            let j = choose|j: int| 0 <= j < d.len() && d[j] == p;
            if j < d.len() - 1 {
                assert(d[d.len() - 1].span.spec_contains(d[j].span));
            }
        }
    }
}

/// Every variable read off a well-formed file is defined before it can be used: the pattern
/// that defines it starts before its scope, and the scope ends within the file.
pub proof fn lemma_variables_defined_before_use(ct: CstText)
    requires
        ct.well_formed(),
    ensures
        forall|i: int|
            0 <= i < package_variables(ct, ct.tree().spec_pickup(Rule::let_stmt)).len()
                ==> defined_before_use(
                #[trigger] package_variables(ct, ct.tree().spec_pickup(Rule::let_stmt))[i],
                ct.tree().span.end,
            ),
{
    lemma_picked(ct, Rule::let_stmt);
    lemma_package_variables_bounded(ct, ct.tree().spec_pickup(Rule::let_stmt));
}

proof fn lemma_package_variables_bounded(ct: CstText, stmts: Seq<Cst>)
    requires
        ct.well_formed(),
        forall|i: int|
            0 <= i < stmts.len() ==> picked(ct, #[trigger] stmts[i]) && stmts[i].rule
                == Rule::let_stmt,
    ensures
        forall|i: int|
            0 <= i < package_variables(ct, stmts).len() ==> defined_before_use(
                #[trigger] package_variables(ct, stmts)[i],
                ct.tree().span.end,
            ),
    decreases stmts.len(),
{
    if stmts.len() > 0 {
        let init = stmts.drop_last();
        let last = stmts.last();
        assert(picked(ct, stmts[stmts.len() - 1]));
        lemma_package_variables_bounded(ct, init);
        lemma_statement_bounds(ct, last, 0);
        let a = package_variables(ct, init);
        let all = package_variables(ct, stmts);
        assert forall|i: int| 0 <= i < all.len() implies defined_before_use(
            #[trigger] all[i],
            ct.tree().span.end,
        ) by {
            if i < a.len() {
                assert(all[i] == a[i]);
            } else {
                assert(all[i] == statement_components(ct, last)[i - a.len()]);
            }
        }
    }
}

/// Every inline or block command read off a well-formed file is defined before it can be
/// used: its name starts before its scope, and the scope ends within the file.
pub proof fn lemma_commands_defined_before_use(ct: CstText)
    requires
        ct.well_formed(),
    ensures
        forall|i: int|
            0 <= i < package_commands(
                ct,
                definitions(ct, Rule::let_inline_stmt_ctx, Rule::let_inline_stmt_noctx),
            ).len() ==> defined_before_use(
                #[trigger] package_commands(
                    ct,
                    definitions(ct, Rule::let_inline_stmt_ctx, Rule::let_inline_stmt_noctx),
                )[i],
                ct.tree().span.end,
            ),
        forall|i: int|
            0 <= i < package_commands(
                ct,
                definitions(ct, Rule::let_block_stmt_ctx, Rule::let_block_stmt_noctx),
            ).len() ==> defined_before_use(
                #[trigger] package_commands(
                    ct,
                    definitions(ct, Rule::let_block_stmt_ctx, Rule::let_block_stmt_noctx),
                )[i],
                ct.tree().span.end,
            ),
{
    lemma_definitions_picked(ct, Rule::let_inline_stmt_ctx, Rule::let_inline_stmt_noctx);
    lemma_definitions_picked(ct, Rule::let_block_stmt_ctx, Rule::let_block_stmt_noctx);
    lemma_package_commands_bounded(
        ct,
        definitions(ct, Rule::let_inline_stmt_ctx, Rule::let_inline_stmt_noctx),
    );
    lemma_package_commands_bounded(
        ct,
        definitions(ct, Rule::let_block_stmt_ctx, Rule::let_block_stmt_noctx),
    );
}

proof fn lemma_definitions_picked(ct: CstText, first: Rule, second: Rule)
    requires
        ct.well_formed(),
    ensures
        forall|i: int|
            0 <= i < definitions(ct, first, second).len() ==> picked(
                ct,
                #[trigger] definitions(ct, first, second)[i],
            ) && (definitions(ct, first, second)[i].rule == first || definitions(
                ct,
                first,
                second,
            )[i].rule == second),
{
    lemma_picked(ct, first);
    lemma_picked(ct, second);
    let a = ct.tree().spec_pickup(first);
    let b = ct.tree().spec_pickup(second);
    assert forall|i: int| 0 <= i < definitions(ct, first, second).len() implies picked(
        ct,
        #[trigger] definitions(ct, first, second)[i],
    ) && (definitions(ct, first, second)[i].rule == first || definitions(
        ct,
        first,
        second,
    )[i].rule == second) by {
        if i < a.len() {
            assert(definitions(ct, first, second)[i] == a[i]);
        } else {
            assert(definitions(ct, first, second)[i] == b[i - a.len()]);
        }
    }
}

proof fn lemma_package_commands_bounded(ct: CstText, stmts: Seq<Cst>)
    requires
        ct.well_formed(),
        forall|i: int|
            0 <= i < stmts.len() ==> picked(ct, #[trigger] stmts[i]) && (is_inline_definition(
                stmts[i].rule,
            ) || is_block_definition(stmts[i].rule)),
    ensures
        forall|i: int|
            0 <= i < package_commands(ct, stmts).len() ==> defined_before_use(
                #[trigger] package_commands(ct, stmts)[i],
                ct.tree().span.end,
            ),
    decreases stmts.len(),
{
    if stmts.len() > 0 {
        let init = stmts.drop_last();
        let last = stmts.last();
        assert(picked(ct, stmts[stmts.len() - 1]));
        lemma_package_commands_bounded(ct, init);
        if last.rule == Rule::let_inline_stmt_noctx || last.rule == Rule::let_block_stmt_noctx {
            lemma_statement_bounds(ct, last, 0);
        } else {
            lemma_statement_bounds(ct, last, 1);
        }
        let a = package_commands(ct, init);
        let all = package_commands(ct, stmts);
        assert forall|i: int| 0 <= i < all.len() implies defined_before_use(
            #[trigger] all[i],
            ct.tree().span.end,
        ) by {
            if i < a.len() {
                assert(all[i] == a[i]);
            }
        }
    }
}

/// Every math command read off a well-formed file is defined before it can be used: its name
/// starts before its scope, and the scope ends within the file.
pub proof fn lemma_math_commands_defined_before_use(ct: CstText)
    requires
        ct.well_formed(),
    ensures
        forall|i: int|
            0 <= i < package_math_commands(ct, ct.tree().spec_pickup(Rule::let_math_stmt)).len()
                ==> defined_before_use(
                #[trigger] package_math_commands(ct, ct.tree().spec_pickup(Rule::let_math_stmt))[i],
                ct.tree().span.end,
            ),
{
    lemma_picked(ct, Rule::let_math_stmt);
    lemma_package_math_bounded(ct, ct.tree().spec_pickup(Rule::let_math_stmt));
}

proof fn lemma_package_math_bounded(ct: CstText, stmts: Seq<Cst>)
    requires
        ct.well_formed(),
        forall|i: int|
            0 <= i < stmts.len() ==> picked(ct, #[trigger] stmts[i]) && stmts[i].rule
                == Rule::let_math_stmt,
    ensures
        forall|i: int|
            0 <= i < package_math_commands(ct, stmts).len() ==> defined_before_use(
                #[trigger] package_math_commands(ct, stmts)[i],
                ct.tree().span.end,
            ),
    decreases stmts.len(),
{
    if stmts.len() > 0 {
        let init = stmts.drop_last();
        let last = stmts.last();
        assert(picked(ct, stmts[stmts.len() - 1]));
        lemma_package_math_bounded(ct, init);
        lemma_statement_bounds(ct, last, 0);
        let a = package_math_commands(ct, init);
        let all = package_math_commands(ct, stmts);
        assert forall|i: int| 0 <= i < all.len() implies defined_before_use(
            #[trigger] all[i],
            ct.tree().span.end,
        ) by {
            if i < a.len() {
                assert(all[i] == a[i]);
            }
        }
    }
}

// ---------------------------------------------------------------------------------------------
// Dependencies.
/// Whether a package is loaded with `@require:` or with `@import:`.
#[derive(Debug, Clone, Copy, PartialEq, Eq, Structural)]
pub enum DependencyKind {
    Require,
    Import,
}

/// A package that a file loads.
#[derive(Debug)]
pub struct Dependency {
    /// The package's name.
    name: String,
    /// `@require:` or `@import:`.
    kind: DependencyKind,
    /// Where the `@require:` or `@import:` names the package.
    definition: Span,
    /// The file in which the package is looked for.
    path: String,
    /// The URL of that file, once it is known to exist; `None` when it does not.
    url: Option<String>,
}

/// What a dependency amounts to.
pub struct DependencyView {
    pub name: Seq<char>,
    pub kind: DependencyKind,
    pub definition: Span,
    pub path: Seq<char>,
    pub url: Option<Seq<char>>,
}

pub open spec fn opt_view(o: Option<String>) -> Option<Seq<char>> {
    match o {
        Some(s) => Some(s@),
        None => None,
    }
}

pub open spec fn opt_str_view(o: Option<&str>) -> Option<Seq<char>> {
    match o {
        Some(s) => Some(s@),
        None => None,
    }
}

impl View for Dependency {
    type V = DependencyView;

    closed spec fn view(&self) -> DependencyView {
        DependencyView {
            name: self.name@,
            kind: self.kind,
            definition: self.definition,
            path: self.path@,
            url: opt_view(self.url),
        }
    }
}

pub open spec fn dependency_views(v: Seq<Dependency>) -> Seq<DependencyView> {
    v.map_values(|d: Dependency| d@)
}

/// The file name of a package.
pub open spec fn package_file(name: Seq<char>) -> Seq<char> {
    name + ".satyh"@
}

/// The directory in which required packages are installed, below the home directory `home`.
pub open spec fn dist_dir(home: Seq<char>) -> Seq<char> {
    joined_path(home, ".satysfi/dist/packages"@)
}

/// The dependency that the header `header` declares, looked for in the directory `dir`.
pub open spec fn declared_dependency(
    ct: CstText,
    header: Cst,
    kind: DependencyKind,
    dir: Seq<char>,
) -> DependencyView {
    let pkg = header.inner@[0];
    DependencyView {
        name: ct.spec_text(pkg.span),
        kind,
        definition: pkg.span,
        path: joined_path(dir, package_file(ct.spec_text(pkg.span))),
        url: None,
    }
}

/// The dependencies that a file declares, before any of their files is looked for: the
/// required packages (known only with a home directory), in the installed packages of the
/// home directory, then the imported ones (known only with the file's own path), next to the
/// file.
pub open spec fn declared_dependencies(
    ct: CstText,
    home_dir: Option<Seq<char>>,
    file_path: Option<Seq<char>>,
) -> Seq<DependencyView> {
    let required = match home_dir {
        Some(home) => ct.tree().spec_pickup(Rule::header_require).map_values(
            |h: Cst| declared_dependency(ct, h, DependencyKind::Require, dist_dir(home)),
        ),
        None => seq![],
    };
    let imported = match file_path {
        Some(path) => ct.tree().spec_pickup(Rule::header_import).map_values(
            |h: Cst| declared_dependency(ct, h, DependencyKind::Import, parent_path(path)->0),
        ),
        None => seq![],
    };
    required + imported
}

/// What a dependency becomes once it is known whether its file exists: the URL of the file
/// when it does, nothing otherwise.
pub open spec fn resolved(d: DependencyView, exists: bool) -> DependencyView {
    DependencyView {
        url: if exists {
            crate::paths::file_url(d.path)
        } else {
            None
        },
        ..d
    }
}

/// The file path, when known, has a parent, in which imported packages are looked for.
pub open spec fn parent_known(file_path: Option<Seq<char>>) -> bool {
    file_path matches Some(p) ==> parent_path(p) is Some
}

/// Resolving a dependency only records where its file is: whatever its kind, a dependency whose
/// file exists gets the URL of its path, one whose file does not exist gets none, and its name,
/// kind, place of definition and path stay as they were.
pub proof fn lemma_resolve_gives_url(d: DependencyView, exists: bool)
    ensures
        resolved(d, exists).name == d.name,
        resolved(d, exists).kind == d.kind,
        resolved(d, exists).definition == d.definition,
        resolved(d, exists).path == d.path,
        exists ==> resolved(d, exists).url == file_url(d.path),
        !exists ==> resolved(d, exists).url is None,
{
}

/// The dependencies that a file declares are exactly one per header: first, when the home
/// directory is known, one per `@require:` in order, each named by the package name of its
/// header and looked for among the installed packages; then, when the file's path is known,
/// one per `@import:` in order, each named by its header and looked for next to the file.
pub proof fn lemma_dependencies_one_per_header(
    ct: CstText,
    home_dir: Option<Seq<char>>,
    file_path: Option<Seq<char>>,
)
    ensures
        ({
            let req = ct.tree().spec_pickup(Rule::header_require);
            let imp = ct.tree().spec_pickup(Rule::header_import);
            let d = declared_dependencies(ct, home_dir, file_path);
            let r: int = if home_dir is Some { req.len() as int } else { 0 };
            let n: int = if file_path is Some { imp.len() as int } else { 0 };
            &&& d.len() == r + n
            &&& forall|k: int|
                0 <= k < r ==> {
                    let pkg = #[trigger] req[k].inner@[0];
                    d[k] == DependencyView {
                        name: ct.spec_text(pkg.span),
                        kind: DependencyKind::Require,
                        definition: pkg.span,
                        path: joined_path(
                            joined_path(home_dir->0, ".satysfi/dist/packages"@),
                            ct.spec_text(pkg.span) + ".satyh"@,
                        ),
                        url: None,
                    }
                }
            &&& forall|k: int|
                0 <= k < n ==> {
                    let pkg = #[trigger] imp[k].inner@[0];
                    d[r + k] == DependencyView {
                        name: ct.spec_text(pkg.span),
                        kind: DependencyKind::Import,
                        definition: pkg.span,
                        path: joined_path(
                            parent_path(file_path->0)->0,
                            ct.spec_text(pkg.span) + ".satyh"@,
                        ),
                        url: None,
                    }
                }
        }),
{
    let req = ct.tree().spec_pickup(Rule::header_require);
    let imp = ct.tree().spec_pickup(Rule::header_import);
    let d = declared_dependencies(ct, home_dir, file_path);
    let r: int = if home_dir is Some { req.len() as int } else { 0 };
    let n: int = if file_path is Some { imp.len() as int } else { 0 };
    let a: Seq<DependencyView> = match home_dir {
        Some(home) => req.map_values(
            |h: Cst| declared_dependency(ct, h, DependencyKind::Require, dist_dir(home)),
        ),
        None => seq![],
    };
    let b: Seq<DependencyView> = match file_path {
        Some(path) => imp.map_values(
            |h: Cst| declared_dependency(ct, h, DependencyKind::Import, parent_path(path)->0),
        ),
        None => seq![],
    };
    assert(d == a + b);
    assert forall|k: int| 0 <= k < n implies {
        let pkg = #[trigger] imp[k].inner@[0];
        d[r + k] == DependencyView {
            name: ct.spec_text(pkg.span),
            kind: DependencyKind::Import,
            definition: pkg.span,
            path: joined_path(parent_path(file_path->0)->0, ct.spec_text(pkg.span) + ".satyh"@),
            url: None,
        }
    } by {
        assert(d[r + k] == b[k]);
    }
}

impl Dependency {
    pub fn name(&self) -> (r: &str)
        ensures
            r@ == self@.name,
    {
        self.name.as_str()
    }

    pub fn kind(&self) -> (r: DependencyKind)
        ensures
            r == self@.kind,
    {
        self.kind
    }

    pub fn definition(&self) -> (r: Span)
        ensures
            r == self@.definition,
    {
        self.definition
    }

    pub fn path(&self) -> (r: &str)
        ensures
            r@ == self@.path,
    {
        self.path.as_str()
    }

    pub fn url(&self) -> (r: Option<&str>)
        ensures
            opt_str_view(r) == self@.url,
    {
        match &self.url {
            Some(u) => Some(u.as_str()),
            None => None,
        }
    }

    /// Records whether the file of the dependency exists: if it does, the dependency gets the
    /// file's URL.
    pub fn resolve(&mut self, exists: bool)
        ensures
            final(self)@ == resolved(old(self)@, exists),
            final(self)@.name == old(self)@.name,
            final(self)@.kind == old(self)@.kind,
            final(self)@.definition == old(self)@.definition,
            final(self)@.path == old(self)@.path,
            exists ==> final(self)@.url == crate::paths::file_url(old(self)@.path),
            exists && is_absolute(old(self)@.path) ==> final(self)@.url is Some,
            !exists ==> final(self)@.url is None,
    {
        self.url = if exists {
            crate::paths::file_path_url(self.path.as_str())
        } else {
            None
        };
    }

    /// The packages that the headers of the file declare (see [`declared_dependencies`]),
    /// given the home directory and the file's own path when they are known.
    pub fn extract(csttext: &CstText, home_dir: Option<&str>, file_path: Option<&str>) -> (res: Vec<
        Dependency,
    >)
        requires
            parent_known(opt_str_view(file_path)),
        ensures
            dependency_views(res@) == declared_dependencies(
                *csttext,
                opt_str_view(home_dir),
                opt_str_view(file_path),
            ),
    {
        let mut deps: Vec<Dependency> = Vec::new();
        let program = csttext.cst();
        let require_packages = program.pickup(Rule::header_require);
        let import_packages = program.pickup(Rule::header_import);
        proof {
            lemma_pickup_fits(csttext.bytes(), program.inner@, Rule::header_require);
            lemma_pickup_fits(csttext.bytes(), program.inner@, Rule::header_import);
            lemma_pickup_rule(program.inner@, Rule::header_require);
            lemma_pickup_rule(program.inner@, Rule::header_import);
            assert forall|j: int| 0 <= j < require_packages.len() implies *#[trigger] require_packages@[j]
                == program.spec_pickup(Rule::header_require)[j] by {
                assert(require_packages@.map_values(|c: &Cst| *c)[j] == *require_packages@[j]);
            }
            assert forall|j: int| 0 <= j < import_packages.len() implies *#[trigger] import_packages@[j]
                == program.spec_pickup(Rule::header_import)[j] by {
                assert(import_packages@.map_values(|c: &Cst| *c)[j] == *import_packages@[j]);
            }
        }
        if let Some(home_path) = home_dir {
            let dist_path = path_join(home_path, ".satysfi/dist/packages");
            let required = Dependency::declared(
                csttext,
                &require_packages,
                DependencyKind::Require,
                dist_path.as_str(),
            );
            deps = append_all(deps, required);
        }
        assert(dependency_views(deps@) =~= declared_dependencies(
            *csttext,
            opt_str_view(home_dir),
            None,
        ));
        let ghost before = deps@;
        if let Some(file_path) = file_path {
            let parent_path = match path_parent(file_path) {
                Some(p) => p,
                None => {
                    return deps;
                },
            };
            let imported = Dependency::declared(
                csttext,
                &import_packages,
                DependencyKind::Import,
                parent_path.as_str(),
            );
            deps = append_all(deps, imported);
            assert(dependency_views(deps@) =~= dependency_views(before) + dependency_views(
                imported@,
            ));
        }
        deps
    }

    /// The dependencies that the headers `headers` declare, looked for in the directory `dir`.
    fn declared(csttext: &CstText, headers: &Vec<&Cst>, kind: DependencyKind, dir: &str) -> (res:
        Vec<Dependency>)
        requires
            forall|j: int|
                0 <= j < headers.len() ==> tree_fits(csttext.bytes(), *#[trigger] headers@[j])
                    && (headers@[j].rule == Rule::header_require || headers@[j].rule
                    == Rule::header_import),
        ensures
            dependency_views(res@) == headers@.map_values(|c: &Cst| *c).map_values(
                |h: Cst| declared_dependency(*csttext, h, kind, dir@),
            ),
    {
        let mut res: Vec<Dependency> = Vec::new();
        let n = headers.len();
        for i in 0..n
            invariant
                n == headers.len(),
                forall|j: int|
                    0 <= j < headers.len() ==> tree_fits(csttext.bytes(), *#[trigger] headers@[j])
                        && (headers@[j].rule == Rule::header_require || headers@[j].rule
                        == Rule::header_import),
                res.len() == i,
                forall|j: int|
                    0 <= j < i ==> (#[trigger] res@[j])@ == declared_dependency(
                        *csttext,
                        *headers@[j],
                        kind,
                        dir@,
                    ),
        {
            let header = headers[i];
            let pkg = &header.inner[0];
            proof {
                lemma_forest_fits_index(csttext.bytes(), header.inner@, 0);
            }
            let pkgname = csttext.get_text(pkg);
            let file_name = pkgname.to_owned().concat(".satyh");
            let path = path_join(dir, file_name.as_str());
            res.push(
                Dependency {
                    name: pkgname.to_owned(),
                    kind,
                    definition: pkg.span,
                    path,
                    url: None,
                },
            );
        }
        assert(dependency_views(res@) =~= headers@.map_values(|c: &Cst| *c).map_values(
            |h: Cst| declared_dependency(*csttext, h, kind, dir@),
        ));
        res
    }
}


// ---------------------------------------------------------------------------------------------
// Environments.
/// What a file defines and what it depends on.
#[derive(Debug)]
pub struct Environment {
    /// The packages that the file requires or imports.
    pub dependencies: Vec<Dependency>,
    /// The modules of the file. They are not read off: this list is left empty.
    pub modules: Vec<Module>,
    /// The variables defined in the package.
    pub variables: Vec<PackageComponent<Variable>>,
    /// The types defined in the package.
    pub types: Vec<PackageComponent<CustomType>>,
    /// The variants defined in the package.
    pub variants: Vec<PackageComponent<Variant>>,
    /// The inline commands defined in the package.
    pub inline_cmds: Vec<PackageComponent<InlineCmd>>,
    /// The block commands defined in the package.
    pub block_cmds: Vec<PackageComponent<BlockCmd>>,
    /// The math commands defined in the package.
    pub math_cmds: Vec<PackageComponent<MathCmd>>,
}

/// What is read off a parsed file, everything but its dependencies: the variables, types,
/// variants and commands defined outside modules. Modules themselves are not read off.
pub open spec fn definitions_read(env: Environment, ct: CstText) -> bool {
    &&& env.modules.len() == 0
    &&& type_views(env.types@) == package_types(ct, ct.tree().spec_pickup(Rule::type_stmt))
    &&& variant_views(env.variants@) == package_variants(
        ct,
        ct.tree().spec_pickup(Rule::type_stmt),
    )
    &&& math_views(env.math_cmds@) == package_math_commands(
        ct,
        ct.tree().spec_pickup(Rule::let_math_stmt),
    )
    &&& variable_views(env.variables@) == package_variables(
        ct,
        ct.tree().spec_pickup(Rule::let_stmt),
    )
    &&& inline_views(env.inline_cmds@) == package_commands(
        ct,
        definitions(ct, Rule::let_inline_stmt_ctx, Rule::let_inline_stmt_noctx),
    )
    &&& block_views(env.block_cmds@) == package_commands(
        ct,
        definitions(ct, Rule::let_block_stmt_ctx, Rule::let_block_stmt_noctx),
    )
}

/// The environment of a parsed file before any dependency is looked for.
pub open spec fn environment_of(
    env: Environment,
    ct: CstText,
    home_dir: Option<Seq<char>>,
    file_path: Option<Seq<char>>,
) -> bool {
    &&& definitions_read(env, ct)
    &&& dependency_views(env.dependencies@) == declared_dependencies(ct, home_dir, file_path)
}

impl Default for Environment {
    fn default() -> (r: Environment)
        ensures
            r.dependencies.len() == 0,
            r.modules.len() == 0,
            r.variables.len() == 0,
            r.types.len() == 0,
            r.variants.len() == 0,
            r.inline_cmds.len() == 0,
            r.block_cmds.len() == 0,
            r.math_cmds.len() == 0,
    {
        Environment {
            dependencies: Vec::new(),
            modules: Vec::new(),
            variables: Vec::new(),
            types: Vec::new(),
            variants: Vec::new(),
            inline_cmds: Vec::new(),
            block_cmds: Vec::new(),
            math_cmds: Vec::new(),
        }
    }
}

impl Environment {
    /// Reads the environment off a parsed file, given the home directory and the file's own
    /// path when they are known. The files of the dependencies are not looked for yet.
    pub fn new(csttext: &CstText, home_dir: Option<&str>, file_path: Option<&str>) -> (res:
        Environment)
        requires
            parent_known(opt_str_view(file_path)),
        ensures
            environment_of(res, *csttext, opt_str_view(home_dir), opt_str_view(file_path)),
    {
        let dependencies = Dependency::extract(csttext, home_dir, file_path);
        let modules: Vec<Module> = Vec::new();
        let types = CustomType::extract_from_package(csttext);
        let variants = Variant::extract_from_package(csttext);
        let variables = Variable::extract_from_package(csttext);
        let inline_cmds = InlineCmd::extract_from_package(csttext);
        let block_cmds = BlockCmd::extract_from_package(csttext);
        let math_cmds = MathCmd::extract_from_package(csttext);
        Environment {
            dependencies,
            modules,
            types,
            variants,
            variables,
            inline_cmds,
            block_cmds,
            math_cmds,
        }
    }

    /// The files in which the dependencies are looked for, in order.
    pub fn dependency_paths(&self) -> (r: Vec<String>)
        ensures
            r@.map_values(|p: String| p@) == dependency_views(self.dependencies@).map_values(
                |d: DependencyView| d.path,
            ),
    {
        let mut r: Vec<String> = Vec::new();
        let n = self.dependencies.len();
        for i in 0..n
            invariant
                n == self.dependencies.len(),
                r.len() == i,
                forall|j: int| 0 <= j < i ==> (#[trigger] r@[j])@ == self.dependencies@[j]@.path,
        {
            r.push(self.dependencies[i].path().to_owned());
        }
        assert(r@.map_values(|p: String| p@) =~= dependency_views(self.dependencies@).map_values(
            |d: DependencyView| d.path,
        ));
        r
    }

    /// Records, for each dependency in order, whether its file exists.
    pub fn resolve_dependencies(&mut self, exists: &Vec<bool>)
        requires
            exists.len() == old(self).dependencies.len(),
        ensures
            final(self).dependencies.len() == old(self).dependencies.len(),
            forall|i: int|
                0 <= i < exists.len() ==> (#[trigger] final(self).dependencies@[i])@ == resolved(
                    old(self).dependencies@[i]@,
                    exists@[i],
                ),
            final(self).modules == old(self).modules,
            final(self).variables == old(self).variables,
            final(self).types == old(self).types,
            final(self).variants == old(self).variants,
            final(self).inline_cmds == old(self).inline_cmds,
            final(self).block_cmds == old(self).block_cmds,
            final(self).math_cmds == old(self).math_cmds,
    {
        let n = self.dependencies.len();
        let mut deps: Vec<Dependency> = Vec::new();
        std::mem::swap(&mut deps, &mut self.dependencies);
        let ghost old_deps = deps@;
        let mut resolved_deps: Vec<Dependency> = Vec::new();
        let mut k: usize = 0;
        while deps.len() > 0
            invariant
                k + deps.len() == n,
                n == old_deps.len(),
                n == exists.len(),
                deps@ == old_deps.skip(k as int),
                resolved_deps.len() == k,
                forall|j: int|
                    0 <= j < k ==> (#[trigger] resolved_deps@[j])@ == resolved(
                        old_deps[j]@,
                        exists@[j],
                    ),
            decreases deps.len(),
        {
            let mut d = deps.remove(0);
            assert(old_deps.skip(k as int)[0] == d);
            assert(old_deps.skip(k as int).drop_first() == old_deps.skip(k + 1));
            d.resolve(exists[k]);
            resolved_deps.push(d);
            k += 1;
        }
        self.dependencies = resolved_deps;
    }
}


// ---------------------------------------------------------------------------------------------
// Documents.
/// What is known of one file.
#[derive(Debug)]
pub enum DocumentData {
    /// A file that the parser accepted.
    Parsed {
        /// Its syntax tree and text.
        csttext: CstText,
        /// What it defines and depends on.
        environment: Environment,
    },
    /// A file that the parser rejected.
    NotParsed {
        /// Its text.
        text: String,
        /// Where the error is.
        linecol: LineCol,
        /// The tokens expected there, each once, in no particular order.
        expect: Vec<String>,
    },
}

/// The parser accepts the text and lists a tree that fits it.
pub open spec fn parses(text: Seq<char>) -> bool {
    satysfi_parse_program(text) matches Ok(nodes) && listing_fits(
        nodes,
        vstd::utf8::encode_utf8(text),
    )
}

/// What building the data of the file with text `text` gives (`r`), given the home directory
/// and the file's own path when they are known: `NoParentDirectory` exactly when the file
/// parses and its path has no parent; `MalformedTree` exactly when the parser's nodes form no
/// tree that fits the text; otherwise the parsed file with its environment, or the text that did
/// not parse with where and what the parser expected.
pub open spec fn built(
    r: Result<DocumentData, DocumentError>,
    text: Seq<char>,
    home_dir: Option<Seq<char>>,
    file_path: Option<Seq<char>>,
) -> bool {
    &&& r == Err::<DocumentData, _>(DocumentError::NoParentDirectory) <==> parses(text)
        && !parent_known(file_path)
    &&& r == Err::<DocumentData, _>(DocumentError::MalformedTree) <==> (satysfi_parse_program(
        text,
    ) is Ok && !parses(text))
    &&& r matches Ok(DocumentData::Parsed { csttext, environment }) ==> {
        &&& parses(text)
        &&& csttext.source() == text
        &&& satysfi_parse_program(text) matches Ok(nodes) && lists(nodes, csttext.tree())
        &&& environment_of(environment, csttext, home_dir, file_path)
    }
    &&& r matches Ok(DocumentData::NotParsed { text: t, linecol, expect }) ==> {
        &&& t@ == text
        &&& satysfi_parse_program(text) matches Err((lc, expected)) && linecol == lc
            && expect@.map_values(|s: String| s@).to_set() == expected
            && expect@.map_values(|s: String| s@).no_duplicates()
    }
    &&& satysfi_parse_program(text) is Err ==> (r matches Ok(DocumentData::NotParsed { .. }))
    &&& parses(text) && parent_known(file_path) ==> (r matches Ok(DocumentData::Parsed { .. }))
}

/// Why no document data can be built for a text.
#[derive(Debug, Clone, Copy, PartialEq, Eq, Structural)]
pub enum DocumentError {
    /// The text parses but the path of the file has no parent, in which the imported packages
    /// would be looked for.
    NoParentDirectory,
    /// The parser's nodes do not form a tree that fits the text.
    MalformedTree,
}

impl DocumentData {
    /// Parses a file and reads off its environment, given the home directory when it is known
    /// and the URL the file was opened under, which names the file's own path when it is a
    /// `file:` URL (see [`crate::paths::url_file_path`]). The files of the dependencies are not
    /// looked for yet.
    pub fn new(text: &str, home_dir: Option<&str>, url: &str) -> (r: Result<
        DocumentData,
        DocumentError,
    >)
        ensures
            built(r, text@, opt_str_view(home_dir), url_file_path(url@)),
    {
        match url_to_file_path(url) {
            Some(p) => DocumentData::from_path(text, home_dir, Some(p.as_str())),
            None => DocumentData::from_path(text, home_dir, None),
        }
    }

    /// Parses a file and reads off its environment, given the home directory and the file's own
    /// path when they are known. The files of the dependencies are not looked for yet.
    pub fn from_path(text: &str, home_dir: Option<&str>, file_path: Option<&str>) -> (r: Result<
        DocumentData,
        DocumentError,
    >)
        ensures
            built(r, text@, opt_str_view(home_dir), opt_str_view(file_path)),
    {
        match CstText::parse(text) {
            Ok(csttext) => {
                proof {
                    if let Ok(nodes) = satysfi_parse_program(text@) {
                        assert(lists(nodes, csttext.tree()) && crate::cst::tree_fits(
                            vstd::utf8::encode_utf8(text@),
                            csttext.tree(),
                        ));
                    }
                }
                if let Some(fp) = file_path {
                    if path_parent(fp).is_none() {
                        return Err(DocumentError::NoParentDirectory);
                    }
                }
                let environment = Environment::new(&csttext, home_dir, file_path);
                Ok(DocumentData::Parsed { csttext, environment })
            },
            Err(ParseError::Syntax { linecol, expect }) => Ok(
                DocumentData::NotParsed { text: text.to_owned(), linecol, expect },
            ),
            Err(ParseError::Malformed) => Err(DocumentError::MalformedTree),
        }
    }

    /// The number of dependencies of the file: none when it was not parsed.
    pub open spec fn dependency_count(self) -> nat {
        match self {
            DocumentData::Parsed { environment, .. } => environment.dependencies@.len(),
            DocumentData::NotParsed { .. } => 0,
        }
    }

    /// The files in which the dependencies are looked for, in order.
    pub fn dependency_paths(&self) -> (r: Vec<String>)
        ensures
            r@.map_values(|p: String| p@) == match self {
                DocumentData::Parsed { environment, .. } => dependency_views(
                    environment.dependencies@,
                ).map_values(|d: DependencyView| d.path),
                DocumentData::NotParsed { .. } => Seq::<Seq<char>>::empty(),
            },
    {
        match self {
            DocumentData::Parsed { environment, .. } => environment.dependency_paths(),
            DocumentData::NotParsed { .. } => {
                let r: Vec<String> = Vec::new();
                assert(r@.map_values(|p: String| p@) =~= Seq::<Seq<char>>::empty());
                r
            },
        }
    }

    /// Records, for each dependency in order, whether its file exists.
    pub fn resolve_dependencies(&mut self, exists: &Vec<bool>)
        requires
            exists.len() == old(self).dependency_count(),
        ensures
            match (*old(self), *final(self)) {
                (
                    DocumentData::Parsed { csttext: c0, environment: e0 },
                    DocumentData::Parsed { csttext: c1, environment: e1 },
                ) => {
                    &&& c1 == c0
                    &&& e1.dependencies.len() == e0.dependencies.len()
                    &&& forall|i: int|
                        0 <= i < exists.len() ==> (#[trigger] e1.dependencies@[i])@ == resolved(
                            e0.dependencies@[i]@,
                            exists@[i],
                        )
                    &&& e1.modules == e0.modules
                    &&& e1.variables == e0.variables
                    &&& e1.types == e0.types
                    &&& e1.variants == e0.variants
                    &&& e1.inline_cmds == e0.inline_cmds
                    &&& e1.block_cmds == e0.block_cmds
                    &&& e1.math_cmds == e0.math_cmds
                },
                (DocumentData::NotParsed { .. }, _) => *final(self) == *old(self),
                _ => false,
            },
    {
        match self {
            DocumentData::Parsed { environment, .. } => environment.resolve_dependencies(exists),
            DocumentData::NotParsed { .. } => {},
        }
    }
}

/// Appends the elements of `b` to `a`.
fn append_all<T>(a: Vec<T>, b: Vec<T>) -> (r: Vec<T>)
    ensures
        r@ == a@ + b@,
{
    let mut a = a;
    let mut b = b;
    a.append(&mut b);
    a
}

} // verus!
