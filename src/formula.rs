//! Turning clause shapes into logicng formulas, and the entry point that
//! joins the slot clauses to the subgraph constraints.
use vstd::prelude::*;
use vstd::string::StringExecFns;
use logicng::formulas::{EncodedFormula, FormulaFactory};
use crate::clauses::{Clause, build_slot_constraints, slot_clauses};
use crate::index::{BuildError, IdentifierIndex, all_known, ids_of, indexes_catalog, resolves};

verus! {

#[verifier::external_type_specification]
#[verifier::external_body]
pub struct ExFormulaFactory(FormulaFactory);

#[verifier::external_type_specification]
#[verifier::external_body]
pub struct ExEncodedFormula(EncodedFormula);

/// What a formula built here says.
pub enum Shape {
    /// A constant.
    Const(bool),
    /// The variable of the given name.
    Var(Seq<char>),
    /// The conjunction of the operands.
    And(Seq<Shape>),
    /// The disjunction of the operands.
    Or(Seq<Shape>),
    /// The first operand implies the second.
    Implies(Box<Shape>, Box<Shape>),
}

/// A logicng factory, with a ghost identity that its formulas carry. Nothing
/// is stated of the identity a new factory gets, so no proof can show that a
/// formula of one factory belongs to another: the combinators, which require
/// operands of their own factory, accept only formulas made by it.
pub struct Factory {
    inner: FormulaFactory,
    id: Ghost<int>,
}

/// A formula handle, with the factory that made it and what it says.
pub struct Formula {
    handle: EncodedFormula,
    owner: Ghost<int>,
    shape: Ghost<Shape>,
}

/// The operands all come from the factory `id`.
pub open spec fn all_from(ops: Seq<Formula>, id: int) -> bool {
    forall|i: int| 0 <= i < ops.len() ==> (#[trigger] ops[i]).owner() == id
}

/// The shapes of the operands.
pub open spec fn shapes_of(ops: Seq<Formula>) -> Seq<Shape> {
    ops.map_values(|f: Formula| f.shape())
}

impl Factory {
    /// The identity of the factory.
    pub closed spec fn id(self) -> int {
        self.id@
    }

    /// Relies on logicng's `FormulaFactory::new`: a fresh factory.
    #[verifier::external_body]
    pub fn new() -> (r: Factory) {
        Factory { inner: FormulaFactory::new(), id: Ghost(arbitrary()) }
    }

    /// The logicng factory itself.
    pub fn factory(&self) -> &FormulaFactory {
        &self.inner
    }

    /// Relies on logicng's `EncodedFormula::constant`: the constant `value`,
    /// which needs no factory and so fits this one.
    #[verifier::external_body]
    pub fn constant(&self, value: bool) -> (r: Formula)
        ensures
            r.owner() == self.id(),
            r.shape() == Shape::Const(value),
    {
        Formula { handle: EncodedFormula::constant(value), owner: Ghost(self.id@), shape: Ghost(Shape::Const(value)) }
    }

    /// Relies on logicng's `FormulaFactory::variable`: the variable named `name`.
    #[verifier::external_body]
    pub fn variable(&self, name: &String) -> (r: Formula)
        ensures
            r.owner() == self.id(),
            r.shape() == Shape::Var(name@),
    {
        Formula { handle: self.inner.variable(name.as_str()), owner: Ghost(self.id@), shape: Ghost(Shape::Var(name@)) }
    }

    /// Relies on logicng's `FormulaFactory::and`: the conjunction of operands
    /// of this factory.
    #[verifier::external_body]
    pub fn and(&self, ops: &Vec<Formula>) -> (r: Formula)
        requires
            all_from(ops@, self.id()),
        ensures
            r.owner() == self.id(),
            r.shape() == Shape::And(shapes_of(ops@)),
    {
        let handles: Vec<EncodedFormula> = ops.iter().map(|f| f.handle).collect();
        Formula { handle: self.inner.and(&handles), owner: Ghost(self.id@), shape: Ghost(Shape::And(shapes_of(ops@))) }
    }

    /// Relies on logicng's `FormulaFactory::or`: the disjunction of operands
    /// of this factory.
    #[verifier::external_body]
    pub fn or(&self, ops: &Vec<Formula>) -> (r: Formula)
        requires
            all_from(ops@, self.id()),
        ensures
            r.owner() == self.id(),
            r.shape() == Shape::Or(shapes_of(ops@)),
    {
        let handles: Vec<EncodedFormula> = ops.iter().map(|f| f.handle).collect();
        Formula { handle: self.inner.or(&handles), owner: Ghost(self.id@), shape: Ghost(Shape::Or(shapes_of(ops@))) }
    }

    /// Relies on logicng's `FormulaFactory::implication`: `left => right`, for
    /// operands of this factory.
    #[verifier::external_body]
    pub fn implication(&self, left: Formula, right: Formula) -> (r: Formula)
        requires
            left.owner() == self.id(),
            right.owner() == self.id(),
        ensures
            r.owner() == self.id(),
            r.shape() == Shape::Implies(Box::new(left.shape()), Box::new(right.shape())),
    {
        Formula {
            handle: self.inner.implication(left.handle, right.handle),
            owner: Ghost(self.id@),
            shape: Ghost(Shape::Implies(Box::new(left.shape@), Box::new(right.shape@))),
        }
    }
}

impl Formula {
    /// The identity of the factory that made the formula.
    pub closed spec fn owner(self) -> int {
        self.owner@
    }

    /// What the formula says.
    pub closed spec fn shape(self) -> Shape {
        self.shape@
    }

    /// The logicng handle.
    pub fn handle(&self) -> EncodedFormula {
        self.handle
    }
}

/// The character of decimal digit `d`.
pub open spec fn digit_char(d: nat) -> char {
    if d == 0 { '0' } else if d == 1 { '1' } else if d == 2 { '2' } else if d == 3 { '3' }
    else if d == 4 { '4' } else if d == 5 { '5' } else if d == 6 { '6' } else if d == 7 { '7' }
    else if d == 8 { '8' } else { '9' }
}

/// The decimal digits of `n`, without leading zeros.
pub open spec fn decimal(n: nat) -> Seq<char>
    decreases n,
{
    if n < 10 {
        seq![digit_char(n)]
    } else {
        decimal(n / 10) + seq![digit_char(n % 10)]
    }
}

/// The name of the variable of entity index `i`: `v` and its decimal digits.
pub open spec fn var_name(i: u32) -> Seq<char> {
    seq!['v'] + decimal(i as nat)
}

/// The one-character text of digit `d`.
fn digit_str(d: u32) -> (r: &'static str)
    requires
        d < 10,
    ensures
        r@ == seq![digit_char(d as nat)],
{
    if d == 0 { proof { reveal_strlit("0"); } "0" }
    else if d == 1 { proof { reveal_strlit("1"); } "1" }
    else if d == 2 { proof { reveal_strlit("2"); } "2" }
    else if d == 3 { proof { reveal_strlit("3"); } "3" }
    else if d == 4 { proof { reveal_strlit("4"); } "4" }
    else if d == 5 { proof { reveal_strlit("5"); } "5" }
    else if d == 6 { proof { reveal_strlit("6"); } "6" }
    else if d == 7 { proof { reveal_strlit("7"); } "7" }
    else if d == 8 { proof { reveal_strlit("8"); } "8" }
    else { proof { reveal_strlit("9"); } "9" }
}

/// The decimal digits of `n` as text.
fn decimal_string(n: u32) -> (r: String)
    ensures
        r@ == decimal(n as nat),
    decreases n,
{
    if n < 10 {
        String::from_str(digit_str(n))
    } else {
        let mut s = decimal_string(n / 10);
        s.append(digit_str(n % 10));
        s
    }
}

/// The name of the variable of entity index `index`, by which a solver's
/// assignment is read back.
pub fn variable_name(index: u32) -> (r: String)
    ensures
        r@ == var_name(index),
{
    proof { reveal_strlit("v"); }
    let mut s = String::from_str("v");
    s.append(decimal_string(index).as_str());
    s
}

/// The shape of the variable of index `i`.
pub open spec fn var_shape(i: u32) -> Shape {
    Shape::Var(var_name(i))
}

/// The shapes of the variables of the given indices.
pub open spec fn var_shapes(ids: Seq<u32>) -> Seq<Shape> {
    ids.map_values(|i: u32| var_shape(i))
}

/// What the formula of clause `c` says.
pub open spec fn clause_shape(c: Clause) -> Shape {
    match c {
        Clause::AtLeastOne(vars) => Shape::Or(var_shapes(vars@)),
        Clause::Implies(lhs, rhs) => Shape::Implies(
            Box::new(Shape::And(var_shapes(lhs@))),
            Box::new(Shape::Or(var_shapes(rhs@))),
        ),
    }
}

/// A constraint set: a formula of `factory` and the number of clauses it holds.
pub struct SubgraphConstraints {
    pub formula: Formula,
    pub factory: Factory,
    pub num_constraints: usize,
}

impl SubgraphConstraints {
    /// The formula belongs to the factory.
    pub open spec fn wf(&self) -> bool {
        self.formula.owner() == self.factory.id()
    }
}

/// The variables of the given indices, in their order.
pub fn champion_ids_to_vars(ids: &Vec<u32>, factory: &Factory) -> (r: Vec<Formula>)
    ensures
        all_from(r@, factory.id()),
        shapes_of(r@) == var_shapes(ids@),
{
    let mut r: Vec<Formula> = Vec::new();
    let mut i: usize = 0;
    while i < ids.len()
        invariant
            0 <= i <= ids.len(),
            all_from(r@, factory.id()),
            r@.len() == i,
            shapes_of(r@) == var_shapes(ids@.subrange(0, i as int)),
        decreases ids.len() - i,
    {
        let name = variable_name(ids[i]);
        let ghost before = r@;
        r.push(factory.variable(&name));
        proof {
            let want = var_shapes(ids@.subrange(0, i as int + 1));
            assert forall|k: int| 0 <= k < r@.len() implies shapes_of(r@)[k] == want[k] by {
                if k < i {
                    assert(r@[k] == before[k]);
                    assert(shapes_of(before)[k] == var_shapes(ids@.subrange(0, i as int))[k]);
                }
            }
            assert(shapes_of(r@) =~= want);
        }
        i = i + 1;
    }
    assert(ids@.subrange(0, ids@.len() as int) == ids@);
    r
}

/// The formula of one clause: a disjunction, or a conjunction implying a disjunction.
pub fn clause_formula(c: &Clause, factory: &Factory) -> (r: Formula)
    ensures
        r.owner() == factory.id(),
        r.shape() == clause_shape(*c),
{
    match c {
        Clause::AtLeastOne(vars) => {
            let operands = champion_ids_to_vars(vars, factory);
            factory.or(&operands)
        },
        Clause::Implies(lhs, rhs) => {
            let left = champion_ids_to_vars(lhs, factory);
            let right = champion_ids_to_vars(rhs, factory);
            let premise = factory.and(&left);
            let conclusion = factory.or(&right);
            factory.implication(premise, conclusion)
        },
    }
}

/// One formula per clause, in the clauses' order.
pub fn clauses_to_formulas(clauses: &Vec<Clause>, factory: &Factory) -> (r: Vec<Formula>)
    ensures
        all_from(r@, factory.id()),
        shapes_of(r@) == clauses@.map_values(|c: Clause| clause_shape(c)),
{
    let mut r: Vec<Formula> = Vec::new();
    let mut i: usize = 0;
    while i < clauses.len()
        invariant
            0 <= i <= clauses.len(),
            all_from(r@, factory.id()),
            r@.len() == i,
            shapes_of(r@) == clauses@.subrange(0, i as int).map_values(|c: Clause| clause_shape(c)),
        decreases clauses.len() - i,
    {
        let ghost before = r@;
        r.push(clause_formula(&clauses[i], factory));
        proof {
            let want = clauses@.subrange(0, i as int + 1).map_values(|c: Clause| clause_shape(c));
            assert forall|k: int| 0 <= k < r@.len() implies shapes_of(r@)[k] == want[k] by {
                if k < i {
                    assert(r@[k] == before[k]);
                    assert(shapes_of(before)[k] == clauses@.subrange(0, i as int).map_values(|c: Clause| clause_shape(c))[k]);
                }
            }
            assert(shapes_of(r@) =~= want);
        }
        i = i + 1;
    }
    assert(clauses@.subrange(0, clauses@.len() as int) == clauses@);
    r
}

/// Every option of every slot is an entity of the catalog.
pub open spec fn options_in_catalog(catalog: Seq<String>, options: Seq<Vec<String>>) -> bool {
    forall|s: int, j: int| 0 <= s < options.len() && 0 <= j < options[s]@.len()
        ==> ids_of(catalog).contains(#[trigger] options[s]@[j]@)
}

/// `a + b`, held at `usize::MAX`.
pub open spec fn saturating_sum(a: int, b: int) -> int {
    if a + b <= usize::MAX { a + b } else { usize::MAX as int }
}

/// `c` is `subgraph` joined with the clause list `cs`: the formula is the
/// conjunction of the clauses' formulas and then the subgraph formula, in the
/// same factory, and the count grows by the number of clauses.
pub open spec fn joined(c: SubgraphConstraints, subgraph: SubgraphConstraints, cs: Seq<Clause>) -> bool {
    &&& c.wf()
    &&& c.factory.id() == subgraph.factory.id()
    &&& c.num_constraints == saturating_sum(subgraph.num_constraints as int, cs.len() as int)
    &&& c.formula.shape() == Shape::And(
        cs.map_values(|cl: Clause| clause_shape(cl)).push(subgraph.formula.shape()))
}

/// Joins to the subgraph constraints the clauses that make each slot take a
/// distinct candidate of its own, and returns them with the entities by
/// variable index.
///
/// Fails with `DegenerateInput` when the catalog or the slot list is empty,
/// and otherwise with `UnknownEntity` when a slot names an entity the catalog
/// lacks.
pub fn build_champion_constraints(
    subgraph: SubgraphConstraints,
    catalog: &Vec<String>,
    slot_options: &Vec<Vec<String>>,
) -> (r: Result<(SubgraphConstraints, Vec<String>), BuildError>)
    requires
        catalog@.len() <= u32::MAX,
        subgraph.wf(),
    ensures
        r is Ok <==> (catalog@.len() > 0 && slot_options@.len() > 0
            && options_in_catalog(catalog@, slot_options@)),
        r matches Err(BuildError::DegenerateInput) <==> (catalog@.len() == 0 || slot_options@.len() == 0),
        match r {
            Ok((c, names)) => {
                &&& indexes_catalog(catalog@, names@)
                &&& exists|slots: Seq<Vec<u32>>, cs: Seq<Clause>|
                    resolves((IdentifierIndex { names: names }), slot_options@, slots)
                    && #[trigger] slot_clauses(slots, cs) && #[trigger] joined(c, subgraph, cs)
            },
            Err(BuildError::UnknownEntity(name)) => !ids_of(catalog@).contains(name@)
                && exists|s: int, j: int| 0 <= s < slot_options@.len() && 0 <= j < slot_options@[s]@.len()
                    && #[trigger] slot_options@[s]@[j]@ == name@,
            Err(BuildError::DegenerateInput) => true,
        },
{
    if catalog.len() == 0 || slot_options.len() == 0 {
        return Err(BuildError::DegenerateInput);
    }
    let index = IdentifierIndex::from_catalog(catalog);
    proof {
        assert forall|e: Seq<char>| index.entities().contains(e) <==> ids_of(catalog@).contains(e) by {}
        assert(all_known(index, slot_options@) <==> options_in_catalog(catalog@, slot_options@));
    }
    let slots = match index.resolve_slots(slot_options) {
        Ok(slots) => slots,
        Err(e) => {
            return Err(e);
        },
    };
    let clauses = build_slot_constraints(&slots);
    let mut constraints = subgraph;
    let mut formulas = clauses_to_formulas(&clauses, &constraints.factory);
    let added = formulas.len();
    if constraints.num_constraints <= usize::MAX - added {
        constraints.num_constraints = constraints.num_constraints + added;
    } else {
        constraints.num_constraints = usize::MAX;
    }
    let ghost clause_shapes = shapes_of(formulas@);
    let ghost sub_shape = constraints.formula.shape();
    let sub_formula = constraints.formula;
    formulas.push(sub_formula);
    proof {
        assert(shapes_of(formulas@) =~= clause_shapes.push(sub_shape));
    }
    let joined_formula = constraints.factory.and(&formulas);
    let c = SubgraphConstraints { formula: joined_formula, factory: constraints.factory, num_constraints: constraints.num_constraints };
    let names = index.names;
    proof {
        assert(joined(c, subgraph, clauses@));
        assert(slot_clauses(slots@, clauses@));
    }
    Ok((c, names))
}

} // verus!
