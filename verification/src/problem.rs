//! Constraints, objectives and the problem container.
//!
//! A [`Constraint`] is built from two expressions and a comparison: both
//! sides are normalized, the right is subtracted from the left, and the
//! leftover constant moves (negated) to the right-hand side, so a
//! constraint always reads `variable terms  op  constant`.  A
//! [`Problem`] aggregates an objective, the constraints in insertion
//! order, and a variable registry populated lazily on first reference
//! and deduplicated by name.

use vstd::prelude::*;
use crate::num::Num;
use crate::num::abs_int;
use crate::expr::Expr;
use crate::expr::LinForm;
use crate::expr::Variable;
use crate::expr::LpError;
use crate::expr::lf_pairs;
use crate::expr::abs_sum;
use crate::expr::coeff_of;
use crate::expr::const_of;
use crate::expr::weight;
use crate::expr::coeff_seq;
use crate::expr::const_seq;
use crate::expr::weight_seq;
use crate::expr::raw_sum;
use crate::expr::lemma_coeff_bounded;
use crate::expr::lemma_raw_sum_distinct;
use crate::expr::lemma_abs_nt;
use crate::expr::lemma_abs_filter;
use crate::expr::nt;
use crate::expr::nt_seq;
use crate::expr::filter_nonzero;
use crate::expr::num_pairs;
use crate::expr::names_distinct;
use crate::expr::is_term_with_var;
use crate::expr::some_term_var;
use crate::expr::lemma_nt_seq_term_vars;
use crate::expr::lemma_filter_entries;

verus! {

/// The sense of an objective.
#[derive(Clone, Copy, Debug, PartialEq, Eq, Structural, Hash)]
pub enum Sense {
    Minimize,
    Maximize,
}

/// The comparison of a constraint.
#[derive(Clone, Copy, Debug, PartialEq, Eq, Structural, Hash)]
pub enum CompOp {
    Le,
    Ge,
    Eq,
}

/// A linear constraint: variable terms on the left, one constant on the
/// right.
#[derive(Debug)]
pub struct Constraint {
    pub left: LinForm,
    pub op: CompOp,
    pub rhs: Num,
}

impl Constraint {
    /// Well-formed: the left side is a well-formed linear form with no
    /// constant part.
    pub open spec fn wf(&self) -> bool {
        &&& self.left.wf()
        &&& self.left.constant@ == 0
    }
}

/// Builds the constraint `lhs op rhs`: normalizes `lhs - rhs` and moves
/// the leftover constant, negated, to the right-hand side.
fn build_cmp(lhs: Expr, rhs: Expr, op: CompOp) -> (r: Result<Constraint, LpError>)
    ensures
        r matches Ok(c) ==> {
            &&& c.op == op
            &&& c.wf()
            &&& forall|n: Seq<char>|
                #[trigger] c.left.spec_coeff(n) == coeff_of(lhs, n) - coeff_of(rhs, n)
            &&& c.rhs@ == const_of(rhs) - const_of(lhs)
        },
        weight(lhs) + weight(rhs) <= i64::MAX ==> r is Ok,
        r matches Err(er) ==> er is NumericOverflow,
{
    let d = lhs.sub(rhs);
    let f = match d.normalize() {
        Ok(f) => f,
        Err(er) => {
            return Err(er);
        },
    };
    let nc = match f.constant.checked_neg() {
        Some(x) => x,
        None => {
            proof {
                if weight(lhs) + weight(rhs) <= i64::MAX {
                    lemma_coeff_bounded(d, Seq::empty());
                    assert(false);
                }
            }
            return Err(LpError::NumericOverflow);
        },
    };
    let c = Constraint {
        left: LinForm { terms: f.terms, constant: Num::from_units(0) },
        op,
        rhs: nc,
    };
    proof {
        assert(lf_pairs(c.left) =~= lf_pairs(f));
        assert forall|n: Seq<char>|
            #[trigger] c.left.spec_coeff(n) == coeff_of(lhs, n) - coeff_of(rhs, n) by {
            assert(f.spec_coeff(n) == coeff_of(d, n));
            assert(c.left.spec_coeff(n) == f.spec_coeff(n));
        }
    }
    Ok(c)
}

impl Expr {
    /// The constraint `self <= rhs`.
    pub fn le(self, rhs: Expr) -> (r: Result<Constraint, LpError>)
        ensures
            r matches Ok(c) ==> {
                &&& c.op == CompOp::Le
                &&& c.wf()
                &&& forall|n: Seq<char>|
                    #[trigger] c.left.spec_coeff(n) == coeff_of(self, n) - coeff_of(rhs, n)
                &&& c.rhs@ == const_of(rhs) - const_of(self)
            },
            weight(self) + weight(rhs) <= i64::MAX ==> r is Ok,
            r matches Err(er) ==> er is NumericOverflow,
    {
        build_cmp(self, rhs, CompOp::Le)
    }

    /// The constraint `self >= rhs`.
    pub fn ge(self, rhs: Expr) -> (r: Result<Constraint, LpError>)
        ensures
            r matches Ok(c) ==> {
                &&& c.op == CompOp::Ge
                &&& c.wf()
                &&& forall|n: Seq<char>|
                    #[trigger] c.left.spec_coeff(n) == coeff_of(self, n) - coeff_of(rhs, n)
                &&& c.rhs@ == const_of(rhs) - const_of(self)
            },
            weight(self) + weight(rhs) <= i64::MAX ==> r is Ok,
            r matches Err(er) ==> er is NumericOverflow,
    {
        build_cmp(self, rhs, CompOp::Ge)
    }

    /// The constraint `self = rhs`.
    pub fn equal(self, rhs: Expr) -> (r: Result<Constraint, LpError>)
        ensures
            r matches Ok(c) ==> {
                &&& c.op == CompOp::Eq
                &&& c.wf()
                &&& forall|n: Seq<char>|
                    #[trigger] c.left.spec_coeff(n) == coeff_of(self, n) - coeff_of(rhs, n)
                &&& c.rhs@ == const_of(rhs) - const_of(self)
            },
            weight(self) + weight(rhs) <= i64::MAX ==> r is Ok,
            r matches Err(er) ==> er is NumericOverflow,
    {
        build_cmp(self, rhs, CompOp::Eq)
    }
}

/// No two registered variables share a name.
pub open spec fn vars_distinct(vs: Seq<Variable>) -> bool {
    forall|i: int, j: int|
        0 <= i < j < vs.len() ==> (#[trigger] vs[i]).name@ != (#[trigger] vs[j]).name@
}

/// The registry holds a variable of this name and kind.
pub open spec fn var_registered(vs: Seq<Variable>, v: Variable) -> bool {
    exists|i: int| 0 <= i < vs.len() && (#[trigger] vs[i]).name@ == v.name@ && vs[i].kind == v.kind
}

/// No variable of `ts` clashes in kind with a registered name: every
/// entry whose name the registry holds carries the registered kind.
pub open spec fn kinds_agree(vs: Seq<Variable>, ts: Seq<(Variable, int)>) -> bool {
    forall|i: int, j: int|
        0 <= i < vs.len() && 0 <= j < ts.len() && (#[trigger] vs[i]).name@ == (#[trigger] ts[
        j]).0.name@ ==> vs[i].kind == ts[j].0.kind
}

/// `v` matches (name and kind) one of the first `j` entries of `ts`.
spec fn from_terms(v: Variable, ts: Seq<(Variable, Num)>, j: int) -> bool {
    exists|jj: int|
        0 <= jj < j && (#[trigger] ts[jj]).0.name@ == v.name@ && ts[jj].0.kind == v.kind
}

/// `e` is a constant, or a term whose variable occurs in `a` or in `b`.
spec fn kid_ok(e: Expr, a: Seq<(Variable, Num)>, b: Seq<(Variable, Num)>) -> bool {
    match e {
        Expr::Constant(_) => true,
        Expr::Term(v, _) => (exists|i: int| 0 <= i < a.len() && (#[trigger] a[i]).0 == v) || (
        exists|i: int| 0 <= i < b.len() && (#[trigger] b[i]).0 == v),
        _ => false,
    }
}

/// Relies on `uuid::Uuid::new_v4` and its `Display`: a fresh random
/// identifier rendered in the 36-character hyphenated form.
#[verifier::external_body]
pub(crate) fn fresh_uuid_string() -> (r: String)
    ensures
        r@.len() == 36,
{
    uuid::Uuid::new_v4().to_string()
}

/// A whole linear program: an objective, constraints in insertion
/// order, and the variable registry in order of first reference.
#[derive(Debug)]
pub struct Problem {
    pub name: String,
    pub unique_name: String,
    pub sense: Sense,
    pub objective: LinForm,
    pub constraints: Vec<Constraint>,
    pub variables: Vec<Variable>,
}

impl Problem {
    /// Well-formed: objective and constraints are well-formed, names in
    /// the registry are unique, and every variable a form mentions is
    /// registered with that very kind.
    pub open spec fn wf(&self) -> bool {
        &&& self.objective.wf()
        &&& forall|i: int|
            0 <= i < self.constraints@.len() ==> (#[trigger] self.constraints@[i]).wf()
        &&& vars_distinct(self.variables@)
        &&& forall|j: int|
            0 <= j < self.objective.terms@.len() ==> var_registered(
                self.variables@,
                (#[trigger] self.objective.terms@[j]).0,
            )
        &&& forall|i: int, j: int|
            0 <= i < self.constraints@.len() && 0 <= j
                < self.constraints@[i].left.terms@.len() ==> var_registered(
                self.variables@,
                (#[trigger] self.constraints@[i].left.terms@[j]).0,
            )
    }

    /// A fresh, empty problem.  Its unique name is the given name, an
    /// underscore, and a fresh 36-character identifier.
    pub fn new(name: String, sense: Sense) -> (r: Problem)
        ensures
            r.name == name,
            r.sense == sense,
            r.objective.terms@.len() == 0,
            r.objective.constant@ == 0,
            r.constraints@.len() == 0,
            r.variables@.len() == 0,
            r.wf(),
            r.unique_name@.len() == name@.len() + 37,
            r.unique_name@.take(name@.len() as int) == name@,
            r.unique_name@[name@.len() as int] == '_',
    {
        let u = fresh_uuid_string();
        let mut un = name.clone();
        un.append("_");
        un.append(u.as_str());
        proof {
            reveal_strlit("_");
        }
        let r = Problem {
            name,
            unique_name: un,
            sense,
            objective: LinForm { terms: Vec::new(), constant: Num::from_units(0) },
            constraints: Vec::new(),
            variables: Vec::new(),
        };
        proof {
            assert(lf_pairs(r.objective) =~= Seq::<(Variable, int)>::empty());
            assert(r.unique_name@.take(name@.len() as int) =~= name@);
        }
        r
    }

    /// The model file name: the unique name with the `.lp` suffix.
    pub fn model_file_name(&self) -> (r: String)
        ensures
            r@ == self.unique_name@ + ".lp"@,
    {
        let mut s = self.unique_name.clone();
        s.append(".lp");
        s
    }

    /// Registers every variable of `ts`, deduplicating by name; fails
    /// with the duplicate's name when a name is already registered with
    /// another kind, leaving the registry unchanged.
    #[verifier::loop_isolation(false)]
    fn register_terms(&mut self, ts: &Vec<(Variable, Num)>) -> (r: Result<(), LpError>)
        requires
            vars_distinct(old(self).variables@),
            names_distinct(num_pairs(ts@)),
        ensures
            r is Ok <==> kinds_agree(old(self).variables@, num_pairs(ts@)),
            final(self).name == old(self).name,
            final(self).unique_name == old(self).unique_name,
            final(self).sense == old(self).sense,
            final(self).objective == old(self).objective,
            final(self).constraints == old(self).constraints,
            r is Ok ==> {
                &&& vars_distinct(final(self).variables@)
                &&& old(self).variables@.is_prefix_of(final(self).variables@)
                &&& forall|j: int|
                    0 <= j < ts@.len() ==> var_registered(
                        final(self).variables@,
                        (#[trigger] ts@[j]).0,
                    )
            },
            r matches Err(er) ==> er is DuplicateVariableKind && final(self).variables@ == old(
                self,
            ).variables@,
    {
        let orig: usize = self.variables.len();
        let mut j: usize = 0;
        while j < ts.len()
            invariant
                0 <= j <= ts@.len(),
                self.name == old(self).name,
                self.unique_name == old(self).unique_name,
                self.sense == old(self).sense,
                self.objective == old(self).objective,
                self.constraints == old(self).constraints,
                vars_distinct(self.variables@),
                old(self).variables@.is_prefix_of(self.variables@),
                orig == old(self).variables@.len(),
                forall|jj: int|
                    0 <= jj < j ==> var_registered(self.variables@, (#[trigger] ts@[jj]).0),
                forall|mi: int|
                    orig <= mi < self.variables@.len() ==> from_terms(
                        #[trigger] self.variables@[mi],
                        ts@,
                        j as int,
                    ),
                kinds_agree(old(self).variables@, num_pairs(ts@).take(j as int)),
            decreases ts@.len() - j,
        {
            let mut m: usize = 0;
            let mut found: bool = false;
            while m < self.variables.len() && !found
                invariant
                    0 <= m <= self.variables@.len(),
                    found ==> m < self.variables@.len() && self.variables@[m as int].name@ == ts@[
                        j as int].0.name@,
                    !found ==> forall|mm: int|
                        0 <= mm < m ==> (#[trigger] self.variables@[mm]).name@ != ts@[
                        j as int].0.name@,
                decreases 2 * (self.variables@.len() - m) + (if found {
                    0int
                } else {
                    1int
                }),
            {
                if self.variables[m].name == ts[j].0.name {
                    found = true;
                } else {
                    m += 1;
                }
            }
            if found {
                if !(self.variables[m].kind == ts[j].0.kind) {
                    let dup_name = ts[j].0.name.clone();
                    proof {
                        if m >= orig {
                            assert(from_terms(self.variables@[m as int], ts@, j as int));
                            let jj = choose|jj: int|
                                0 <= jj < j && (#[trigger] ts@[jj]).0.name@ == self.variables@[
                                m as int].name@ && ts@[jj].0.kind == self.variables@[
                                m as int].kind;
                            assert(num_pairs(ts@)[jj].0.name@ == num_pairs(ts@)[j as int].0.name@);
                            assert(false);
                        }
                        assert(self.variables@[m as int] == old(self).variables@[m as int]);
                        if kinds_agree(old(self).variables@, num_pairs(ts@)) {
                            assert(old(self).variables@[m as int].name@ == num_pairs(ts@)[
                                j as int].0.name@);
                            assert(false);
                        }
                    }
                    self.variables.truncate(orig);
                    proof {
                        assert(self.variables@ =~= old(self).variables@);
                    }
                    return Err(LpError::DuplicateVariableKind(dup_name));
                }
                proof {
                    assert(var_registered(self.variables@, ts@[j as int].0));
                    assert forall|i: int, jx: int|
                        0 <= i < old(self).variables@.len() && 0 <= jx < j + 1 && (#[trigger] old(
                        self,
                    ).variables@[i]).name@ == (#[trigger] num_pairs(ts@).take(j as int + 1)[
                    jx]).0.name@ implies old(self).variables@[i].kind == num_pairs(ts@).take(
                        j as int + 1,
                    )[jx].0.kind by {
                        if jx == j {
                            if m < orig {
                                assert(self.variables@[i] == old(self).variables@[i]);
                                assert(self.variables@[m as int] == old(self).variables@[
                                    m as int]);
                                if i != m {
                                    assert(self.variables@[i].name@ != self.variables@[
                                        m as int].name@);
                                }
                            } else {
                                assert(self.variables@[i] == old(self).variables@[i]);
                                assert((#[trigger] self.variables@[i]).name@ != ts@[
                                    j as int].0.name@);
                            }
                        } else {
                            assert(num_pairs(ts@).take(j as int)[jx] == num_pairs(ts@).take(
                                j as int + 1,
                            )[jx]);
                        }
                    }
                }
            } else {
                let ghost prev = self.variables@;
                self.variables.push(ts[j].0.dup());
                proof {
                    assert forall|i: int, jj: int|
                        0 <= i < jj < self.variables@.len() implies (#[trigger] self.variables@[
                    i]).name@ != (#[trigger] self.variables@[jj]).name@ by {
                        if jj < self.variables@.len() - 1 {
                            assert(self.variables@[i] == prev[i]);
                            assert(self.variables@[jj] == prev[jj]);
                        } else {
                            assert(self.variables@[i] == prev[i]);
                        }
                    }
                    assert(self.variables@[self.variables@.len() - 1].name@ == ts@[
                        j as int].0.name@);
                    assert(var_registered(self.variables@, ts@[j as int].0));
                    assert forall|jj: int|
                        0 <= jj < j + 1 implies var_registered(
                        self.variables@,
                        (#[trigger] ts@[jj]).0,
                    ) by {
                        if jj < j {
                            let i = choose|i: int|
                                0 <= i < prev.len() && (#[trigger] prev[i]).name@ == ts@[
                                jj].0.name@ && prev[i].kind == ts@[jj].0.kind;
                            assert(self.variables@[i] == prev[i]);
                        }
                    }
                    assert(old(self).variables@.is_prefix_of(self.variables@));
                    assert forall|mi: int|
                        orig <= mi < self.variables@.len() implies from_terms(
                        #[trigger] self.variables@[mi],
                        ts@,
                        j as int + 1,
                    ) by {
                        if mi < self.variables@.len() - 1 {
                            assert(self.variables@[mi] == prev[mi]);
                            assert(from_terms(prev[mi], ts@, j as int));
                            let jj = choose|jj: int|
                                0 <= jj < j && (#[trigger] ts@[jj]).0.name@ == prev[mi].name@
                                    && ts@[jj].0.kind == prev[mi].kind;
                            assert(ts@[jj].0.name@ == self.variables@[mi].name@);
                        } else {
                            assert(ts@[j as int].0.name@ == self.variables@[mi].name@);
                            assert(ts@[j as int].0.kind == self.variables@[mi].kind);
                        }
                    }
                    assert forall|i: int, jx: int|
                        0 <= i < old(self).variables@.len() && 0 <= jx < j + 1 && (#[trigger] old(
                        self,
                    ).variables@[i]).name@ == (#[trigger] num_pairs(ts@).take(j as int + 1)[
                    jx]).0.name@ implies old(self).variables@[i].kind == num_pairs(ts@).take(
                        j as int + 1,
                    )[jx].0.kind by {
                        if jx == j {
                            assert(prev[i] == old(self).variables@[i]);
                            assert((#[trigger] prev[i]).name@ != ts@[j as int].0.name@);
                        } else {
                            assert(num_pairs(ts@).take(j as int)[jx] == num_pairs(ts@).take(
                                j as int + 1,
                            )[jx]);
                        }
                    }
                }
            }
            j += 1;
        }
        proof {
            assert(num_pairs(ts@).take(ts@.len() as int) =~= num_pairs(ts@));
        }
        Ok(())
    }

    /// Accumulates `e` into the objective: the new objective's
    /// coefficient for every variable is the old one plus the net
    /// coefficient of `e`, and likewise for the constant.  Variables
    /// that survive the merge are registered.  Fails with a duplicate
    /// kind only when a variable of `e` is already registered under
    /// another kind, or, beyond the representable range, with overflow;
    /// either way the problem is unchanged.  Success is guaranteed when
    /// the kinds agree and the combined magnitudes stay in range.
    #[verifier::loop_isolation(false)]
    pub fn add_to_objective(&mut self, e: &Expr) -> (r: Result<(), LpError>)
        requires
            old(self).wf(),
        ensures
            final(self).name == old(self).name,
            final(self).unique_name == old(self).unique_name,
            final(self).sense == old(self).sense,
            final(self).constraints == old(self).constraints,
            r is Ok ==> {
                &&& final(self).wf()
                &&& forall|n: Seq<char>|
                    #[trigger] final(self).objective.spec_coeff(n) == old(
                        self,
                    ).objective.spec_coeff(n) + coeff_of(*e, n)
                &&& final(self).objective.constant@ == old(self).objective.constant@ + const_of(
                    *e,
                )
                &&& old(self).variables@.is_prefix_of(final(self).variables@)
            },
            r matches Err(er) ==> {
                &&& (er is DuplicateVariableKind || er is NumericOverflow)
                &&& final(self).objective == old(self).objective
                &&& final(self).variables@ == old(self).variables@
            },
            abs_sum(lf_pairs(old(self).objective)) + abs_int(old(self).objective.constant@)
                + weight(*e) <= i64::MAX ==> !(r matches Err(er2) && er2 is NumericOverflow),
            abs_sum(lf_pairs(old(self).objective)) + abs_int(old(self).objective.constant@)
                + weight(*e) <= i64::MAX && kinds_agree(old(self).variables@, nt(*e)) ==> r is Ok,
            r matches Err(er3) && er3 is DuplicateVariableKind ==> !kinds_agree(
                old(self).variables@,
                nt(*e),
            ),
    {
        let fe = match e.normalize() {
            Ok(f) => f,
            Err(er) => {
                proof {
                    if abs_sum(lf_pairs(old(self).objective)) + abs_int(
                        old(self).objective.constant@,
                    ) + weight(*e) <= i64::MAX {
                        assert(false);
                    }
                }
                return Err(er);
            },
        };
        let ghost gop = lf_pairs(self.objective);
        let ghost gfe = lf_pairs(fe);
        let mut kids: Vec<Expr> = Vec::new();
        let mut i: usize = 0;
        proof {
            assert(gop.take(0) =~= Seq::<(Variable, int)>::empty());
            assert forall|n: Seq<char>| #[trigger]
                coeff_seq(kids@, n) == raw_sum(gop.take(0), n) by {}
        }
        while i < self.objective.terms.len()
            invariant
                0 <= i <= self.objective.terms@.len(),
                self.objective == old(self).objective,
                gop == lf_pairs(self.objective),
                gop.len() == self.objective.terms@.len(),
                kids@.len() == i,
                forall|n: Seq<char>| #[trigger] coeff_seq(kids@, n) == raw_sum(
                    gop.take(i as int),
                    n,
                ),
                const_seq(kids@) == 0,
                weight_seq(kids@) == abs_sum(gop.take(i as int)),
                forall|jj: int|
                    0 <= jj < kids@.len() ==> kid_ok(
                        #[trigger] kids@[jj],
                        old(self).objective.terms@,
                        fe.terms@,
                    ),
            decreases self.objective.terms@.len() - i,
        {
            let kid = Expr::term(
                self.objective.terms[i].0.dup(),
                self.objective.terms[i].1,
            );
            let ghost pre = kids@;
            kids.push(kid);
            proof {
                assert(kids@.drop_last() =~= pre);
                assert(kids@.last() == kid);
                assert(gop.take(i as int + 1).drop_last() =~= gop.take(i as int));
                assert(gop.take(i as int + 1).last() == gop[i as int]);
                assert forall|n: Seq<char>| #[trigger] coeff_seq(kids@, n) == raw_sum(
                    gop.take(i as int + 1),
                    n,
                ) by {
                    assert(coeff_seq(kids@, n) == coeff_seq(pre, n) + coeff_of(kid, n));
                }
                assert(kid_ok(kid, old(self).objective.terms@, fe.terms@)) by {
                    assert(old(self).objective.terms@[i as int].0 == self.objective.terms@[
                        i as int].0);
                }
                assert forall|jj: int|
                    0 <= jj < kids@.len() implies kid_ok(
                    #[trigger] kids@[jj],
                    old(self).objective.terms@,
                    fe.terms@,
                ) by {
                    if jj < kids@.len() - 1 {
                        assert(kids@[jj] == pre[jj]);
                    }
                }
            }
            i += 1;
        }
        proof {
            assert(gop.take(self.objective.terms@.len() as int) =~= gop);
        }
        let mut j: usize = 0;
        proof {
            assert(gfe.take(0) =~= Seq::<(Variable, int)>::empty());
        }
        while j < fe.terms.len()
            invariant
                0 <= j <= fe.terms@.len(),
                self.objective == old(self).objective,
                gop == lf_pairs(self.objective),
                gfe == lf_pairs(fe),
                gfe.len() == fe.terms@.len(),
                forall|n: Seq<char>| #[trigger] coeff_seq(kids@, n) == raw_sum(gop, n) + raw_sum(
                    gfe.take(j as int),
                    n,
                ),
                const_seq(kids@) == 0,
                weight_seq(kids@) == abs_sum(gop) + abs_sum(gfe.take(j as int)),
                forall|jj: int|
                    0 <= jj < kids@.len() ==> kid_ok(
                        #[trigger] kids@[jj],
                        old(self).objective.terms@,
                        fe.terms@,
                    ),
            decreases fe.terms@.len() - j,
        {
            let kid = Expr::term(fe.terms[j].0.dup(), fe.terms[j].1);
            let ghost pre = kids@;
            kids.push(kid);
            proof {
                assert(kids@.drop_last() =~= pre);
                assert(kids@.last() == kid);
                assert(gfe.take(j as int + 1).drop_last() =~= gfe.take(j as int));
                assert(gfe.take(j as int + 1).last() == gfe[j as int]);
                assert forall|n: Seq<char>| #[trigger] coeff_seq(kids@, n) == raw_sum(gop, n)
                    + raw_sum(gfe.take(j as int + 1), n) by {
                    assert(coeff_seq(kids@, n) == coeff_seq(pre, n) + coeff_of(kid, n));
                }
                assert(kid_ok(kid, old(self).objective.terms@, fe.terms@));
                assert forall|jj: int|
                    0 <= jj < kids@.len() implies kid_ok(
                    #[trigger] kids@[jj],
                    old(self).objective.terms@,
                    fe.terms@,
                ) by {
                    if jj < kids@.len() - 1 {
                        assert(kids@[jj] == pre[jj]);
                    }
                }
            }
            j += 1;
        }
        proof {
            assert(gfe.take(fe.terms@.len() as int) =~= gfe);
        }
        let ghost pre1 = kids@;
        let k1 = Expr::constant(self.objective.constant);
        kids.push(k1);
        proof {
            assert(kids@.drop_last() =~= pre1);
            assert(kids@.last() == k1);
            assert forall|jj: int|
                0 <= jj < kids@.len() implies kid_ok(
                #[trigger] kids@[jj],
                old(self).objective.terms@,
                fe.terms@,
            ) by {
                if jj < kids@.len() - 1 {
                    assert(kids@[jj] == pre1[jj]);
                }
            }
        }
        let ghost pre2 = kids@;
        let k2 = Expr::constant(fe.constant);
        kids.push(k2);
        proof {
            assert(kids@.drop_last() =~= pre2);
            assert(kids@.last() == k2);
            assert forall|jj: int|
                0 <= jj < kids@.len() implies kid_ok(
                #[trigger] kids@[jj],
                old(self).objective.terms@,
                fe.terms@,
            ) by {
                if jj < kids@.len() - 1 {
                    assert(kids@[jj] == pre2[jj]);
                }
            }
        }
        let ghost gkids = kids@;
        let combined = Expr::sum(kids);
        proof {
            assert forall|n: Seq<char>| #[trigger] coeff_of(combined, n) == old(
                self,
            ).objective.spec_coeff(n) + coeff_of(*e, n) by {
                assert(coeff_seq(pre2, n) == coeff_seq(pre1, n) + coeff_of(k1, n));
                assert(coeff_of(combined, n) == coeff_seq(pre2, n) + coeff_of(k2, n));
                lemma_raw_sum_distinct(gop, n);
                lemma_raw_sum_distinct(gfe, n);
                assert(fe.spec_coeff(n) == coeff_of(*e, n));
            }
            assert(const_seq(pre2) == const_seq(pre1) + const_of(k1));
            assert(const_of(combined) == const_seq(pre2) + const_of(k2));
            assert(fe.constant@ == const_of(*e));
            assert(weight_seq(pre2) == weight_seq(pre1) + weight(k1));
            assert(weight(combined) == weight_seq(pre2) + weight(k2));
            lemma_abs_filter(nt(*e));
            lemma_abs_nt(*e);
            assert(abs_sum(gfe) <= abs_sum(nt(*e)));
        }
        let f2 = match combined.normalize() {
            Ok(f) => f,
            Err(er) => {
                proof {
                    if abs_sum(gop) + abs_int(old(self).objective.constant@) + weight(*e)
                        <= i64::MAX {
                        assert(weight(combined) <= i64::MAX);
                        assert(false);
                    }
                }
                return Err(er);
            },
        };
        match self.register_terms(&f2.terms) {
            Ok(()) => {},
            Err(er) => {
                proof {
                    let vs = old(self).variables@;
                    let fp2 = num_pairs(f2.terms@);
                    assert(!kinds_agree(vs, fp2));
                    assert(!kinds_agree(vs, nt(*e))) by {
                        if kinds_agree(vs, nt(*e)) {
                            assert forall|i0: int, j0: int|
                                0 <= i0 < vs.len() && 0 <= j0 < fp2.len() && (#[trigger] vs[
                            i0]).name@ == (#[trigger] fp2[j0]).0.name@ implies vs[i0].kind == fp2[
                                j0].0.kind by {
                                lemma_filter_entries(nt(combined));
                                let mm = choose|mm: int|
                                    0 <= mm < nt(combined).len() && #[trigger] fp2[j0] == nt(
                                        combined,
                                    )[mm];
                                assert(nt(combined) == nt_seq(gkids));
                                lemma_nt_seq_term_vars(gkids);
                                assert(some_term_var(gkids, nt(combined)[mm].0));
                                let jk = choose|jk: int|
                                    0 <= jk < gkids.len() && is_term_with_var(
                                        #[trigger] gkids[jk],
                                        fp2[j0].0,
                                    );
                                assert(kid_ok(gkids[jk], old(self).objective.terms@, fe.terms@));
                                let v = fp2[j0].0;
                                if exists|x: int|
                                    0 <= x < old(self).objective.terms@.len() && (#[trigger] old(
                                    self,
                                ).objective.terms@[x]).0 == v {
                                    let x = choose|x: int|
                                        0 <= x < old(self).objective.terms@.len() && (
                                        #[trigger] old(self).objective.terms@[x]).0 == v;
                                    assert(var_registered(vs, v));
                                    let k = choose|k: int|
                                        0 <= k < vs.len() && (#[trigger] vs[k]).name@ == v.name@
                                            && vs[k].kind == v.kind;
                                    if k != i0 {
                                        assert(vs[k].name@ != vs[i0].name@);
                                        assert(false);
                                    }
                                } else {
                                    let x = choose|x: int|
                                        0 <= x < fe.terms@.len() && (#[trigger] fe.terms@[x]).0
                                            == v;
                                    lemma_filter_entries(nt(*e));
                                    assert(lf_pairs(fe)[x] == num_pairs(fe.terms@)[x]);
                                    let m2 = choose|m2: int|
                                        0 <= m2 < nt(*e).len() && #[trigger] lf_pairs(fe)[x] == nt(
                                            *e,
                                        )[m2];
                                    assert(nt(*e)[m2].0 == v);
                                    assert(vs[i0].kind == nt(*e)[m2].0.kind);
                                }
                            }
                            assert(kinds_agree(vs, fp2));
                            assert(false);
                        }
                    }
                }
                return Err(er);
            },
        }
        let ghost vs_new = self.variables@;
        let ghost vs_old = old(self).variables@;
        proof {
            lemma_prefix_registered(vs_old, vs_new);
        }
        self.objective = f2;
        proof {
            assert forall|i2: int, j2: int|
                0 <= i2 < self.constraints@.len() && 0 <= j2
                    < self.constraints@[i2].left.terms@.len() implies var_registered(
                self.variables@,
                (#[trigger] self.constraints@[i2].left.terms@[j2]).0,
            ) by {
                assert(var_registered(vs_old, self.constraints@[i2].left.terms@[j2].0));
            }
        }
        Ok(())
    }

    /// Appends `c` to the constraint list, registering its variables.
    /// Succeeds exactly when no variable of `c` is already registered
    /// under another kind; otherwise it fails, changing nothing.
    pub fn add_constraint(&mut self, c: Constraint) -> (r: Result<(), LpError>)
        requires
            old(self).wf(),
            c.wf(),
        ensures
            final(self).name == old(self).name,
            final(self).unique_name == old(self).unique_name,
            final(self).sense == old(self).sense,
            final(self).objective == old(self).objective,
            r is Ok <==> kinds_agree(old(self).variables@, lf_pairs(c.left)),
            r is Ok ==> {
                &&& final(self).constraints@ == old(self).constraints@.push(c)
                &&& old(self).variables@.is_prefix_of(final(self).variables@)
                &&& final(self).wf()
            },
            r matches Err(er) ==> {
                &&& er is DuplicateVariableKind
                &&& final(self).constraints@ == old(self).constraints@
                &&& final(self).variables@ == old(self).variables@
            },
    {
        proof {
            assert(names_distinct(num_pairs(c.left.terms@)));
        }
        match self.register_terms(&c.left.terms) {
            Ok(()) => {},
            Err(er) => {
                return Err(er);
            },
        }
        let ghost vs_new = self.variables@;
        let ghost vs_old = old(self).variables@;
        proof {
            lemma_prefix_registered(vs_old, vs_new);
        }
        self.constraints.push(c);
        proof {
            assert forall|i: int|
                0 <= i < self.constraints@.len() implies (#[trigger] self.constraints@[
            i]).wf() by {
                if i < self.constraints@.len() - 1 {
                    assert(self.constraints@[i] == old(self).constraints@[i]);
                }
            }
            assert forall|i: int, j: int|
                0 <= i < self.constraints@.len() && 0 <= j
                    < self.constraints@[i].left.terms@.len() implies var_registered(
                self.variables@,
                (#[trigger] self.constraints@[i].left.terms@[j]).0,
            ) by {
                if i < self.constraints@.len() - 1 {
                    assert(self.constraints@[i] == old(self).constraints@[i]);
                    assert(old(self).constraints@[i].left.terms@[j]
                        == self.constraints@[i].left.terms@[j]);
                    assert(var_registered(vs_old, old(self).constraints@[i].left.terms@[j].0));
                }
            }
        }
        Ok(())
    }
}

/// Whatever is registered in a prefix is registered in the whole.
proof fn lemma_prefix_registered(a: Seq<Variable>, b: Seq<Variable>)
    requires
        a.is_prefix_of(b),
    ensures
        forall|v: Variable| var_registered(a, v) ==> #[trigger] var_registered(b, v),
{
    assert forall|v: Variable| var_registered(a, v) implies #[trigger] var_registered(b, v) by {
        let i = choose|i: int|
            0 <= i < a.len() && (#[trigger] a[i]).name@ == v.name@ && a[i].kind == v.kind;
        assert(b[i] == a[i]);
    }
}

} // verus!
