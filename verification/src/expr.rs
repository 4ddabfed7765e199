//! The expression model and its normalization.
//!
//! An [`Expr`] is an algebraic tree of constants, variable terms, ordered
//! sums and negations.  [`normalize`](Expr::normalize) flattens any such
//! tree into a [`LinForm`]: one coefficient per variable (zero
//! coefficients elided) plus a constant offset.  The coefficient that
//! normalization assigns to a variable is exactly the arithmetic sum of
//! that variable's contributions over all leaves, independent of the
//! shape of the tree; see [`lemma_normal_coeff_is_leaf_sum`].

use vstd::prelude::*;
use crate::num::Num;
use crate::num::SCALE;
use crate::num::spec_exact_mul;
use crate::num::abs_int;
use crate::num::lemma_exact_mul_value;
use crate::num::lemma_abs_mul;
use vstd::string::StringExecFns;

verus! {

broadcast use vstd::std_specs::vec::axiom_vec_index_decreases;

/// The kind of a decision variable.
#[derive(Clone, Copy, Debug, PartialEq, Eq, Structural, Hash)]
pub enum VarKind {
    Continuous,
    Integer,
    Binary,
}

/// A named decision variable.  Identity is by name: two `Variable`
/// values with the same name denote the same decision variable.
#[derive(Clone, Debug)]
pub struct Variable {
    pub name: String,
    pub kind: VarKind,
}

/// An algebraic expression over decision variables.
#[derive(Debug)]
pub enum Expr {
    /// A constant offset.
    Constant(Num),
    /// A variable scaled by a coefficient.
    Term(Variable, Num),
    /// An ordered sum of subexpressions.
    Sum(Vec<Expr>),
    /// The negation of a subexpression.
    Negate(Box<Expr>),
}

/// Errors of the modeling layer.
#[derive(Clone, Debug, PartialEq, Eq)]
pub enum LpError {
    /// The same variable name was used with two different kinds.
    DuplicateVariableKind(String),
    /// An exact fixed-point result left the representable range.
    NumericOverflow,
}

/// Net coefficient of the variable named `n` in `e`: the arithmetic sum
/// of every contribution over all leaves of the tree, in `Num` units.
pub open spec fn coeff_of(e: Expr, n: Seq<char>) -> int
    decreases e,
{
    match e {
        Expr::Constant(_) => 0,
        Expr::Term(v, c) => if v.name@ == n {
            c@
        } else {
            0
        },
        Expr::Sum(l) => coeff_seq(l@, n),
        Expr::Negate(i) => -coeff_of(*i, n),
    }
}

/// Net coefficient of `n` over a sequence of subexpressions.
pub open spec fn coeff_seq(s: Seq<Expr>, n: Seq<char>) -> int
    decreases s,
{
    if s.len() == 0 {
        0
    } else {
        coeff_seq(s.drop_last(), n) + coeff_of(s.last(), n)
    }
}

/// Net constant offset of `e`, in `Num` units.
pub open spec fn const_of(e: Expr) -> int
    decreases e,
{
    match e {
        Expr::Constant(c) => c@,
        Expr::Term(_, _) => 0,
        Expr::Sum(l) => const_seq(l@),
        Expr::Negate(i) => -const_of(*i),
    }
}

/// Net constant offset over a sequence of subexpressions.
pub open spec fn const_seq(s: Seq<Expr>) -> int
    decreases s,
{
    if s.len() == 0 {
        0
    } else {
        const_seq(s.drop_last()) + const_of(s.last())
    }
}

/// Total magnitude of `e`: the sum of the absolute values of every leaf,
/// in `Num` units.  Every intermediate quantity of normalization is
/// bounded by it, so a weight within `i64` range guarantees success.
pub open spec fn weight(e: Expr) -> nat
    decreases e,
{
    match e {
        Expr::Constant(c) => abs_int(c@),
        Expr::Term(_, c) => abs_int(c@),
        Expr::Sum(l) => weight_seq(l@),
        Expr::Negate(i) => weight(*i),
    }
}

/// Total magnitude over a sequence of subexpressions.
pub open spec fn weight_seq(s: Seq<Expr>) -> nat
    decreases s,
{
    if s.len() == 0 {
        0
    } else {
        weight_seq(s.drop_last()) + weight(s.last())
    }
}

/// Index of the first entry named `n`, or the length when absent.
pub open spec fn find_idx(ts: Seq<(Variable, int)>, n: Seq<char>) -> int
    decreases ts,
{
    if ts.len() == 0 {
        0
    } else if ts[0].0.name@ == n {
        0
    } else {
        1 + find_idx(ts.drop_first(), n)
    }
}

/// Coefficient recorded for `n` in an association sequence, zero when
/// absent.
pub open spec fn lookup(ts: Seq<(Variable, int)>, n: Seq<char>) -> int {
    let k = find_idx(ts, n);
    if k < ts.len() {
        ts[k].1
    } else {
        0
    }
}

/// No two entries share a name.
pub open spec fn names_distinct(ts: Seq<(Variable, int)>) -> bool {
    forall|i: int, j: int|
        0 <= i < j < ts.len() ==> (#[trigger] ts[i]).0.name@ != (#[trigger] ts[j]).0.name@
}

/// Merge one contribution into an association sequence: add to the
/// existing entry of the same name, or append a fresh entry.
pub open spec fn insert_term(ts: Seq<(Variable, int)>, v: Variable, c: int) -> Seq<(Variable, int)> {
    let k = find_idx(ts, v.name@);
    if k < ts.len() {
        ts.update(k, (ts[k].0, ts[k].1 + c))
    } else {
        ts.push((v, c))
    }
}

/// Merge every contribution of `src`, in order, into `ts`.
pub open spec fn merge_terms(ts: Seq<(Variable, int)>, src: Seq<(Variable, int)>) -> Seq<
    (Variable, int),
>
    decreases src,
{
    if src.len() == 0 {
        ts
    } else {
        insert_term(merge_terms(ts, src.drop_last()), src.last().0, src.last().1)
    }
}

/// Entry-wise negation.
pub open spec fn neg_terms(ts: Seq<(Variable, int)>) -> Seq<(Variable, int)> {
    ts.map(|i: int, p: (Variable, int)| (p.0, -p.1))
}

/// The normal association sequence of `e`: one entry per distinct
/// variable in order of first occurrence, zero entries included, each
/// carrying the net coefficient.
pub open spec fn nt(e: Expr) -> Seq<(Variable, int)>
    decreases e,
{
    match e {
        Expr::Constant(_) => Seq::empty(),
        Expr::Term(v, c) => seq![(v, c@)],
        Expr::Sum(l) => nt_seq(l@),
        Expr::Negate(i) => neg_terms(nt(*i)),
    }
}

/// Normal association sequence of a sum's children, merged in order.
pub open spec fn nt_seq(s: Seq<Expr>) -> Seq<(Variable, int)>
    decreases s,
{
    if s.len() == 0 {
        Seq::empty()
    } else {
        merge_terms(nt_seq(s.drop_last()), nt(s.last()))
    }
}

/// Raw (unmerged) sum of the contributions for `n` in an association
/// sequence.
pub open spec fn raw_sum(ts: Seq<(Variable, int)>, n: Seq<char>) -> int
    decreases ts,
{
    if ts.len() == 0 {
        0
    } else {
        raw_sum(ts.drop_last(), n) + if ts.last().0.name@ == n {
            ts.last().1
        } else {
            0
        }
    }
}

/// The entries of `ts` whose coefficient is not zero, in order.
pub open spec fn filter_nonzero(ts: Seq<(Variable, int)>) -> Seq<(Variable, int)>
    decreases ts,
{
    if ts.len() == 0 {
        Seq::empty()
    } else if ts.last().1 == 0 {
        filter_nonzero(ts.drop_last())
    } else {
        filter_nonzero(ts.drop_last()).push(ts.last())
    }
}

/// Every coefficient of `ts` is bounded by `b` in magnitude.
pub open spec fn all_bounded(ts: Seq<(Variable, int)>, b: nat) -> bool {
    forall|i: int| 0 <= i < ts.len() ==> abs_int((#[trigger] ts[i]).1) <= b
}

/// In a distinct-name sequence, each entry is found at its own index.
proof fn lemma_distinct_find(ts: Seq<(Variable, int)>, i: int)
    requires
        names_distinct(ts),
        0 <= i < ts.len(),
    ensures
        find_idx(ts, ts[i].0.name@) == i,
    decreases ts.len(),
{
    if i > 0 {
        assert(ts[0].0.name@ != ts[i].0.name@);
        lemma_distinct_find(ts.drop_first(), i - 1);
    }
}

/// `find_idx` never exceeds the length, and lands on a matching name.
proof fn lemma_find_range(ts: Seq<(Variable, int)>, n: Seq<char>)
    ensures
        0 <= find_idx(ts, n) <= ts.len(),
        find_idx(ts, n) < ts.len() ==> ts[find_idx(ts, n)].0.name@ == n,
        forall|m: int| 0 <= m < find_idx(ts, n) ==> (#[trigger] ts[m]).0.name@ != n,
    decreases ts.len(),
{
    if ts.len() > 0 && ts[0].0.name@ != n {
        let d = ts.drop_first();
        lemma_find_range(d, n);
        assert(find_idx(ts, n) == 1 + find_idx(d, n));
        assert forall|m: int| 0 <= m < find_idx(ts, n) implies (#[trigger] ts[m]).0.name@ != n by {
            if m > 0 {
                assert(ts[m] == d[m - 1]);
            }
        }
    }
}

/// Inserting a contribution adjusts exactly the looked-up name.
proof fn lemma_insert_lookup(ts: Seq<(Variable, int)>, v: Variable, c: int, n: Seq<char>)
    ensures
        lookup(insert_term(ts, v, c), n) == lookup(ts, n) + if v.name@ == n {
            c
        } else {
            0
        },
        names_distinct(ts) ==> names_distinct(insert_term(ts, v, c)),
{
    lemma_find_range(ts, v.name@);
    lemma_find_range(ts, n);
    let k = find_idx(ts, v.name@);
    let out = insert_term(ts, v, c);
    if k < ts.len() {
        assert forall|m: int| 0 <= m < out.len() implies (#[trigger] out[m]).0.name@
            == ts[m].0.name@ by {
            if m != k {
                assert(out[m] == ts[m]);
            }
        }
        lemma_find_same_names(ts, out, n);
        lemma_find_range(out, n);
        let f = find_idx(ts, n);
        if v.name@ == n {
            assert(f == k);
            assert(out[k].1 == ts[k].1 + c);
        } else {
            if f < ts.len() {
                assert(ts[f].0.name@ == n);
                assert(f != k);
                assert(out[f] == ts[f]);
            }
        }
    } else {
        lemma_find_push(ts, v, c, n);
        if v.name@ == n {
            assert(lookup(ts, n) == 0);
            assert(out == ts.push((v, c)));
            assert(out[ts.len() as int].1 == c);
        }
    }
}

/// Two sequences with the same names at the same places find a name at
/// the same index.
proof fn lemma_find_same_names(a: Seq<(Variable, int)>, b: Seq<(Variable, int)>, n: Seq<char>)
    requires
        a.len() == b.len(),
        forall|m: int| 0 <= m < a.len() ==> (#[trigger] a[m]).0.name@ == (#[trigger] b[m]).0.name@,
    ensures
        find_idx(a, n) == find_idx(b, n),
    decreases a.len(),
{
    if a.len() > 0 {
        assert(a[0].0.name@ == b[0].0.name@);
        if a[0].0.name@ != n {
            assert(forall|m: int|
                0 <= m < a.drop_first().len() ==> (#[trigger] a.drop_first()[m]).0.name@ == (
                #[trigger] b.drop_first()[m]).0.name@);
            lemma_find_same_names(a.drop_first(), b.drop_first(), n);
        }
    }
}

/// Finding in `ts.push(p)` either finds within `ts` or at the new slot.
proof fn lemma_find_push(ts: Seq<(Variable, int)>, v: Variable, c: int, n: Seq<char>)
    ensures
        find_idx(ts, n) < ts.len() ==> find_idx(ts.push((v, c)), n) == find_idx(ts, n),
        find_idx(ts, n) == ts.len() && v.name@ == n ==> find_idx(ts.push((v, c)), n) == ts.len(),
        find_idx(ts, n) == ts.len() && v.name@ != n ==> find_idx(ts.push((v, c)), n) == ts.len()
            + 1,
    decreases ts.len(),
{
    lemma_find_range(ts, n);
    let p = ts.push((v, c));
    if ts.len() > 0 {
        assert(p[0] == ts[0]);
        if ts[0].0.name@ != n {
            assert(p.drop_first() =~= ts.drop_first().push((v, c)));
            lemma_find_push(ts.drop_first(), v, c, n);
            assert(find_idx(p, n) == 1 + find_idx(ts.drop_first().push((v, c)), n));
            assert(find_idx(ts, n) == 1 + find_idx(ts.drop_first(), n));
        }
    } else {
        assert(p[0] == (v, c));
        assert(find_idx(p, n) == if v.name@ == n {
            0int
        } else {
            1 + find_idx(p.drop_first(), n)
        });
    }
}

/// Merging adds the raw sum of the source to every looked-up name.
proof fn lemma_merge_lookup(ts: Seq<(Variable, int)>, src: Seq<(Variable, int)>, n: Seq<char>)
    ensures
        lookup(merge_terms(ts, src), n) == lookup(ts, n) + raw_sum(src, n),
        names_distinct(ts) ==> names_distinct(merge_terms(ts, src)),
    decreases src.len(),
{
    if src.len() > 0 {
        lemma_merge_lookup(ts, src.drop_last(), n);
        lemma_insert_lookup(merge_terms(ts, src.drop_last()), src.last().0, src.last().1, n);
    }
}

/// On a distinct-name sequence the raw sum and the lookup agree.
pub proof fn lemma_raw_sum_distinct(ts: Seq<(Variable, int)>, n: Seq<char>)
    requires
        names_distinct(ts),
    ensures
        raw_sum(ts, n) == lookup(ts, n),
    decreases ts.len(),
{
    if ts.len() > 0 {
        let d = ts.drop_last();
        assert(names_distinct(d));
        lemma_raw_sum_distinct(d, n);
        lemma_find_range(ts, n);
        lemma_find_range(d, n);
        let k = find_idx(ts, n);
        if ts.last().0.name@ == n {
            lemma_distinct_find(ts, ts.len() - 1);
            assert(lookup(d, n) == 0);
        } else {
            if k < ts.len() {
                assert(k < d.len() && d[k] == ts[k]);
                lemma_find_same_prefix(ts, d, n);
            } else {
                assert(find_idx(d, n) == d.len()) by {
                    if find_idx(d, n) < d.len() {
                        lemma_find_same_prefix(ts, d, n);
                    }
                }
            }
        }
    }
}

/// Dropping the last entry does not change where a name is found, as
/// long as it is found before the end.
proof fn lemma_find_same_prefix(ts: Seq<(Variable, int)>, d: Seq<(Variable, int)>, n: Seq<char>)
    requires
        d =~= ts.drop_last(),
        ts.len() > 0,
        ts.last().0.name@ != n,
    ensures
        find_idx(ts, n) < ts.len() ==> find_idx(d, n) == find_idx(ts, n),
        find_idx(ts, n) == ts.len() ==> find_idx(d, n) == d.len(),
    decreases ts.len(),
{
    assert(d.len() == ts.len() - 1);
    if ts.len() > 1 {
        assert(d[0] == ts[0]);
        if ts[0].0.name@ != n {
            assert(d.drop_first() =~= ts.drop_first().drop_last());
            assert(ts.drop_first().last() == ts.last());
            lemma_find_same_prefix(ts.drop_first(), d.drop_first(), n);
            assert(find_idx(ts, n) == 1 + find_idx(ts.drop_first(), n));
            assert(find_idx(d, n) == 1 + find_idx(d.drop_first(), n));
        }
    } else {
        assert(ts[0].0.name@ != n);
        assert(find_idx(ts, n) == 1 + find_idx(ts.drop_first(), n));
        assert(ts.drop_first().len() == 0);
    }
}

/// The negation of a sequence keeps names and negates every lookup.
proof fn lemma_neg_lookup(ts: Seq<(Variable, int)>, n: Seq<char>)
    ensures
        lookup(neg_terms(ts), n) == -lookup(ts, n),
        names_distinct(ts) ==> names_distinct(neg_terms(ts)),
        raw_sum(neg_terms(ts), n) == -raw_sum(ts, n),
    decreases ts.len(),
{
    let o = neg_terms(ts);
    assert(forall|m: int| 0 <= m < ts.len() ==> (#[trigger] o[m]).0.name@ == ts[m].0.name@);
    lemma_find_same_names(ts, o, n);
    lemma_find_range(ts, n);
    if ts.len() > 0 {
        assert(neg_terms(ts.drop_last()) =~= o.drop_last());
        lemma_neg_lookup(ts.drop_last(), n);
    }
}

/// The lookup in the normal association sequence of `e` is the net
/// leaf-sum coefficient, and its names are distinct.
pub proof fn lemma_nt_lookup(e: Expr, n: Seq<char>)
    ensures
        lookup(nt(e), n) == coeff_of(e, n),
        names_distinct(nt(e)),
    decreases e,
{
    match e {
        Expr::Constant(_) => {
        },
        Expr::Term(v, c) => {
            lemma_find_range(nt(e), n);
        },
        Expr::Sum(l) => {
            lemma_nt_seq_lookup(l@, n);
        },
        Expr::Negate(i) => {
            lemma_nt_lookup(*i, n);
            lemma_neg_lookup(nt(*i), n);
        },
    }
}

/// Sequence form of [`lemma_nt_lookup`].
pub proof fn lemma_nt_seq_lookup(s: Seq<Expr>, n: Seq<char>)
    ensures
        lookup(nt_seq(s), n) == coeff_seq(s, n),
        names_distinct(nt_seq(s)),
    decreases s,
{
    if s.len() > 0 {
        lemma_nt_seq_lookup(s.drop_last(), n);
        lemma_nt_lookup(s.last(), n);
        lemma_merge_lookup(nt_seq(s.drop_last()), nt(s.last()), n);
        lemma_raw_sum_distinct(nt(s.last()), n);
    }
}

/// The net coefficient and constant are bounded by the weight.
pub proof fn lemma_coeff_bounded(e: Expr, n: Seq<char>)
    ensures
        abs_int(coeff_of(e, n)) <= weight(e),
        abs_int(const_of(e)) <= weight(e),
    decreases e,
{
    match e {
        Expr::Constant(_) => {
        },
        Expr::Term(_, _) => {
        },
        Expr::Sum(l) => {
            lemma_coeff_seq_bounded(l@, n);
        },
        Expr::Negate(i) => {
            lemma_coeff_bounded(*i, n);
        },
    }
}

/// Sequence form of [`lemma_coeff_bounded`].
pub proof fn lemma_coeff_seq_bounded(s: Seq<Expr>, n: Seq<char>)
    ensures
        abs_int(coeff_seq(s, n)) <= weight_seq(s),
        abs_int(const_seq(s)) <= weight_seq(s),
    decreases s,
{
    if s.len() > 0 {
        lemma_coeff_seq_bounded(s.drop_last(), n);
        lemma_coeff_bounded(s.last(), n);
    }
}

/// Every entry of the normal association sequence is a net coefficient,
/// hence bounded by the weight.
pub proof fn lemma_nt_bounded(e: Expr)
    ensures
        all_bounded(nt(e), weight(e)),
    decreases e,
{
    assert forall|i: int| 0 <= i < nt(e).len() implies abs_int((#[trigger] nt(e)[i]).1) <= weight(
        e,
    ) by {
        let n = nt(e)[i].0.name@;
        lemma_nt_lookup(e, n);
        lemma_distinct_find(nt(e), i);
        lemma_coeff_bounded(e, n);
    }
}

/// Dropping zero entries does not change any raw sum.
proof fn lemma_filter_raw(ts: Seq<(Variable, int)>, n: Seq<char>)
    ensures
        raw_sum(filter_nonzero(ts), n) == raw_sum(ts, n),
    decreases ts.len(),
{
    if ts.len() > 0 {
        lemma_filter_raw(ts.drop_last(), n);
        if ts.last().1 != 0 {
            let f = filter_nonzero(ts.drop_last());
            assert(f.push(ts.last()).drop_last() =~= f);
            assert(f.push(ts.last()).last() == ts.last());
        }
    }
}

/// Every filtered entry occurs in the original sequence and is nonzero.
pub proof fn lemma_filter_entries(ts: Seq<(Variable, int)>)
    ensures
        forall|i: int|
            0 <= i < filter_nonzero(ts).len() ==> exists|m: int|
                0 <= m < ts.len() && #[trigger] filter_nonzero(ts)[i] == ts[m],
        forall|i: int|
            0 <= i < filter_nonzero(ts).len() ==> (#[trigger] filter_nonzero(ts)[i]).1 != 0,
    decreases ts.len(),
{
    if ts.len() > 0 {
        let d = ts.drop_last();
        lemma_filter_entries(d);
        let out = filter_nonzero(ts);
        assert forall|i: int| 0 <= i < out.len() implies exists|m: int|
            0 <= m < ts.len() && #[trigger] out[i] == ts[m] by {
            if ts.last().1 == 0 || i < out.len() - 1 {
                let m = choose|m: int| 0 <= m < d.len() && filter_nonzero(d)[i] == d[m];
                assert(d[m] == ts[m]);
                assert(out[i] == ts[m]);
            } else {
                assert(out[i] == ts[ts.len() - 1]);
            }
        }
        assert forall|i: int| 0 <= i < out.len() implies (#[trigger] out[i]).1 != 0 by {
            if ts.last().1 == 0 || i < out.len() - 1 {
                assert(out[i] == filter_nonzero(d)[i]);
            }
        }
    }
}

/// Filtering preserves distinctness of names.
proof fn lemma_filter_distinct(ts: Seq<(Variable, int)>)
    requires
        names_distinct(ts),
    ensures
        names_distinct(filter_nonzero(ts)),
    decreases ts.len(),
{
    if ts.len() > 0 {
        let d = ts.drop_last();
        assert(names_distinct(d));
        lemma_filter_distinct(d);
        lemma_filter_entries(d);
        if ts.last().1 != 0 {
            let f = filter_nonzero(d);
            let out = f.push(ts.last());
            assert forall|i: int, j: int|
                0 <= i < j < out.len() implies (#[trigger] out[i]).0.name@ != (
            #[trigger] out[j]).0.name@ by {
                if j == out.len() - 1 {
                    let m = choose|m: int| 0 <= m < d.len() && f[i] == d[m];
                    assert(ts[m] == d[m]);
                    assert(ts[m].0.name@ != ts[ts.len() - 1].0.name@);
                } else {
                    assert(out[i] == f[i] && out[j] == f[j]);
                }
            }
        }
    }
}

/// On distinct names the filtered lookup agrees with the full lookup.
proof fn lemma_filter_lookup(ts: Seq<(Variable, int)>, n: Seq<char>)
    requires
        names_distinct(ts),
    ensures
        lookup(filter_nonzero(ts), n) == lookup(ts, n),
{
    lemma_filter_distinct(ts);
    lemma_raw_sum_distinct(ts, n);
    lemma_raw_sum_distinct(filter_nonzero(ts), n);
    lemma_filter_raw(ts, n);
}

/// The raw sum of a prefix of a distinct-name sequence is the entry's
/// value when the name's slot lies inside the prefix, zero otherwise.
proof fn lemma_raw_sum_prefix(ts: Seq<(Variable, int)>, j: int, n: Seq<char>)
    requires
        names_distinct(ts),
        0 <= j <= ts.len(),
    ensures
        raw_sum(ts.take(j), n) == if find_idx(ts, n) < j {
            ts[find_idx(ts, n)].1
        } else {
            0
        },
    decreases j,
{
    lemma_find_range(ts, n);
    if j > 0 {
        lemma_raw_sum_prefix(ts, j - 1, n);
        assert(ts.take(j).drop_last() =~= ts.take(j - 1));
        assert(ts.take(j).last() == ts[j - 1]);
        if ts[j - 1].0.name@ == n {
            lemma_distinct_find(ts, j - 1);
        }
    }
}

/// A prefix never outweighs the whole.
proof fn lemma_weight_take(s: Seq<Expr>, i: int)
    requires
        0 <= i <= s.len(),
    ensures
        weight_seq(s.take(i)) <= weight_seq(s),
    decreases s.len() - i,
{
    if i < s.len() {
        assert(s.take(i + 1).drop_last() =~= s.take(i));
        assert(s.take(i + 1).last() == s[i]);
        lemma_weight_take(s, i + 1);
    } else {
        assert(s.take(i) =~= s);
    }
}

/// A prefix plus one element never outweighs the whole.
proof fn lemma_weight_elem(s: Seq<Expr>, i: int)
    requires
        0 <= i < s.len(),
    ensures
        weight_seq(s.take(i)) + weight(s[i]) <= weight_seq(s),
{
    lemma_weight_take(s, i + 1);
    assert(s.take(i + 1).drop_last() =~= s.take(i));
    assert(s.take(i + 1).last() == s[i]);
}

/// The pairs of an `i128` association vector, as mathematical integers.
pub open spec fn int_pairs(s: Seq<(Variable, i128)>) -> Seq<(Variable, int)> {
    s.map(|i: int, p: (Variable, i128)| (p.0, p.1 as int))
}

/// The pairs of a `Num` association vector, as mathematical integers.
pub open spec fn num_pairs(s: Seq<(Variable, Num)>) -> Seq<(Variable, int)> {
    s.map(|i: int, p: (Variable, Num)| (p.0, p.1@))
}

/// A canonical linear form: one coefficient per variable, nonzero
/// entries only, in order of first occurrence, plus a constant offset.
#[derive(Debug)]
pub struct LinForm {
    pub terms: Vec<(Variable, Num)>,
    pub constant: Num,
}

/// The association sequence of a linear form, over mathematical
/// integers.
pub open spec fn lf_pairs(f: LinForm) -> Seq<(Variable, int)> {
    num_pairs(f.terms@)
}

impl LinForm {
    /// Well-formed: distinct variable names, no zero coefficients.
    pub open spec fn wf(&self) -> bool {
        &&& names_distinct(lf_pairs(*self))
        &&& forall|i: int| 0 <= i < lf_pairs(*self).len() ==> (#[trigger] lf_pairs(*self)[i]).1
            != 0
    }

    /// The coefficient this form assigns to the variable named `n`
    /// (zero when absent), in `Num` units.
    pub open spec fn spec_coeff(&self, n: Seq<char>) -> int {
        lookup(lf_pairs(*self), n)
    }
}

impl Variable {
    /// A fresh variable.
    pub fn new(name: String, kind: VarKind) -> (r: Variable)
        ensures
            r.name == name,
            r.kind == kind,
    {
        Variable { name, kind }
    }

    /// A continuous variable with the given name.
    pub fn continuous(name: &str) -> (r: Variable)
        ensures
            r.name@ == name@,
            r.kind == VarKind::Continuous,
    {
        Variable { name: String::from_str(name), kind: VarKind::Continuous }
    }

    /// An integer variable with the given name.
    pub fn integer(name: &str) -> (r: Variable)
        ensures
            r.name@ == name@,
            r.kind == VarKind::Integer,
    {
        Variable { name: String::from_str(name), kind: VarKind::Integer }
    }

    /// A binary variable with the given name.
    pub fn binary(name: &str) -> (r: Variable)
        ensures
            r.name@ == name@,
            r.kind == VarKind::Binary,
    {
        Variable { name: String::from_str(name), kind: VarKind::Binary }
    }

    /// An equal copy.
    pub fn dup(&self) -> (r: Variable)
        ensures
            r == *self,
    {
        let r = Variable { name: self.name.clone(), kind: self.kind };
        proof {
            assert(r == *self);
        }
        r
    }
}

/// Whether every leaf of `e` can be scaled by `k` exactly.
pub open spec fn scalable(k: int, e: Expr) -> bool
    decreases e,
{
    match e {
        Expr::Constant(c) => spec_exact_mul(k, c@) is Some,
        Expr::Term(_, c) => spec_exact_mul(k, c@) is Some,
        Expr::Sum(l) => scalable_seq(k, l@),
        Expr::Negate(i) => scalable(k, *i),
    }
}

/// Sequence form of [`scalable`].
pub open spec fn scalable_seq(k: int, s: Seq<Expr>) -> bool
    decreases s,
{
    if s.len() == 0 {
        true
    } else {
        scalable_seq(k, s.drop_last()) && scalable(k, s.last())
    }
}

/// A scalable sum has scalable elements.
proof fn lemma_scalable_elem(k: int, s: Seq<Expr>, i: int)
    requires
        0 <= i < s.len(),
        scalable_seq(k, s),
    ensures
        scalable(k, s[i]),
    decreases s.len(),
{
    if i < s.len() - 1 {
        lemma_scalable_elem(k, s.drop_last(), i);
    }
}

/// Element-wise exact scaling carries over to the sequence sums.
proof fn lemma_scale_seq(k: int, a: Seq<Expr>, b: Seq<Expr>, n: Seq<char>)
    requires
        a.len() == b.len(),
        forall|j: int|
            0 <= j < a.len() ==> (#[trigger] coeff_of(b[j], n)) * (SCALE as int) == k * coeff_of(
                a[j],
                n,
            ),
        forall|j: int|
            0 <= j < a.len() ==> (#[trigger] const_of(b[j])) * (SCALE as int) == k * const_of(
                a[j],
            ),
        forall|j: int|
            0 <= j < a.len() ==> (#[trigger] weight(b[j])) as int * (SCALE as int) == abs_int(k)
                as int * (weight(a[j]) as int),
    ensures
        coeff_seq(b, n) * (SCALE as int) == k * coeff_seq(a, n),
        const_seq(b) * (SCALE as int) == k * const_seq(a),
        weight_seq(b) as int * (SCALE as int) == abs_int(k) as int * (weight_seq(a) as int),
    decreases a.len(),
{
    let s = SCALE as int;
    if a.len() > 0 {
        lemma_scale_seq(k, a.drop_last(), b.drop_last(), n);
        assert(a.last() == a[a.len() - 1]);
        assert(b.last() == b[a.len() - 1]);
        let ca = coeff_seq(a.drop_last(), n);
        let cb = coeff_of(a.last(), n);
        let xa = coeff_seq(b.drop_last(), n);
        let xb = coeff_of(b.last(), n);
        assert((xa + xb) * s == k * (ca + cb)) by (nonlinear_arith)
            requires
                xa * s == k * ca,
                xb * s == k * cb,
        ;
        let da = const_seq(a.drop_last());
        let db = const_of(a.last());
        let ya = const_seq(b.drop_last());
        let yb = const_of(b.last());
        assert((ya + yb) * s == k * (da + db)) by (nonlinear_arith)
            requires
                ya * s == k * da,
                yb * s == k * db,
        ;
        assert(weight_seq(b) == weight_seq(b.drop_last()) + weight(b.last()));
        assert(weight_seq(a) == weight_seq(a.drop_last()) + weight(a.last()));
        let za = weight_seq(b.drop_last()) as int;
        let zb = weight(b.last()) as int;
        let wa = weight_seq(a.drop_last()) as int;
        let wb = weight(a.last()) as int;
        let m = abs_int(k) as int;
        assert((za + zb) * s == m * (wa + wb)) by (nonlinear_arith)
            requires
                za * s == m * wa,
                zb * s == m * wb,
        ;
        assert(weight_seq(b) as int == za + zb);
        assert(weight_seq(a) as int == wa + wb);
        assert(weight_seq(b) as int * (SCALE as int) == abs_int(k) as int * (weight_seq(a) as int));
    } else {
        assert(weight_seq(b) == 0);
        assert(weight_seq(a) == 0);
        assert(weight_seq(b) as int * (SCALE as int) == abs_int(k) as int * (weight_seq(a) as int))
            by (nonlinear_arith)
            requires
                weight_seq(b) == 0,
                weight_seq(a) == 0,
        ;
    }
}

impl Expr {
    /// The constant expression `c`.
    pub fn constant(c: Num) -> (r: Expr)
        ensures
            r == Expr::Constant(c),
            forall|n: Seq<char>| #[trigger] coeff_of(r, n) == 0,
            const_of(r) == c@,
            weight(r) == abs_int(c@),
    {
        Expr::Constant(c)
    }

    /// The term `k * v`.
    pub fn term(v: Variable, k: Num) -> (r: Expr)
        ensures
            r == Expr::Term(v, k),
            forall|n: Seq<char>|
                #[trigger] coeff_of(r, n) == if v.name@ == n {
                    k@
                } else {
                    0
                },
            const_of(r) == 0,
            weight(r) == abs_int(k@),
    {
        Expr::Term(v, k)
    }

    /// The variable `v` with coefficient one.
    pub fn var(v: Variable) -> (r: Expr)
        ensures
            r == Expr::Term(v, (Num { units: SCALE })),
            forall|n: Seq<char>|
                #[trigger] coeff_of(r, n) == if v.name@ == n {
                    SCALE as int
                } else {
                    0
                },
            const_of(r) == 0,
            weight(r) == SCALE,
    {
        Expr::Term(v, Num { units: SCALE })
    }

    /// The sum `self + o`.
    pub fn add(self, o: Expr) -> (r: Expr)
        ensures
            r matches Expr::Sum(parts) && parts@ == seq![self, o],
            forall|n: Seq<char>| #[trigger] coeff_of(r, n) == coeff_of(self, n) + coeff_of(o, n),
            const_of(r) == const_of(self) + const_of(o),
            weight(r) == weight(self) + weight(o),
    {
        let r = Expr::Sum(vec![self, o]);
        proof {
            let parts = match &r {
                Expr::Sum(l) => l@,
                _ => Seq::empty(),
            };
            lemma_pair_decompose(self, o, parts);
            assert forall|n: Seq<char>| #[trigger] coeff_of(r, n) == coeff_of(self, n) + coeff_of(
                o,
                n,
            ) by {
                assert(coeff_of(r, n) == coeff_seq(parts, n));
            }
            assert(const_of(r) == const_seq(parts));
            assert(weight(r) == weight_seq(parts));
        }
        r
    }

    /// The difference `self - o`.
    pub fn sub(self, o: Expr) -> (r: Expr)
        ensures
            forall|n: Seq<char>| #[trigger] coeff_of(r, n) == coeff_of(self, n) - coeff_of(o, n),
            const_of(r) == const_of(self) - const_of(o),
            weight(r) == weight(self) + weight(o),
    {
        let dn = Expr::Negate(Box::new(o));
        let ghost gn = dn;
        let r = Expr::Sum(vec![self, dn]);
        proof {
            let parts = match &r {
                Expr::Sum(l) => l@,
                _ => Seq::empty(),
            };
            lemma_pair_decompose(self, gn, parts);
            assert forall|n: Seq<char>| #[trigger] coeff_of(r, n) == coeff_of(self, n) - coeff_of(
                o,
                n,
            ) by {
                assert(coeff_of(r, n) == coeff_seq(parts, n));
                assert(coeff_of(gn, n) == -coeff_of(o, n));
            }
            assert(const_of(r) == const_seq(parts));
            assert(const_of(gn) == -const_of(o));
            assert(weight(r) == weight_seq(parts));
            assert(weight(gn) == weight(o));
        }
        r
    }

    /// The negation `-self`.
    pub fn neg(self) -> (r: Expr)
        ensures
            r matches Expr::Negate(i) && *i == self,
            forall|n: Seq<char>| #[trigger] coeff_of(r, n) == -coeff_of(self, n),
            const_of(r) == -const_of(self),
            weight(r) == weight(self),
    {
        Expr::Negate(Box::new(self))
    }

    /// The sum of a whole collection, folded by addition: callers
    /// project their items into expressions and hand the results here.
    /// An empty collection yields the additive identity (all
    /// coefficients and the constant are zero).
    pub fn sum(items: Vec<Expr>) -> (r: Expr)
        ensures
            r == Expr::Sum(items),
            forall|n: Seq<char>| #[trigger] coeff_of(r, n) == coeff_seq(items@, n),
            const_of(r) == const_seq(items@),
            weight(r) == weight_seq(items@),
    {
        Expr::Sum(items)
    }
}

/// Sum of the magnitudes of every coefficient in `ts`.
pub open spec fn abs_sum(ts: Seq<(Variable, int)>) -> nat
    decreases ts,
{
    if ts.len() == 0 {
        0
    } else {
        abs_sum(ts.drop_last()) + abs_int(ts.last().1)
    }
}

/// Replacing one entry exchanges its magnitude in the sum.
proof fn lemma_abs_sum_update(ts: Seq<(Variable, int)>, k: int, p: (Variable, int))
    requires
        0 <= k < ts.len(),
    ensures
        abs_sum(ts.update(k, p)) + abs_int(ts[k].1) == abs_sum(ts) + abs_int(p.1),
    decreases ts.len(),
{
    let u = ts.update(k, p);
    if k == ts.len() - 1 {
        assert(u.drop_last() =~= ts.drop_last());
        assert(u.last() == p);
    } else {
        assert(u.drop_last() =~= ts.drop_last().update(k, p));
        assert(u.last() == ts.last());
        lemma_abs_sum_update(ts.drop_last(), k, p);
    }
}

/// Inserting one contribution raises the magnitude sum by at most its
/// own magnitude.
proof fn lemma_abs_insert(ts: Seq<(Variable, int)>, v: Variable, c: int)
    ensures
        abs_sum(insert_term(ts, v, c)) <= abs_sum(ts) + abs_int(c),
{
    lemma_find_range(ts, v.name@);
    let k = find_idx(ts, v.name@);
    if k < ts.len() {
        lemma_abs_sum_update(ts, k, (ts[k].0, ts[k].1 + c));
    } else {
        assert(insert_term(ts, v, c).drop_last() =~= ts);
        assert(insert_term(ts, v, c).last() == (v, c));
    }
}

/// Merging raises the magnitude sum by at most the source's.
proof fn lemma_abs_merge(a: Seq<(Variable, int)>, b: Seq<(Variable, int)>)
    ensures
        abs_sum(merge_terms(a, b)) <= abs_sum(a) + abs_sum(b),
    decreases b.len(),
{
    if b.len() > 0 {
        lemma_abs_merge(a, b.drop_last());
        lemma_abs_insert(merge_terms(a, b.drop_last()), b.last().0, b.last().1);
    }
}

/// Negation keeps the magnitude sum.
proof fn lemma_abs_neg(ts: Seq<(Variable, int)>)
    ensures
        abs_sum(neg_terms(ts)) == abs_sum(ts),
    decreases ts.len(),
{
    if ts.len() > 0 {
        assert(neg_terms(ts).drop_last() =~= neg_terms(ts.drop_last()));
        assert(neg_terms(ts).last() == (ts.last().0, -ts.last().1));
        lemma_abs_neg(ts.drop_last());
    }
}

/// Dropping zero entries never raises the magnitude sum.
pub proof fn lemma_abs_filter(ts: Seq<(Variable, int)>)
    ensures
        abs_sum(filter_nonzero(ts)) <= abs_sum(ts),
    decreases ts.len(),
{
    if ts.len() > 0 {
        lemma_abs_filter(ts.drop_last());
        if ts.last().1 != 0 {
            let f = filter_nonzero(ts.drop_last());
            assert(f.push(ts.last()).drop_last() =~= f);
            assert(f.push(ts.last()).last() == ts.last());
        }
    }
}

/// The normal coefficients and the constant, in total magnitude, never
/// exceed the weight.
pub proof fn lemma_abs_nt(e: Expr)
    ensures
        abs_sum(nt(e)) + abs_int(const_of(e)) <= weight(e),
    decreases e,
{
    match e {
        Expr::Constant(_) => {
            assert(nt(e) =~= Seq::<(Variable, int)>::empty());
            assert(abs_sum(nt(e)) == 0);
        },
        Expr::Term(v, c) => {
            assert(nt(e).drop_last() =~= Seq::<(Variable, int)>::empty());
            assert(nt(e).last() == (v, c@));
            assert(abs_sum(nt(e)) == abs_sum(nt(e).drop_last()) + abs_int(c@));
            assert(abs_sum(nt(e).drop_last()) == 0);
        },
        Expr::Sum(l) => {
            lemma_abs_nt_seq(l@);
        },
        Expr::Negate(i) => {
            lemma_abs_nt(*i);
            lemma_abs_neg(nt(*i));
        },
    }
}

/// Sequence form of [`lemma_abs_nt`].
pub proof fn lemma_abs_nt_seq(s: Seq<Expr>)
    ensures
        abs_sum(nt_seq(s)) + abs_int(const_seq(s)) <= weight_seq(s),
    decreases s,
{
    if s.len() > 0 {
        lemma_abs_nt_seq(s.drop_last());
        lemma_abs_nt(s.last());
        lemma_abs_merge(nt_seq(s.drop_last()), nt(s.last()));
    }
}

/// `e` is a term carrying exactly the variable `v`.
pub open spec fn is_term_with_var(e: Expr, v: Variable) -> bool {
    match e {
        Expr::Term(w, _) => w == v,
        _ => false,
    }
}

/// `e` is a bare term or a constant.
pub open spec fn plain_kid(e: Expr) -> bool {
    e is Term || e is Constant
}

/// The variable of `p` occurs in `a` or in `b`.
pub open spec fn var_from(p: (Variable, int), a: Seq<(Variable, int)>, b: Seq<(Variable, int)>) -> bool {
    (exists|i: int| 0 <= i < a.len() && p.0 == (#[trigger] a[i]).0) || (exists|i: int|
        0 <= i < b.len() && p.0 == (#[trigger] b[i]).0)
}

/// Some child of `s` is a term carrying `v`.
pub open spec fn some_term_var(s: Seq<Expr>, v: Variable) -> bool {
    exists|j: int| 0 <= j < s.len() && is_term_with_var(#[trigger] s[j], v)
}

/// Inserting keeps every slot's variable, or introduces `v`.
proof fn lemma_insert_vars(ts: Seq<(Variable, int)>, v: Variable, c: int)
    ensures
        forall|m: int|
            0 <= m < insert_term(ts, v, c).len() ==> var_from(
                #[trigger] insert_term(ts, v, c)[m],
                ts,
                seq![(v, c)],
            ),
{
    lemma_find_range(ts, v.name@);
    let out = insert_term(ts, v, c);
    let k = find_idx(ts, v.name@);
    assert forall|m: int| 0 <= m < out.len() implies var_from(#[trigger] out[m], ts, seq![(v, c)]) by {
        if k < ts.len() {
            if m == k {
                assert(out[m].0 == ts[m].0);
            } else {
                assert(out[m].0 == ts[m].0);
            }
        } else {
            if m < ts.len() {
                assert(out[m].0 == ts[m].0);
            } else {
                assert(out[m].0 == seq![(v, c)][0].0);
            }
        }
    }
}

/// Every variable of a merge comes from one of the two sides.
proof fn lemma_merge_vars(a: Seq<(Variable, int)>, b: Seq<(Variable, int)>)
    ensures
        forall|m: int|
            0 <= m < merge_terms(a, b).len() ==> var_from(#[trigger] merge_terms(a, b)[m], a, b),
    decreases b.len(),
{
    let out = merge_terms(a, b);
    if b.len() == 0 {
        assert forall|m: int| 0 <= m < out.len() implies var_from(#[trigger] out[m], a, b) by {
            assert(out[m].0 == a[m].0);
        }
    } else {
        let d = b.drop_last();
        let prev = merge_terms(a, d);
        lemma_merge_vars(a, d);
        lemma_insert_vars(prev, b.last().0, b.last().1);
        assert forall|m: int| 0 <= m < out.len() implies var_from(#[trigger] out[m], a, b) by {
            assert(var_from(out[m], prev, seq![(b.last().0, b.last().1)]));
            if exists|i: int| 0 <= i < prev.len() && out[m].0 == (#[trigger] prev[i]).0 {
                let i = choose|i: int| 0 <= i < prev.len() && out[m].0 == (#[trigger] prev[i]).0;
                assert(var_from(prev[i], a, d));
                if exists|x: int| 0 <= x < d.len() && prev[i].0 == (#[trigger] d[x]).0 {
                    let x = choose|x: int| 0 <= x < d.len() && prev[i].0 == (#[trigger] d[x]).0;
                    assert(d[x] == b[x]);
                    assert(out[m].0 == b[x].0);
                }
            } else {
                assert(out[m].0 == seq![(b.last().0, b.last().1)][0].0);
                assert(out[m].0 == b[b.len() - 1].0);
            }
        }
    }
}

/// When a sum's children are bare terms and constants, every variable of
/// the normal association sequence is carried by one of the terms.
pub proof fn lemma_nt_seq_term_vars(s: Seq<Expr>)
    requires
        forall|j: int| 0 <= j < s.len() ==> plain_kid(#[trigger] s[j]),
    ensures
        forall|m: int|
            0 <= m < nt_seq(s).len() ==> some_term_var(s, (#[trigger] nt_seq(s)[m]).0),
    decreases s.len(),
{
    if s.len() > 0 {
        let d = s.drop_last();
        lemma_nt_seq_term_vars(d);
        lemma_merge_vars(nt_seq(d), nt(s.last()));
        let out = nt_seq(s);
        assert forall|m: int| 0 <= m < out.len() implies some_term_var(s, (#[trigger] out[m]).0) by {
            assert(var_from(out[m], nt_seq(d), nt(s.last())));
            if exists|i: int| 0 <= i < nt_seq(d).len() && out[m].0 == (#[trigger] nt_seq(d)[i]).0 {
                let i = choose|i: int|
                    0 <= i < nt_seq(d).len() && out[m].0 == (#[trigger] nt_seq(d)[i]).0;
                assert(some_term_var(d, nt_seq(d)[i].0));
                let j = choose|j: int| 0 <= j < d.len() && is_term_with_var(#[trigger] d[j], out[m].0);
                assert(d[j] == s[j]);
                assert(is_term_with_var(s[j], out[m].0));
            } else {
                let i = choose|i: int|
                    0 <= i < nt(s.last()).len() && out[m].0 == (#[trigger] nt(s.last())[i]).0;
                match s.last() {
                    Expr::Term(v, c) => {
                        assert(nt(s.last()) == seq![(v, c@)]);
                        assert(out[m].0 == v);
                        assert(is_term_with_var(s[s.len() - 1], out[m].0));
                    },
                    _ => {
                        assert(nt(s.last()).len() == 0);
                    },
                }
            }
        }
    }
}

/// First slot in `acc` holding the name `n`, or `acc.len()` when absent.
fn find_name(acc: &Vec<(Variable, i128)>, n: &String) -> (k: usize)
    ensures
        k == find_idx(int_pairs(acc@), n@),
{
    let ghost ts = int_pairs(acc@);
    let mut m: usize = 0;
    while m < acc.len()
        invariant
            0 <= m <= acc.len(),
            ts == int_pairs(acc@),
            ts.len() == acc.len(),
            forall|mm: int| 0 <= mm < m ==> (#[trigger] ts[mm]).0.name@ != n@,
        decreases acc.len() - m,
    {
        if acc[m].0.name == *n {
            proof {
                lemma_find_range(ts, n@);
                assert(ts[m as int].0.name@ == n@);
                if find_idx(ts, n@) < m {
                    assert(ts[find_idx(ts, n@)].0.name@ == n@);
                    assert(false);
                }
                if find_idx(ts, n@) > m {
                    assert(ts[m as int].0.name@ != n@);
                    assert(false);
                }
            }
            return m;
        }
        m += 1;
    }
    proof {
        lemma_find_range(ts, n@);
        if find_idx(ts, n@) < ts.len() {
            assert(ts[find_idx(ts, n@)].0.name@ == n@);
            assert(false);
        }
    }
    m
}

/// Flattens `e` into an association vector (zero entries kept) and a
/// constant, both over `i128`, or reports that a quantity left the
/// representable range.  A weight within `i64` range guarantees success.
#[verifier::loop_isolation(false)]
#[verifier::rlimit(100)]
fn normalize_rec(e: &Expr) -> (r: Result<(Vec<(Variable, i128)>, i128), LpError>)
    ensures
        r matches Ok(p) ==> int_pairs(p.0@) == nt(*e) && p.1 == const_of(*e),
        weight(*e) <= i64::MAX ==> r is Ok,
        r matches Err(er) ==> er is NumericOverflow,
    decreases *e,
{
    match e {
        Expr::Constant(c) => {
            let out: Vec<(Variable, i128)> = Vec::new();
            proof {
                assert(int_pairs(out@) =~= Seq::<(Variable, int)>::empty());
            }
            Ok((out, c.units as i128))
        },
        Expr::Term(v, c) => {
            let out: Vec<(Variable, i128)> = vec![(v.dup(), c.units as i128)];
            proof {
                assert(int_pairs(out@) =~= seq![(*v, c@)]);
                assert(nt(*e) == seq![(*v, c@)]);
            }
            Ok((out, 0))
        },
        Expr::Negate(inner) => {
            let sub = match normalize_rec(inner) {
                Ok(p) => p,
                Err(er) => {
                    return Err(er);
                },
            };
            let (ts, k) = sub;
            let mut out: Vec<(Variable, i128)> = Vec::new();
            let mut j: usize = 0;
            while j < ts.len()
                invariant
                    0 <= j <= ts.len(),
                    int_pairs(ts@) == nt(**inner),
                    weight(*e) == weight(**inner),
                    out@.len() == j,
                    forall|m: int|
                        0 <= m < j ==> (#[trigger] out@[m]).0 == ts@[m].0 && out@[m].1 as int == -(
                        ts@[m].1 as int),
                decreases ts.len() - j,
            {
                let v: i128 = ts[j].1;
                if v == i128::MIN {
                    proof {
                        if weight(*e) <= i64::MAX {
                            lemma_nt_bounded(**inner);
                            assert(abs_int(int_pairs(ts@)[j as int].1) <= weight(**inner));
                            assert(false);
                        }
                    }
                    return Err(LpError::NumericOverflow);
                }
                out.push((ts[j].0.dup(), -v));
                j += 1;
            }
            if k == i128::MIN {
                proof {
                    if weight(*e) <= i64::MAX {
                        lemma_coeff_bounded(**inner, Seq::empty());
                        assert(false);
                    }
                }
                return Err(LpError::NumericOverflow);
            }
            proof {
                assert(int_pairs(out@) =~= neg_terms(int_pairs(ts@)));
            }
            Ok((out, -k))
        },
        Expr::Sum(l) => {
            let ghost s = l@;
            let mut acc: Vec<(Variable, i128)> = Vec::new();
            let mut konst: i128 = 0;
            let mut idx: usize = 0;
            proof {
                assert(s.take(0) =~= Seq::<Expr>::empty());
                assert(int_pairs(acc@) =~= Seq::<(Variable, int)>::empty());
            }
            while idx < l.len()
                invariant
                    0 <= idx <= l.len(),
                    s == l@,
                    nt(*e) == nt_seq(s),
                    const_of(*e) == const_seq(s),
                    weight(*e) == weight_seq(s),
                    int_pairs(acc@) == nt_seq(s.take(idx as int)),
                    konst == const_seq(s.take(idx as int)),
                decreases l.len() - idx,
            {
                let child = match normalize_rec(&l[idx]) {
                    Ok(p) => p,
                    Err(er) => {
                        proof {
                            if weight(*e) <= i64::MAX {
                                lemma_weight_elem(s, idx as int);
                                assert(false);
                            }
                        }
                        return Err(er);
                    },
                };
                let (cts, ck) = child;
                konst = match konst.checked_add(ck) {
                    Some(x) => x,
                    None => {
                        proof {
                            if weight(*e) <= i64::MAX {
                                lemma_coeff_seq_bounded(s.take(idx as int), Seq::empty());
                                lemma_coeff_bounded(s[idx as int], Seq::empty());
                                lemma_weight_elem(s, idx as int);
                                lemma_weight_take(s, idx as int);
                                assert(false);
                            }
                        }
                        return Err(LpError::NumericOverflow);
                    },
                };
                let ghost aprev = nt_seq(s.take(idx as int));
                let ghost tsrc = int_pairs(cts@);
                let mut j: usize = 0;
                proof {
                    assert(tsrc.take(0) =~= Seq::<(Variable, int)>::empty());
                    assert(merge_terms(aprev, tsrc.take(0)) == aprev);
                }
                while j < cts.len()
                    invariant
                        0 <= j <= cts.len(),
                        0 <= idx < l.len(),
                        s == l@,
                        nt(*e) == nt_seq(s),
                        weight(*e) == weight_seq(s),
                        tsrc == int_pairs(cts@),
                        tsrc.len() == cts.len(),
                        tsrc == nt(s[idx as int]),
                        aprev == nt_seq(s.take(idx as int)),
                        int_pairs(acc@) == merge_terms(aprev, tsrc.take(j as int)),
                        acc@.len() == int_pairs(acc@).len(),
                    decreases cts.len() - j,
                {
                    let cvar = cts[j].0.dup();
                    let cval: i128 = cts[j].1;
                    let ghost cur = merge_terms(aprev, tsrc.take(j as int));
                    proof {
                        lemma_nt_seq_lookup(s.take(idx as int), cvar.name@);
                        lemma_merge_lookup(aprev, tsrc.take(j as int), cvar.name@);
                        lemma_nt_lookup(s[idx as int], cvar.name@);
                        lemma_distinct_find(tsrc, j as int);
                        lemma_raw_sum_prefix(tsrc, j as int, cvar.name@);
                        assert(raw_sum(tsrc.take(j as int), cvar.name@) == 0);
                        assert(lookup(cur, cvar.name@) == lookup(aprev, cvar.name@));
                    }
                    let k = find_name(&acc, &cvar.name);
                    if k < acc.len() {
                        let newval = match acc[k].1.checked_add(cval) {
                            Some(x) => x,
                            None => {
                                proof {
                                    if weight(*e) <= i64::MAX {
                                        assert(int_pairs(acc@)[k as int].1 == lookup(
                                            cur,
                                            cvar.name@,
                                        ));
                                        lemma_coeff_seq_bounded(s.take(idx as int), cvar.name@);
                                        lemma_nt_bounded(s[idx as int]);
                                        assert(abs_int(tsrc[j as int].1) <= weight(
                                            s[idx as int],
                                        ));
                                        lemma_weight_elem(s, idx as int);
                                        assert(false);
                                    }
                                }
                                return Err(LpError::NumericOverflow);
                            },
                        };
                        let kvar = acc[k].0.dup();
                        acc[k] = (kvar, newval);
                        proof {
                            assert(int_pairs(acc@) =~= insert_term(cur, tsrc[j as int].0, tsrc[
                                j as int].1));
                        }
                    } else {
                        acc.push((cvar, cval));
                        proof {
                            assert(int_pairs(acc@) =~= insert_term(cur, tsrc[j as int].0, tsrc[
                                j as int].1));
                        }
                    }
                    proof {
                        assert(tsrc.take(j as int + 1).drop_last() =~= tsrc.take(j as int));
                        assert(tsrc.take(j as int + 1).last() == tsrc[j as int]);
                    }
                    j += 1;
                }
                proof {
                    assert(tsrc.take(cts@.len() as int) =~= tsrc);
                    assert(s.take(idx as int + 1).drop_last() =~= s.take(idx as int));
                    assert(s.take(idx as int + 1).last() == s[idx as int]);
                    assert(nt_seq(s.take(idx as int + 1)) == merge_terms(aprev, tsrc));
                }
                idx += 1;
            }
            proof {
                assert(s.take(l.len() as int) =~= s);
            }
            Ok((acc, konst))
        },
    }
}

impl Expr {
    /// Normalizes `self` into its canonical linear form: the coefficient
    /// recorded for each variable is the arithmetic sum of that
    /// variable's contributions over all leaves, zero net coefficients
    /// are elided, the surviving entries keep the order of first
    /// occurrence, and the constant is the net constant offset.  Fails
    /// with [`LpError::NumericOverflow`] only when a net quantity leaves
    /// the representable range; success is guaranteed whenever the
    /// weight of the expression stays within `i64` range.
    pub fn normalize(&self) -> (r: Result<LinForm, LpError>)
        ensures
            r matches Ok(f) ==> {
                &&& lf_pairs(f) == filter_nonzero(nt(*self))
                &&& f.constant@ == const_of(*self)
                &&& f.wf()
                &&& forall|n: Seq<char>| #[trigger] f.spec_coeff(n) == coeff_of(*self, n)
            },
            weight(*self) <= i64::MAX ==> r is Ok,
            r matches Err(er) ==> er is NumericOverflow,
    {
        let pr = match normalize_rec(self) {
            Ok(p) => p,
            Err(er) => {
                return Err(er);
            },
        };
        let (ts, k) = pr;
        if k < i64::MIN as i128 || k > i64::MAX as i128 {
            proof {
                if weight(*self) <= i64::MAX {
                    lemma_coeff_bounded(*self, Seq::empty());
                    assert(false);
                }
            }
            return Err(LpError::NumericOverflow);
        }
        let mut terms: Vec<(Variable, Num)> = Vec::new();
        let mut i: usize = 0;
        proof {
            assert(int_pairs(ts@).take(0) =~= Seq::<(Variable, int)>::empty());
            assert(num_pairs(terms@) =~= Seq::<(Variable, int)>::empty());
        }
        while i < ts.len()
            invariant
                0 <= i <= ts.len(),
                int_pairs(ts@) == nt(*self),
                int_pairs(ts@).len() == ts.len(),
                num_pairs(terms@) == filter_nonzero(int_pairs(ts@).take(i as int)),
            decreases ts.len() - i,
        {
            let ghost tall = int_pairs(ts@);
            let v: i128 = ts[i].1;
            if v != 0 {
                if v < i64::MIN as i128 || v > i64::MAX as i128 {
                    proof {
                        if weight(*self) <= i64::MAX {
                            lemma_nt_bounded(*self);
                            assert(abs_int(tall[i as int].1) <= weight(*self));
                            assert(false);
                        }
                    }
                    return Err(LpError::NumericOverflow);
                }
                terms.push((ts[i].0.dup(), Num::from_units(v as i64)));
            }
            proof {
                assert(tall.take(i as int + 1).drop_last() =~= tall.take(i as int));
                assert(tall.take(i as int + 1).last() == tall[i as int]);
                if v != 0 {
                    assert(num_pairs(terms@) =~= filter_nonzero(tall.take(i as int)).push(tall[
                        i as int]));
                }
            }
            i += 1;
        }
        let f = LinForm { terms, constant: Num::from_units(k as i64) };
        proof {
            let tall = int_pairs(ts@);
            assert(tall.take(ts@.len() as int) =~= tall);
            assert(lf_pairs(f) == filter_nonzero(nt(*self)));
            lemma_nt_lookup(*self, Seq::empty());
            lemma_filter_distinct(nt(*self));
            lemma_filter_entries(nt(*self));
            assert forall|n: Seq<char>| #[trigger] f.spec_coeff(n) == coeff_of(*self, n) by {
                lemma_nt_lookup(*self, n);
                lemma_filter_lookup(nt(*self), n);
            }
        }
        Ok(f)
    }

    /// Scales every leaf of `self` by `k`, exactly.  Succeeds if and
    /// only if every leaf quantity times `k` stays on the millionth grid
    /// and in range; the result's net coefficients, constant and weight
    /// are those of `self` scaled by `k`.
    #[verifier::loop_isolation(false)]
    pub fn scale(&self, k: Num) -> (r: Result<Expr, LpError>)
        ensures
            r matches Ok(sc) ==> {
                &&& forall|n: Seq<char>|
                    (#[trigger] coeff_of(sc, n)) * (SCALE as int) == k@ * coeff_of(*self, n)
                &&& const_of(sc) * (SCALE as int) == k@ * const_of(*self)
                &&& weight(sc) as int * (SCALE as int) == abs_int(k@) as int * (weight(*self)
                    as int)
            },
            r is Ok <==> scalable(k@, *self),
            r matches Err(er) ==> er is NumericOverflow,
        decreases *self,
    {
        match self {
            Expr::Constant(c) => {
                match k.exact_mul(*c) {
                    Some(q) => {
                        proof {
                            lemma_exact_mul_value(k@, c@, q@);
                            lemma_abs_mul(k@, c@);
                            lemma_abs_mul(q@, SCALE as int);
                        }
                        Ok(Expr::Constant(q))
                    },
                    None => Err(LpError::NumericOverflow),
                }
            },
            Expr::Term(v, c) => {
                match k.exact_mul(*c) {
                    Some(q) => {
                        let r = Expr::Term(v.dup(), q);
                        proof {
                            lemma_exact_mul_value(k@, c@, q@);
                            lemma_abs_mul(k@, c@);
                            lemma_abs_mul(q@, SCALE as int);
                            assert forall|n: Seq<char>|
                                (#[trigger] coeff_of(r, n)) * (SCALE as int) == k@ * coeff_of(
                                    *self,
                                    n,
                                ) by {
                                if v.name@ != n {
                                    assert(coeff_of(r, n) == 0);
                                    assert(k@ * 0 == 0) by (nonlinear_arith);
                                }
                            }
                        }
                        Ok(r)
                    },
                    None => Err(LpError::NumericOverflow),
                }
            },
            Expr::Negate(inner) => {
                match (&**inner).scale(k) {
                    Ok(sc) => {
                        let r = Expr::Negate(Box::new(sc));
                        proof {
                            assert forall|n: Seq<char>|
                                (#[trigger] coeff_of(r, n)) * (SCALE as int) == k@ * coeff_of(
                                    *self,
                                    n,
                                ) by {
                                let x = coeff_of(sc, n);
                                let y = coeff_of(**inner, n);
                                assert((-x) * (SCALE as int) == k@ * (-y)) by (nonlinear_arith)
                                    requires
                                        x * (SCALE as int) == k@ * y,
                                ;
                            }
                            let dk = const_of(sc);
                            let dy = const_of(**inner);
                            assert((-dk) * (SCALE as int) == k@ * (-dy)) by (nonlinear_arith)
                                requires
                                    dk * (SCALE as int) == k@ * dy,
                            ;
                        }
                        Ok(r)
                    },
                    Err(er) => Err(er),
                }
            },
            Expr::Sum(l) => {
                let ghost s = l@;
                let mut out: Vec<Expr> = Vec::new();
                let mut idx: usize = 0;
                while idx < l.len()
                    invariant
                        0 <= idx <= l.len(),
                        s == l@,
                        nt(*self) == nt_seq(s),
                        const_of(*self) == const_seq(s),
                        weight(*self) == weight_seq(s),
                        scalable(k@, *self) == scalable_seq(k@, s),
                        out@.len() == idx,
                        scalable_seq(k@, s.take(idx as int)),
                        forall|j: int, n: Seq<char>|
                            0 <= j < idx ==> (#[trigger] coeff_of(out@[j], n)) * (SCALE as int)
                                == k@ * coeff_of(s[j], n),
                        forall|j: int|
                            0 <= j < idx ==> (#[trigger] const_of(out@[j])) * (SCALE as int) == k@
                                * const_of(s[j]),
                        forall|j: int|
                            0 <= j < idx ==> (#[trigger] weight(out@[j])) as int * (SCALE as int)
                                == abs_int(k@) as int * (weight(s[j]) as int),
                    decreases l.len() - idx,
                {
                    let sc = match (&l[idx]).scale(k) {
                        Ok(x) => x,
                        Err(er) => {
                            proof {
                                if scalable_seq(k@, s) {
                                    lemma_scalable_elem(k@, s, idx as int);
                                    assert(false);
                                }
                            }
                            return Err(er);
                        },
                    };
                    out.push(sc);
                    proof {
                        assert(s.take(idx as int + 1).drop_last() =~= s.take(idx as int));
                        assert(s.take(idx as int + 1).last() == s[idx as int]);
                    }
                    idx += 1;
                }
                let r = Expr::Sum(out);
                proof {
                    assert(s.take(l.len() as int) =~= s);
                    let b = match &r {
                        Expr::Sum(o) => o@,
                        _ => Seq::empty(),
                    };
                    assert forall|n: Seq<char>|
                        (#[trigger] coeff_of(r, n)) * (SCALE as int) == k@ * coeff_of(
                            *self,
                            n,
                        ) by {
                        lemma_scale_seq(k@, s, b, n);
                    }
                    lemma_scale_seq(k@, s, b, Seq::empty());
                }
                Ok(r)
            },
        }
    }
}

/// The coefficient of the canonical linear form is the arithmetic sum of
/// the variable's contributions over all leaves of the expression,
/// whatever the nesting: the normal association sequence, even after
/// zero entries are elided, looks every name up to [`coeff_of`], which
/// is defined purely as the leaf sum and is therefore independent of
/// how the tree was grouped or ordered.
pub proof fn lemma_normal_coeff_is_leaf_sum(e: Expr, n: Seq<char>)
    ensures
        lookup(filter_nonzero(nt(e)), n) == coeff_of(e, n),
{
    lemma_nt_lookup(e, n);
    lemma_filter_lookup(nt(e), n);
}

/// Splitting a sum into two groups splits the net coefficient and the
/// net constant: normalization is associative over grouping.
pub proof fn lemma_sum_grouping(l1: Vec<Expr>, l2: Vec<Expr>, both: Vec<Expr>, n: Seq<char>)
    requires
        both@ == l1@ + l2@,
    ensures
        coeff_of(Expr::Sum(both), n) == coeff_of(Expr::Sum(l1), n) + coeff_of(Expr::Sum(l2), n),
        const_of(Expr::Sum(both)) == const_of(Expr::Sum(l1)) + const_of(Expr::Sum(l2)),
{
    lemma_coeff_seq_concat(l1@, l2@, n);
}

/// Concatenation splits the sequence sums.
proof fn lemma_coeff_seq_concat(a: Seq<Expr>, b: Seq<Expr>, n: Seq<char>)
    ensures
        coeff_seq(a + b, n) == coeff_seq(a, n) + coeff_seq(b, n),
        const_seq(a + b) == const_seq(a) + const_seq(b),
    decreases b.len(),
{
    if b.len() == 0 {
        assert(a + b =~= a);
    } else {
        assert((a + b).drop_last() =~= a + b.drop_last());
        assert((a + b).last() == b.last());
        lemma_coeff_seq_concat(a, b.drop_last(), n);
    }
}

/// Exchanging the two operands of a sum leaves the net coefficient
/// unchanged: normalization is commutative.
pub proof fn lemma_pair_commutes(a: Expr, b: Expr, n: Seq<char>)
    ensures
        coeff_seq(seq![a, b], n) == coeff_seq(seq![b, a], n),
        const_seq(seq![a, b]) == const_seq(seq![b, a]),
{
    lemma_pair_decompose(a, b, seq![a, b]);
    lemma_pair_decompose(b, a, seq![b, a]);
    assert(coeff_seq(seq![a, b], n) == coeff_of(a, n) + coeff_of(b, n));
    assert(coeff_seq(seq![b, a], n) == coeff_of(b, n) + coeff_of(a, n));
}

/// A well-formed linear form whose every coefficient is zero has no
/// entries at all: a difference `e - e` normalizes to the empty mapping.
pub proof fn lemma_zero_form_empty(f: LinForm)
    requires
        f.wf(),
        forall|n: Seq<char>| #[trigger] f.spec_coeff(n) == 0,
    ensures
        f.terms@.len() == 0,
{
    let p = lf_pairs(f);
    if p.len() > 0 {
        lemma_distinct_find(p, 0);
        assert(f.spec_coeff(p[0].0.name@) == p[0].1);
        assert(false);
    }
    assert(f.terms@.len() == p.len());
}

/// Unfolds the sums over a two-element sequence.
proof fn lemma_pair_decompose(a: Expr, b: Expr, s: Seq<Expr>)
    requires
        s == seq![a, b],
    ensures
        forall|n: Seq<char>| #[trigger] coeff_seq(s, n) == coeff_of(a, n) + coeff_of(b, n),
        const_seq(s) == const_of(a) + const_of(b),
        weight_seq(s) == weight(a) + weight(b),
{
    assert(s.drop_last() =~= seq![a]);
    assert(seq![a].drop_last() =~= Seq::<Expr>::empty());
    assert(s.last() == b);
    assert(seq![a].last() == a);
    assert forall|n: Seq<char>| #[trigger] coeff_seq(s, n) == coeff_of(a, n) + coeff_of(b, n) by {
        assert(coeff_seq(s, n) == coeff_seq(seq![a], n) + coeff_of(b, n));
        assert(coeff_seq(seq![a], n) == coeff_seq(Seq::empty(), n) + coeff_of(a, n));
        assert(coeff_seq(Seq::<Expr>::empty(), n) == 0);
    }
    assert(const_seq(s) == const_seq(seq![a]) + const_of(b));
    assert(const_seq(seq![a]) == const_seq(Seq::empty()) + const_of(a));
    assert(weight_seq(s) == weight_seq(seq![a]) + weight(b));
    assert(weight_seq(seq![a]) == weight_seq(Seq::empty()) + weight(a));
}

} // verus!

