//! The model-file writer.
//!
//! Renders a [`Problem`] into the LP text dialect: a comment header with
//! the problem name, the objective sense and expression, a `Subject To`
//! block with one auto-numbered constraint per line, and trailing
//! `Generals` and `Binaries` blocks listing the registered integer and
//! binary variable names, one per line.  Variables carry no explicit
//! bounds in this model (binaries are implicitly 0/1), so no `Bounds`
//! block is emitted.  The rendering is a function of the problem value
//! alone, with fixed, locale-independent number formatting, so writing
//! the same problem twice yields byte-identical text.
//!
//! The model grammar (produced here) and the solution grammar (consumed
//! by the reader) are different languages: a reader/writer round trip is
//! not meaningful and is deliberately not offered.

use vstd::prelude::*;
use crate::num::Num;
use crate::expr::Variable;
use crate::expr::VarKind;
use crate::expr::LinForm;
use crate::expr::lf_pairs;
use crate::expr::num_pairs;
use crate::problem::Problem;
use crate::problem::Constraint;
use crate::problem::CompOp;
use crate::problem::Sense;
use crate::text::spec_num_chars;
use crate::text::spec_mag_chars;
use crate::text::spec_udigits;
use crate::text::push_num_chars;
use crate::text::push_mag_chars;
use crate::text::push_udigits;
use crate::text::push_str_chars;
use crate::text::chars_to_string;

verus! {

/// The rendering of the leading term: signed coefficient, space, name.
pub open spec fn first_term_chars(p: (Variable, int)) -> Seq<char> {
    spec_num_chars(p.1) + seq![' '] + p.0.name@
}

/// The rendering of a follow-up term: sign word, magnitude, space, name.
pub open spec fn next_term_chars(p: (Variable, int)) -> Seq<char> {
    (if p.1 >= 0 {
        " + "@ + spec_mag_chars(p.1 as nat)
    } else {
        " - "@ + spec_mag_chars((-p.1) as nat)
    }) + seq![' '] + p.0.name@
}

/// The rendering of a nonempty term sequence.
pub open spec fn terms_tail_chars(ts: Seq<(Variable, int)>) -> Seq<char>
    decreases ts.len(),
{
    if ts.len() <= 1 {
        first_term_chars(ts[0])
    } else {
        terms_tail_chars(ts.drop_last()) + next_term_chars(ts.last())
    }
}

/// The rendering of a term sequence; `0` when empty.
pub open spec fn terms_chars(ts: Seq<(Variable, int)>) -> Seq<char> {
    if ts.len() == 0 {
        seq!['0']
    } else {
        terms_tail_chars(ts)
    }
}

/// The rendering of the objective expression: its terms, then the
/// constant when it is nonzero (alone when there are no terms).
pub open spec fn obj_chars(ts: Seq<(Variable, int)>, konst: int) -> Seq<char> {
    if ts.len() == 0 {
        spec_num_chars(konst)
    } else {
        terms_chars(ts) + (if konst == 0 {
            Seq::<char>::empty()
        } else if konst > 0 {
            " + "@ + spec_mag_chars(konst as nat)
        } else {
            " - "@ + spec_mag_chars((-konst) as nat)
        })
    }
}

/// The rendering of a comparison operator.
pub open spec fn op_chars(op: CompOp) -> Seq<char> {
    match op {
        CompOp::Le => "<="@,
        CompOp::Ge => ">="@,
        CompOp::Eq => "="@,
    }
}

/// The rendering of the objective sense.
pub open spec fn sense_chars(s: Sense) -> Seq<char> {
    match s {
        Sense::Minimize => "Minimize"@,
        Sense::Maximize => "Maximize"@,
    }
}

/// One constraint line, numbered from one.
pub open spec fn cons_line_chars(c: Constraint, number: nat) -> Seq<char> {
    "  c"@ + spec_udigits(number) + ": "@ + terms_chars(lf_pairs(c.left)) + " "@ + op_chars(c.op)
        + " "@ + spec_num_chars(c.rhs@) + "\n"@
}

/// All constraint lines, in insertion order.
pub open spec fn cons_lines_chars(cs: Seq<Constraint>) -> Seq<char>
    decreases cs.len(),
{
    if cs.len() == 0 {
        Seq::empty()
    } else {
        cons_lines_chars(cs.drop_last()) + cons_line_chars(cs.last(), cs.len() as nat)
    }
}

/// The declaration lines for the registered variables of one kind, in
/// registration order.
pub open spec fn decl_lines_chars(vs: Seq<Variable>, k: VarKind) -> Seq<char>
    decreases vs.len(),
{
    if vs.len() == 0 {
        Seq::empty()
    } else {
        decl_lines_chars(vs.drop_last(), k) + if vs.last().kind == k {
            "  "@ + vs.last().name@ + "\n"@
        } else {
            Seq::empty()
        }
    }
}

/// Whether the registry holds a variable of kind `k`.
pub open spec fn has_kind(vs: Seq<Variable>, k: VarKind) -> bool {
    exists|i: int| 0 <= i < vs.len() && (#[trigger] vs[i]).kind == k
}

/// The whole model text of a problem.
pub open spec fn spec_lp_text(p: Problem) -> Seq<char> {
    "\\ "@ + p.name@ + "\n\n"@ + sense_chars(p.sense) + "\n"@ + "  obj: "@ + obj_chars(
        lf_pairs(p.objective),
        p.objective.constant@,
    ) + "\n"@ + (if p.constraints@.len() == 0 {
        Seq::<char>::empty()
    } else {
        "\nSubject To\n"@ + cons_lines_chars(p.constraints@)
    }) + (if has_kind(p.variables@, VarKind::Integer) {
        "\nGenerals\n"@ + decl_lines_chars(p.variables@, VarKind::Integer)
    } else {
        Seq::<char>::empty()
    }) + (if has_kind(p.variables@, VarKind::Binary) {
        "\nBinaries\n"@ + decl_lines_chars(p.variables@, VarKind::Binary)
    } else {
        Seq::<char>::empty()
    })
}

/// Appends the magnitude of a fixed-point value.
fn push_abs_mag(out: &mut Vec<char>, u: i64)
    ensures
        final(out)@ == old(out)@ + (if u >= 0 {
            spec_mag_chars(u as nat)
        } else {
            spec_mag_chars((-(u as int)) as nat)
        }),
{
    if u >= 0 {
        push_mag_chars(out, u as u64);
    } else {
        let m: u64 = (-(u as i128)) as u64;
        proof {
            assert(m as nat == (-(u as int)) as nat);
        }
        push_mag_chars(out, m);
    }
}

/// Appends the rendering of a term sequence.
#[verifier::loop_isolation(false)]
fn push_terms(out: &mut Vec<char>, ts: &Vec<(Variable, Num)>)
    ensures
        final(out)@ == old(out)@ + terms_chars(num_pairs(ts@)),
{
    let ghost pairs = num_pairs(ts@);
    if ts.len() == 0 {
        out.push('0');
        proof {
            assert(final(out)@ =~= old(out)@ + terms_chars(pairs));
        }
        return ;
    }
    push_num_chars(out, ts[0].1.units);
    out.push(' ');
    push_str_chars(out, ts[0].0.name.as_str());
    proof {
        assert(pairs.take(1).len() == 1);
        assert(pairs.take(1)[0] == pairs[0]);
        assert(out@ =~= old(out)@ + terms_tail_chars(pairs.take(1)));
    }
    let mut i: usize = 1;
    while i < ts.len()
        invariant
            1 <= i <= ts@.len(),
            pairs == num_pairs(ts@),
            pairs.len() == ts@.len(),
            out@ == old(out)@ + terms_tail_chars(pairs.take(i as int)),
        decreases ts@.len() - i,
    {
        let u: i64 = ts[i].1.units;
        if u >= 0 {
            push_str_chars(out, " + ");
        } else {
            push_str_chars(out, " - ");
        }
        push_abs_mag(out, u);
        out.push(' ');
        push_str_chars(out, ts[i].0.name.as_str());
        proof {
            assert(pairs.take(i as int + 1).drop_last() =~= pairs.take(i as int));
            assert(pairs.take(i as int + 1).last() == pairs[i as int]);
            assert(out@ =~= old(out)@ + terms_tail_chars(pairs.take(i as int + 1)));
        }
        i += 1;
    }
    proof {
        assert(pairs.take(ts@.len() as int) =~= pairs);
    }
}

/// Appends the rendering of the objective expression.
fn push_obj(out: &mut Vec<char>, f: &LinForm)
    ensures
        final(out)@ == old(out)@ + obj_chars(lf_pairs(*f), f.constant@),
{
    if f.terms.len() == 0 {
        push_num_chars(out, f.constant.units);
        proof {
            assert(final(out)@ =~= old(out)@ + obj_chars(lf_pairs(*f), f.constant@));
        }
        return ;
    }
    push_terms(out, &f.terms);
    let u: i64 = f.constant.units;
    if u != 0 {
        if u > 0 {
            push_str_chars(out, " + ");
        } else {
            push_str_chars(out, " - ");
        }
        push_abs_mag(out, u);
    }
    proof {
        assert(final(out)@ =~= old(out)@ + obj_chars(lf_pairs(*f), f.constant@));
    }
}

/// Appends the rendering of a comparison operator.
fn push_op(out: &mut Vec<char>, op: CompOp)
    ensures
        final(out)@ == old(out)@ + op_chars(op),
{
    match op {
        CompOp::Le => push_str_chars(out, "<="),
        CompOp::Ge => push_str_chars(out, ">="),
        CompOp::Eq => push_str_chars(out, "="),
    }
}

/// Whether any registered variable has kind `k`.
#[verifier::loop_isolation(false)]
fn any_kind(vs: &Vec<Variable>, k: VarKind) -> (r: bool)
    ensures
        r == has_kind(vs@, k),
{
    let mut i: usize = 0;
    while i < vs.len()
        invariant
            0 <= i <= vs@.len(),
            forall|m: int| 0 <= m < i ==> (#[trigger] vs@[m]).kind != k,
        decreases vs@.len() - i,
    {
        if vs[i].kind == k {
            return true;
        }
        i += 1;
    }
    false
}

/// Appends the declaration lines for one kind.
#[verifier::loop_isolation(false)]
fn push_decls(out: &mut Vec<char>, vs: &Vec<Variable>, k: VarKind)
    ensures
        final(out)@ == old(out)@ + decl_lines_chars(vs@, k),
{
    let mut i: usize = 0;
    proof {
        assert(vs@.take(0) =~= Seq::<Variable>::empty());
        assert(out@ =~= old(out)@ + decl_lines_chars(vs@.take(0), k));
    }
    while i < vs.len()
        invariant
            0 <= i <= vs@.len(),
            out@ == old(out)@ + decl_lines_chars(vs@.take(i as int), k),
        decreases vs@.len() - i,
    {
        if vs[i].kind == k {
            push_str_chars(out, "  ");
            push_str_chars(out, vs[i].name.as_str());
            push_str_chars(out, "\n");
        }
        proof {
            assert(vs@.take(i as int + 1).drop_last() =~= vs@.take(i as int));
            assert(vs@.take(i as int + 1).last() == vs@[i as int]);
            assert(out@ =~= old(out)@ + decl_lines_chars(vs@.take(i as int + 1), k));
        }
        i += 1;
    }
    proof {
        assert(vs@.take(vs@.len() as int) =~= vs@);
    }
}

/// Appends every constraint line, numbered from one.
#[verifier::loop_isolation(false)]
#[verifier::rlimit(100)]
fn push_cons_lines(out: &mut Vec<char>, cs: &Vec<Constraint>)
    ensures
        final(out)@ == old(out)@ + cons_lines_chars(cs@),
{
    let mut i: usize = 0;
    proof {
        assert(cs@.take(0) =~= Seq::<Constraint>::empty());
        assert(out@ =~= old(out)@ + cons_lines_chars(cs@.take(0)));
    }
    while i < cs.len()
        invariant
            0 <= i <= cs@.len(),
            out@ == old(out)@ + cons_lines_chars(cs@.take(i as int)),
        decreases cs@.len() - i,
    {
        let ghost linestart = out@;
        push_str_chars(out, "  c");
        push_udigits(out, (i as u64) + 1);
        push_str_chars(out, ": ");
        push_terms(out, &cs[i].left.terms);
        push_str_chars(out, " ");
        push_op(out, cs[i].op);
        push_str_chars(out, " ");
        push_num_chars(out, cs[i].rhs.units);
        push_str_chars(out, "\n");
        proof {
            assert(cs@.take(i as int + 1).drop_last() =~= cs@.take(i as int));
            assert(cs@.take(i as int + 1).last() == cs@[i as int]);
            assert(lf_pairs(cs@[i as int].left) == num_pairs(cs@[i as int].left.terms@));
            assert(out@ =~= linestart + cons_line_chars(cs@[i as int], (i + 1) as nat));
            assert(out@ =~= old(out)@ + cons_lines_chars(cs@.take(i as int + 1)));
        }
        i += 1;
    }
    proof {
        assert(cs@.take(cs@.len() as int) =~= cs@);
    }
}

impl Problem {
    /// The model text of this problem, as characters.
    #[verifier::rlimit(100)]
    pub fn to_lp_chars(&self) -> (r: Vec<char>)
        ensures
            r@ == spec_lp_text(*self),
    {
        let mut out: Vec<char> = Vec::new();
        push_str_chars(&mut out, "\\ ");
        push_str_chars(&mut out, self.name.as_str());
        push_str_chars(&mut out, "\n\n");
        match self.sense {
            Sense::Minimize => push_str_chars(&mut out, "Minimize"),
            Sense::Maximize => push_str_chars(&mut out, "Maximize"),
        }
        push_str_chars(&mut out, "\n");
        push_str_chars(&mut out, "  obj: ");
        push_obj(&mut out, &self.objective);
        push_str_chars(&mut out, "\n");
        let ghost head = out@;
        proof {
            assert(head =~= "\\ "@ + self.name@ + "\n\n"@ + sense_chars(self.sense) + "\n"@
                + "  obj: "@ + obj_chars(lf_pairs(self.objective), self.objective.constant@)
                + "\n"@);
        }
        if self.constraints.len() > 0 {
            push_str_chars(&mut out, "\nSubject To\n");
            push_cons_lines(&mut out, &self.constraints);
        }
        let ghost conspart = if self.constraints@.len() == 0 {
            Seq::<char>::empty()
        } else {
            "\nSubject To\n"@ + cons_lines_chars(self.constraints@)
        };
        proof {
            assert(out@ =~= head + conspart);
        }
        let ghost afters = out@;
        if any_kind(&self.variables, VarKind::Integer) {
            push_str_chars(&mut out, "\nGenerals\n");
            push_decls(&mut out, &self.variables, VarKind::Integer);
        }
        let ghost genpart = if has_kind(self.variables@, VarKind::Integer) {
            "\nGenerals\n"@ + decl_lines_chars(self.variables@, VarKind::Integer)
        } else {
            Seq::<char>::empty()
        };
        proof {
            assert(out@ =~= afters + genpart);
        }
        let ghost afterg = out@;
        if any_kind(&self.variables, VarKind::Binary) {
            push_str_chars(&mut out, "\nBinaries\n");
            push_decls(&mut out, &self.variables, VarKind::Binary);
        }
        let ghost binpart = if has_kind(self.variables@, VarKind::Binary) {
            "\nBinaries\n"@ + decl_lines_chars(self.variables@, VarKind::Binary)
        } else {
            Seq::<char>::empty()
        };
        proof {
            assert(out@ =~= afterg + binpart);
            assert(out@ =~= head + conspart + genpart + binpart);
            assert(out@ =~= spec_lp_text(*self));
        }
        out
    }

    /// The model text of this problem.  The text is a function of the
    /// problem value alone: writing the same problem twice yields
    /// byte-identical text.
    pub fn to_lp_string(&self) -> (r: String)
        ensures
            r@ == spec_lp_text(*self),
    {
        let chars = self.to_lp_chars();
        chars_to_string(&chars)
    }
}

} // verus!
