//! Helpers for the external Gurobi command-line backend.
//!
//! Launching the solver process is I/O and lives outside the library;
//! everything the invocation needs that is pure computation is here: the
//! backend's configuration with a fresh temporary solution file name,
//! the argument text, and the classification of the solver's console
//! transcript into a [`Status`].

use vstd::prelude::*;
use crate::problem::fresh_uuid_string;
use crate::reader::Status;
use crate::text::contains_seq;
use crate::text::contains_chars;
use crate::text::str_to_chars;
use vstd::string::StringExecFns;

verus! {

/// Configuration of the Gurobi command-line backend: a display name,
/// the command to run, and the temporary solution file it is told to
/// write.
#[derive(Debug)]
pub struct GurobiSolver {
    pub name: String,
    pub command_name: String,
    pub temp_solution_file: String,
}

impl GurobiSolver {
    /// A fresh configuration: the `gurobi_cl` command and a fresh
    /// `.sol` temporary file name.
    pub fn new() -> (r: GurobiSolver)
        ensures
            r.name@ == "Gurobi"@,
            r.command_name@ == "gurobi_cl"@,
            r.temp_solution_file@.len() == 40,
            r.temp_solution_file@.skip(36) == ".sol"@,
    {
        let u = fresh_uuid_string();
        let mut f = u;
        f.append(".sol");
        proof {
            reveal_strlit(".sol");
            assert(f@.skip(36) =~= ".sol"@);
        }
        GurobiSolver {
            name: String::from_str("Gurobi"),
            command_name: String::from_str("gurobi_cl"),
            temp_solution_file: f,
        }
    }

    /// The same backend under another command name.
    pub fn command_name(&self, command_name: String) -> (r: GurobiSolver)
        ensures
            r.name == self.name,
            r.command_name == command_name,
            r.temp_solution_file == self.temp_solution_file,
    {
        GurobiSolver {
            name: self.name.clone(),
            command_name,
            temp_solution_file: self.temp_solution_file.clone(),
        }
    }

    /// The `ResultFile=` argument handed to the command.
    pub fn result_file_arg(&self) -> (r: String)
        ensures
            r@ == "ResultFile="@ + self.temp_solution_file@,
    {
        let mut s = String::from_str("ResultFile=");
        s.append(self.temp_solution_file.as_str());
        s
    }
}

/// The status a Gurobi console transcript announces: optimal when it
/// reports an optimal solution, else infeasible when it says so, else
/// suboptimal.
pub open spec fn spec_console_status(out: Seq<char>) -> Status {
    if contains_seq(out, "Optimal solution found"@) {
        Status::Optimal
    } else if contains_seq(out, "infeasible"@) {
        Status::Infeasible
    } else {
        Status::SubOptimal
    }
}

/// Classifies a Gurobi console transcript.
pub fn gurobi_status_from_console(out: &str) -> (r: Status)
    ensures
        r == spec_console_status(out@),
{
    let h = str_to_chars(out);
    let n1 = str_to_chars("Optimal solution found");
    if contains_chars(&h, &n1) {
        return Status::Optimal;
    }
    let n2 = str_to_chars("infeasible");
    if contains_chars(&h, &n2) {
        return Status::Infeasible;
    }
    Status::SubOptimal
}

} // verus!
