use lp_model::num::Num;
use lp_model::reader::{read_solution, ParseError, Status};
use lp_model::solver::{gurobi_status_from_console, GurobiSolver};

#[test]
fn parses_header_and_values() {
    let sol = read_solution("Stat\n a 1.0\n b 2.5\n", Status::Optimal).unwrap();
    assert_eq!(sol.status, Status::Optimal);
    assert_eq!(sol.values.len(), 2);
    assert_eq!(sol.values[0].0, "a");
    assert_eq!(sol.values[0].1, Num::from_units(1_000_000));
    assert_eq!(sol.values[1].0, "b");
    assert_eq!(sol.values[1].1, Num::from_units(2_500_000));
}

#[test]
fn three_tokens_fail_with_the_line() {
    let err = read_solution("h\na 1.0 extra\n", Status::Optimal).unwrap_err();
    match err {
        ParseError::MalformedSolutionLine(line) => assert_eq!(line, "a 1.0 extra"),
        other => panic!("expected a malformed-line error, got {:?}", other),
    }
}

#[test]
fn bad_number_fails_with_the_token() {
    let err = read_solution("h\n a notanumber\n", Status::Optimal).unwrap_err();
    match err {
        ParseError::InvalidNumber(token) => assert_eq!(token, "notanumber"),
        other => panic!("expected an invalid-number error, got {:?}", other),
    }
}

#[test]
fn comment_lines_are_skipped() {
    let sol = read_solution("solver 9.0\n# comment\n a 3\n", Status::SubOptimal).unwrap();
    assert_eq!(sol.status, Status::SubOptimal);
    assert_eq!(sol.values.len(), 1);
    assert_eq!(sol.values[0].0, "a");
    assert_eq!(sol.values[0].1, Num::from_units(3_000_000));
}

#[test]
fn empty_or_blank_header_fails() {
    assert_eq!(
        read_solution("", Status::Optimal).unwrap_err(),
        ParseError::MalformedSolutionHeader
    );
    assert_eq!(
        read_solution("   \n a 1\n", Status::Optimal).unwrap_err(),
        ParseError::MalformedSolutionHeader
    );
}

#[test]
fn header_alone_yields_empty_mapping() {
    let sol = read_solution("Stat\n", Status::NotSolved).unwrap();
    assert_eq!(sol.status, Status::NotSolved);
    assert!(sol.values.is_empty());
}

#[test]
fn later_value_overwrites_earlier() {
    let sol = read_solution("h\na 1\na 2\n", Status::Optimal).unwrap();
    assert_eq!(sol.values.len(), 1);
    assert_eq!(sol.values[0].1, Num::from_units(2_000_000));
}

#[test]
fn signs_fractions_and_edge_forms() {
    let sol = read_solution("h\nw -0.5\nx +.5\ny 5.\nz 0.1234567\n", Status::Optimal).unwrap();
    assert_eq!(sol.values[0].1, Num::from_units(-500_000));
    assert_eq!(sol.values[1].1, Num::from_units(500_000));
    assert_eq!(sol.values[2].1, Num::from_units(5_000_000));
    // fractional digits beyond the sixth are truncated
    assert_eq!(sol.values[3].1, Num::from_units(123_456));
}

#[test]
fn lone_dot_and_bare_exponents_are_rejected() {
    match read_solution("h\na .\n", Status::Optimal).unwrap_err() {
        ParseError::InvalidNumber(tok) => assert_eq!(tok, "."),
        other => panic!("unexpected {:?}", other),
    }
    match read_solution("h\na 1e\n", Status::Optimal).unwrap_err() {
        ParseError::InvalidNumber(tok) => assert_eq!(tok, "1e"),
        other => panic!("unexpected {:?}", other),
    }
    match read_solution("h\na 1e+\n", Status::Optimal).unwrap_err() {
        ParseError::InvalidNumber(tok) => assert_eq!(tok, "1e+"),
        other => panic!("unexpected {:?}", other),
    }
}

#[test]
fn exponent_forms_are_decoded() {
    let sol = read_solution(
        "h\nv 1e5\nw 1e-05\nx 2.5e2\ny -1.5E1\nz 1e-30\n",
        Status::Optimal,
    )
    .unwrap();
    assert_eq!(sol.values[0].1, Num::from_units(100_000_000_000));
    assert_eq!(sol.values[1].1, Num::from_units(10));
    assert_eq!(sol.values[2].1, Num::from_units(250_000_000));
    assert_eq!(sol.values[3].1, Num::from_units(-15_000_000));
    // far below the millionth grid the value truncates to zero
    assert_eq!(sol.values[4].1, Num::from_units(0));
}

#[test]
fn exponent_out_of_range_is_rejected() {
    match read_solution("h\na 1e30\n", Status::Optimal).unwrap_err() {
        ParseError::InvalidNumber(tok) => assert_eq!(tok, "1e30"),
        other => panic!("unexpected {:?}", other),
    }
}

#[test]
fn no_partial_mapping_on_failure() {
    // The bad line comes after a good one; the whole read still fails.
    let r = read_solution("h\na 1\nb oops\n", Status::Optimal);
    assert!(matches!(r, Err(ParseError::InvalidNumber(_))));
}

#[test]
fn console_status_classification() {
    assert_eq!(
        gurobi_status_from_console("... Optimal solution found ..."),
        Status::Optimal
    );
    assert_eq!(
        gurobi_status_from_console("Model is infeasible"),
        Status::Infeasible
    );
    assert_eq!(gurobi_status_from_console("nothing conclusive"), Status::SubOptimal);
}

#[test]
fn gurobi_solver_configuration() {
    let s = GurobiSolver::new();
    assert_eq!(s.name, "Gurobi");
    assert_eq!(s.command_name, "gurobi_cl");
    assert_eq!(s.temp_solution_file.len(), 40);
    assert!(s.temp_solution_file.ends_with(".sol"));
    assert_eq!(s.result_file_arg(), format!("ResultFile={}", s.temp_solution_file));
    let t = s.command_name("other_cmd".to_string());
    assert_eq!(t.command_name, "other_cmd");
    assert_eq!(t.temp_solution_file, s.temp_solution_file);
}
