use cnfgen::dimacs::CnfBuilder;
use cnfgen::num_comp::NumComp;

#[test]
fn fresh_model_serializes_empty_formula() {
    let m = NumComp::new();
    assert_eq!(m.to_dimacs(), "p cnf 0 0\n");
}

#[test]
fn gadget_a_and_b_implies_c_and_not_d() {
    let mut cnf = CnfBuilder::new();
    let vs = cnf.variables("g", 0..4);
    NumComp::gen_dimacs_a_and_b_implies_c_and_not_d(&mut cnf, &vs[0], &vs[1], &vs[2], &vs[3]);
    let clauses = cnf.get_clauses();
    let t = 5;
    assert_eq!(
        clauses,
        vec![
            vec![-1, -2, t],
            vec![-t, 3],
            vec![-t, -4],
            vec![-3, 4, t],
        ]
    );
}

#[test]
fn gadget_a_and_b_implies_not_c_and_not_d() {
    let mut cnf = CnfBuilder::new();
    let vs = cnf.variables("g", 0..4);
    NumComp::gen_dimacs_a_and_b_implies_not_c_and_not_d(&mut cnf, &vs[0], &vs[1], &vs[2], &vs[3]);
    let clauses = cnf.get_clauses();
    let t = 5;
    assert_eq!(
        clauses,
        vec![
            vec![-1, -2, t],
            vec![-t, -3],
            vec![-t, -4],
            vec![3, 4, t],
        ]
    );
}

#[test]
fn gadget_allocates_fresh_auxiliary() {
    let mut cnf = CnfBuilder::new();
    let vs = cnf.variables("g", 0..4);
    NumComp::gen_dimacs_a_and_b_implies_c_and_not_d(&mut cnf, &vs[0], &vs[1], &vs[2], &vs[3]);
    NumComp::gen_dimacs_a_and_b_implies_c_and_not_d(&mut cnf, &vs[0], &vs[1], &vs[2], &vs[3]);
    let clauses = cnf.get_clauses();
    assert_eq!(clauses[0], vec![-1, -2, 5]);
    assert_eq!(clauses[4], vec![-1, -2, 6]);
    let text = cnf.to_dimacs();
    assert!(text.starts_with("p cnf 6 8\n"));
    assert!(!text.contains("c tmp"));
    assert_eq!(text.lines().filter(|l| l.starts_with("c ")).count(), 4);
}

#[test]
fn card_filters_select_by_position_and_parity() {
    let mut cnf = CnfBuilder::new();
    let cards = cnf.variables("card", 0..9);
    let under_odd = NumComp::get_cards_under_k(&cards, 5, true);
    let under_ids: Vec<i32> = under_odd.iter().map(|v| v.id).collect();
    assert_eq!(under_ids, vec![1, 3]);
    let under_even = NumComp::get_cards_under_k(&cards, 5, false);
    let under_even_ids: Vec<i32> = under_even.iter().map(|v| v.id).collect();
    assert_eq!(under_even_ids, vec![2, 4]);
    let over_odd = NumComp::get_cards_over_k(&cards, 5, true);
    let over_ids: Vec<i32> = over_odd.iter().map(|v| v.id).collect();
    assert_eq!(over_ids, vec![7, 9]);
    let over_even = NumComp::get_cards_over_k(&cards, 5, false);
    let over_even_ids: Vec<i32> = over_even.iter().map(|v| v.id).collect();
    assert_eq!(over_even_ids, vec![6, 8]);
}
