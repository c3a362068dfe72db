use cnfgen::dimacs::CnfBuilder;

fn assignment(n: usize, mask: u64) -> Vec<bool> {
    (0..n).map(|i| (mask >> i) & 1 == 1).collect()
}

#[test]
fn variable_ids_stable_and_increasing() {
    let mut b = CnfBuilder::new();
    let x = b.variable("x".to_string());
    let y = b.variable("y".to_string());
    let z = b.variable("z".to_string());
    assert_eq!(x.id, 1);
    assert_eq!(y.id, 2);
    assert_eq!(z.id, 3);
    let x2 = b.variable("x".to_string());
    assert_eq!(x2.id, 1);
    assert_eq!(x2.name, "x");
    let y2 = b.variable("y".to_string());
    assert_eq!(y2.id, 2);
    assert_eq!(b.clause_count(), 0);
}

#[test]
fn variable_literals() {
    let mut b = CnfBuilder::new();
    let x = b.variable("x".to_string());
    assert_eq!(x.positive(), 1);
    assert_eq!(x.negative(), -1);
}

#[test]
fn variables_range_names_and_ids() {
    let mut b = CnfBuilder::new();
    let vs = b.variables("card", 0..3);
    assert_eq!(vs.len(), 3);
    assert_eq!(vs[0].name, "card0");
    assert_eq!(vs[1].name, "card1");
    assert_eq!(vs[2].name, "card2");
    assert_eq!(vs[0].id, 1);
    assert_eq!(vs[1].id, 2);
    assert_eq!(vs[2].id, 3);
    let again = b.variables("card", 0..3);
    assert_eq!(again[0].id, 1);
    assert_eq!(again[2].id, 3);
    let empty = b.variables("card", 3..3);
    assert!(empty.is_empty());
}

#[test]
fn tmp_variable_draws_from_same_counter() {
    let mut b = CnfBuilder::new();
    let x = b.variable("x".to_string());
    let t = b.get_tmp_variable();
    assert_eq!(x.id, 1);
    assert_eq!(t.id, 2);
    assert_eq!(t.name, "tmp2");
    let u = b.get_tmp_variable();
    assert_eq!(u.id, 3);
    assert_eq!(u.name, "tmp3");
}

#[test]
fn clause_appends_verbatim() {
    let mut b = CnfBuilder::new();
    let vs = b.variables("v", 0..2);
    b.clause(&[vs[0].positive(), vs[1].negative()]);
    b.clause(&[]);
    let clauses = b.get_clauses();
    assert_eq!(clauses, vec![vec![1, -2], vec![]]);
    assert_eq!(b.clause_count(), 2);
}

#[test]
fn add_clauses_batch_extends_in_order() {
    let mut b = CnfBuilder::with_capacity(4);
    b.clause(&[1]);
    b.add_clauses_batch(vec![vec![2, 3], vec![-1]]);
    assert_eq!(b.get_clauses(), vec![vec![1], vec![2, 3], vec![-1]]);
}

#[test]
fn at_least_zero_adds_no_clauses() {
    let mut b = CnfBuilder::new();
    let vs = b.variables("v", 0..7);
    b.at_least_k_true(0, &vs);
    assert_eq!(b.clause_count(), 0);
    let mut b2 = CnfBuilder::new();
    let none = b2.variables("w", 0..0);
    b2.at_least_k_true(0, &none);
    assert_eq!(b2.clause_count(), 0);
}

#[test]
fn at_least_impossible_appends_empty_clause() {
    let mut b = CnfBuilder::new();
    let vs = b.variables("v", 0..2);
    b.at_least_k_true(3, &vs);
    let clauses = b.get_clauses();
    assert_eq!(clauses, vec![Vec::<i32>::new()]);
    for mask in 0u64..4 {
        let asg = assignment(2, mask);
        assert!(!cnfgen::sat::formula_satisfied(&asg, &clauses));
    }
}

#[test]
fn at_most_vacuous_when_k_reaches_len() {
    let mut b = CnfBuilder::new();
    let vs = b.variables("v", 0..3);
    b.at_most_k_true(3, &vs);
    b.at_most_k_true(5, &vs);
    assert_eq!(b.clause_count(), 0);
}

#[test]
fn exactly_one_of_three_scenario() {
    let mut b = CnfBuilder::new();
    let vs = b.variables("x", 0..3);
    b.exactly_k_true(1, &vs);
    let mut clauses = b.get_clauses();
    assert_eq!(clauses.len(), 4);
    clauses.sort();
    let mut expected = vec![vec![1, 2, 3], vec![-1, -2], vec![-1, -3], vec![-2, -3]];
    expected.sort();
    assert_eq!(clauses, expected);
}

#[test]
fn cardinality_brute_force_small() {
    let n = 6usize;
    for k in 0..=n {
        let mut b = CnfBuilder::new();
        let vs = b.variables("v", 0..(n as i32));
        b.at_least_k_true(k, &vs);
        b.at_most_k_true(k, &vs);
        let clauses = b.get_clauses();
        for mask in 0u64..(1 << n) {
            let asg = assignment(n, mask);
            let sat = cnfgen::sat::formula_satisfied(&asg, &clauses);
            let ones = mask.count_ones() as usize;
            assert_eq!(sat, ones == k, "n={} k={} mask={:b}", n, k, mask);
        }
    }
}

#[test]
fn exactly_one_accepts_only_one_hot() {
    let n = 5usize;
    let mut b = CnfBuilder::new();
    let vs = b.variables("v", 0..(n as i32));
    b.exactly_one_true(&vs);
    let clauses = b.get_clauses();
    for mask in 0u64..(1 << n) {
        let asg = assignment(n, mask);
        let sat = cnfgen::sat::formula_satisfied(&asg, &clauses);
        assert_eq!(sat, mask.count_ones() == 1);
    }
}

#[test]
fn five_of_forty_scenario() {
    let mut b = CnfBuilder::new();
    let vs = b.variables("v", 0..40);
    b.at_least_k_true(5, &vs);
    b.at_most_k_true(5, &vs);
    let clauses = b.get_clauses();
    drop(b);
    let five_low = assignment(40, 0b11111);
    assert!(cnfgen::sat::formula_satisfied(&five_low, &clauses));
    let five_scattered = assignment(40, (1 << 0) | (1 << 9) | (1 << 17) | (1 << 25) | (1 << 39));
    assert!(cnfgen::sat::formula_satisfied(&five_scattered, &clauses));
    let four = assignment(40, 0b1111);
    assert!(!cnfgen::sat::formula_satisfied(&four, &clauses));
    let six = assignment(40, 0b111111);
    assert!(!cnfgen::sat::formula_satisfied(&six, &clauses));
}

#[test]
fn dimacs_text_exact() {
    let mut b = CnfBuilder::new();
    let a = b.variable("a".to_string());
    let c = b.variable("b".to_string());
    b.clause(&[a.positive(), c.negative()]);
    b.clause(&[c.positive()]);
    let text = b.to_dimacs();
    assert_eq!(text, "p cnf 2 2\nc a: 1\nc b: 2\n1 -2 0\n2 0\n");
}

#[test]
fn dimacs_header_counts_and_terminators() {
    let mut b = CnfBuilder::new();
    let vs = b.variables("x", 0..4);
    b.exactly_one_true(&vs);
    let t = b.get_tmp_variable();
    assert_eq!(t.id, 5);
    let text = b.to_dimacs();
    let lines: Vec<&str> = text.lines().collect();
    assert_eq!(lines[0], format!("p cnf 5 {}", b.clause_count()));
    let comment_count = lines.iter().filter(|l| l.starts_with("c ")).count();
    assert_eq!(comment_count, 4);
    let clause_lines: Vec<&&str> = lines
        .iter()
        .filter(|l| !l.starts_with("c ") && !l.starts_with("p "))
        .collect();
    assert_eq!(clause_lines.len(), b.clause_count());
    for line in clause_lines {
        assert!(line.ends_with(" 0") || **line == *"0");
    }
}

#[test]
fn serialization_reflects_growing_state() {
    let mut b = CnfBuilder::new();
    let vs = b.variables("q", 0..2);
    let first = b.to_dimacs();
    assert_eq!(first, "p cnf 2 0\nc q0: 1\nc q1: 2\n");
    b.clause(&[vs[0].negative(), vs[1].positive()]);
    let second = b.to_dimacs();
    assert_eq!(second, "p cnf 2 1\nc q0: 1\nc q1: 2\n-1 2 0\n");
}

#[test]
fn at_least_clause_family_exact() {
    let mut b = CnfBuilder::new();
    let vs = b.variables("v", 0..3);
    b.at_least_k_true(2, &vs);
    let clauses = b.get_clauses();
    assert_eq!(
        clauses,
        vec![vec![1, 2, 3], vec![-1, 2, 3], vec![-2, 1, 3], vec![-3, 1, 2]]
    );
}

#[test]
fn tmp_ids_never_collide_with_named_variables() {
    let mut b = CnfBuilder::new();
    let named = b.variable("tmp3".to_string());
    assert_eq!(named.id, 1);
    let x = b.variable("x".to_string());
    assert_eq!(x.id, 2);
    let t = b.get_tmp_variable();
    assert_eq!(t.id, 3);
    assert_ne!(t.id, named.id);
    let u = b.get_tmp_variable();
    assert_eq!(u.id, 4);
    let named_again = b.variable("tmp3".to_string());
    assert_eq!(named_again.id, 1);
    let later = b.variable("y".to_string());
    assert_eq!(later.id, 5);
}
