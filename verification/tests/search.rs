use finfun::dinatural::Dinatural;
use finfun::dinatural::dinaturals;
use finfun::dinatural::dinaturals_for_squares;
use finfun::function::Function;
use finfun::function::chain;
use finfun::square::CommutativeSquare;
use finfun::square::commutative_squares;

#[test]
fn square_factory_checks_commutativity() {
    let id = Function::id(2);
    let swap = Function::from_vec(2, vec![1, 0]).unwrap();
    let ok = CommutativeSquare::new(id.clone(), id.clone(), id.clone(), id.clone());
    assert!(ok.is_some());
    let bad = CommutativeSquare::new(id.clone(), id.clone(), id.clone(), swap.clone());
    assert!(bad.is_none());
    let twisted = CommutativeSquare::new(swap.clone(), swap.clone(), id.clone(), id.clone());
    assert!(twisted.is_some());
}

#[test]
fn search_on_a_one_element_set_is_trivial() {
    let (total, squares) = commutative_squares(1);
    assert_eq!(total, 1);
    assert_eq!(squares.len(), 1);
    assert!(squares[0].up_left() == &Function::id(1));
    let ds = dinaturals(1, &squares);
    assert_eq!(ds.len(), 1);
    assert!(ds[0].family0() == &Function::id(1));
}

#[test]
fn square_search_examines_all_combinations_for_two_elements() {
    let (total, squares) = commutative_squares(2);
    assert_eq!(total, 256);
    assert_eq!(squares.len(), 80);
}

#[test]
fn every_retained_square_commutes() {
    let (_, squares) = commutative_squares(2);
    for s in squares.iter() {
        let up = chain(&vec![s.up_left(), s.up_right()]);
        let down = chain(&vec![s.down_left(), s.down_right()]);
        assert!(up == down);
    }
}

#[test]
fn rejected_quadruples_do_not_commute() {
    let fs = Function::functions(2, 2);
    let mut retained: usize = 0;
    for a in fs.iter() {
        for b in fs.iter() {
            for c in fs.iter() {
                for d in fs.iter() {
                    let up = chain(&vec![a, b]);
                    let down = chain(&vec![c, d]);
                    let commutes = up == down;
                    let square =
                        CommutativeSquare::new(a.clone(), b.clone(), c.clone(), d.clone());
                    assert_eq!(square.is_some(), commutes);
                    if square.is_some() {
                        retained += 1;
                    }
                }
            }
        }
    }
    assert_eq!(retained, 80);
}

#[test]
fn dinatural_factory_checks_the_six_term_equality() {
    let (_, squares) = commutative_squares(2);
    let s1 = &squares[0];
    let s2 = &squares[1];
    let mut retained: usize = 0;
    for e in Function::functions(2, 2).iter() {
        let up = chain(&vec![s1.up_left(), e, s2.up_right()]);
        let down = chain(&vec![s1.down_left(), e, s2.down_right()]);
        let holds = up == down;
        let d = Dinatural::new([e.clone(), e.clone()], s1, s2);
        assert_eq!(d.is_some(), holds);
        if d.is_some() {
            retained += 1;
        }
    }
    assert_eq!(retained, dinaturals_for_squares(2, s1, s2).len());
}

#[test]
fn dinatural_candidate_count_per_pair_is_bounded() {
    let (_, squares) = commutative_squares(2);
    for i in 0..3 {
        for j in 0..3 {
            let ds = dinaturals_for_squares(2, &squares[i], &squares[j]);
            assert!(ds.len() <= 4);
        }
    }
}

#[test]
fn theoretical_dinatural_count_across_all_pairs() {
    let (_, squares) = commutative_squares(2);
    let per_pair: usize = 4;
    let theoretical = squares.len() * squares.len() * per_pair;
    assert_eq!(theoretical, 25600);
    let ds = dinaturals(2, &squares);
    assert!(ds.len() <= theoretical);
    assert!(ds.len() > 0);
}

#[test]
fn hexagon_check_agrees_with_explicit_chains() {
    let (_, squares) = commutative_squares(2);
    let mut seen_true = false;
    for i in 0..4 {
        for j in 0..4 {
            for k in 0..4 {
                let ds1 = dinaturals_for_squares(2, &squares[i], &squares[j]);
                let ds2 = dinaturals_for_squares(2, &squares[j], &squares[k]);
                for d1 in ds1.iter() {
                    for d2 in ds2.iter() {
                        let up = chain(&d1.hexagon_up_other(d2));
                        let down = chain(&d1.hexagon_down_other(d2));
                        let expected = up == down;
                        assert_eq!(d1.composes_with(d2), expected);
                        if expected {
                            seen_true = true;
                        }
                    }
                }
            }
        }
    }
    assert!(seen_true);
}

#[test]
fn hexagon_chain_lists_hold_the_outer_legs_and_families() {
    let (_, squares) = commutative_squares(2);
    let ds1 = dinaturals_for_squares(2, &squares[0], &squares[1]);
    let ds2 = dinaturals_for_squares(2, &squares[1], &squares[2]);
    assert!(ds1.len() > 0 && ds2.len() > 0);
    let d1 = &ds1[0];
    let d2 = &ds2[0];
    let up = d1.hexagon_up_other(d2);
    assert_eq!(up.len(), 4);
    assert!(*up[0] == *d1.s1().up_left());
    assert!(*up[1] == *d1.family0());
    assert!(*up[2] == *d2.family0());
    assert!(*up[3] == *d2.s2().up_right());
    let down = d1.hexagon_down_other(d2);
    assert_eq!(down.len(), 4);
    assert!(*down[0] == *d1.s1().down_left());
    assert!(*down[1] == *d1.family1());
    assert!(*down[2] == *d2.family1());
    assert!(*down[3] == *d2.s2().down_right());
}

#[test]
fn rerunning_the_search_is_deterministic() {
    let (total1, squares1) = commutative_squares(2);
    let (total2, squares2) = commutative_squares(2);
    assert_eq!(total1, total2);
    assert_eq!(squares1.len(), squares2.len());
    for (a, b) in squares1.iter().zip(squares2.iter()) {
        assert!(a.up_left() == b.up_left());
        assert!(a.up_right() == b.up_right());
        assert!(a.down_left() == b.down_left());
        assert!(a.down_right() == b.down_right());
    }
    let ds1 = dinaturals(2, &squares1);
    let ds2 = dinaturals(2, &squares2);
    assert_eq!(ds1.len(), ds2.len());
    for (a, b) in ds1.iter().zip(ds2.iter()) {
        assert!(a.family0() == b.family0());
        assert!(a.family1() == b.family1());
    }
}
