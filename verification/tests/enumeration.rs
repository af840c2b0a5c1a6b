use finfun::function::Error;
use finfun::function::Function;
use finfun::function::chain;

fn fun(tgt: usize, vals: Vec<usize>) -> Function {
    Function::from_vec(tgt, vals).unwrap()
}

#[test]
fn from_vec_rejects_out_of_range_values() {
    let r = Function::from_vec(2, vec![0, 2]);
    assert_eq!(r.unwrap_err(), Error::InvalidFunction);
    let r = Function::from_vec(0, vec![0]);
    assert_eq!(r.unwrap_err(), Error::InvalidFunction);
    assert!(Function::from_vec(1, vec![0, 0, 0]).is_ok());
}

#[test]
fn compose_rejects_mismatched_sizes() {
    let f = fun(2, vec![0, 1]);
    let g = fun(3, vec![0, 0, 0]);
    assert_eq!(f.compose(&g).unwrap_err(), Error::TypeMismatch);
    assert!(g.compose(&f).is_err());
}

#[test]
fn compose_concrete_scenario() {
    let f = fun(3, vec![0, 1, 1]);
    let g = fun(3, vec![1, 0, 2]);
    let h = f.compose(&g).unwrap();
    let expected = fun(3, vec![1, 0, 0]);
    assert!(h == expected);
}

#[test]
fn compose_is_associative_on_samples() {
    let f = fun(2, vec![1, 0, 1]);
    let g = fun(3, vec![2, 0]);
    let h = fun(4, vec![3, 1, 2]);
    let left = f.compose(&g).unwrap().compose(&h).unwrap();
    let right = f.compose(&g.compose(&h).unwrap()).unwrap();
    assert!(left == right);
    let all = chain(&vec![&f, &g, &h]);
    assert!(all == left);
}

#[test]
fn identity_is_neutral() {
    let f = fun(3, vec![2, 0]);
    let right = f.compose(&Function::id(3)).unwrap();
    assert!(right == f);
    let left = Function::id(2).compose(&f).unwrap();
    assert!(left == f);
}

#[test]
fn chain_of_one_returns_the_function() {
    let f = fun(5, vec![4, 0, 2]);
    let r = chain(&vec![&f]);
    assert!(r == f);
}

#[test]
fn enumeration_order_for_two_elements() {
    let fs = Function::functions(2, 2);
    assert_eq!(fs.len(), 4);
    assert!(fs[0] == fun(2, vec![0, 0]));
    assert!(fs[1] == fun(2, vec![1, 0]));
    assert!(fs[2] == fun(2, vec![0, 1]));
    assert!(fs[3] == fun(2, vec![1, 1]));
}

#[test]
fn stepping_matches_the_odometer() {
    let f = Function::new(2, 2);
    assert!(f == fun(2, vec![0, 0]));
    let f = f.next().unwrap();
    assert!(f == fun(2, vec![1, 0]));
    let f = f.next().unwrap();
    assert!(f == fun(2, vec![0, 1]));
    let f = f.next().unwrap();
    assert!(f == fun(2, vec![1, 1]));
    assert!(f.next().is_none());
}

#[test]
fn enumeration_counts_and_distinctness() {
    let fs = Function::functions(3, 2);
    assert_eq!(fs.len(), 8);
    for i in 0..fs.len() {
        for j in 0..fs.len() {
            if i != j {
                assert!(!(fs[i] == fs[j]));
            }
        }
    }
    assert_eq!(Function::functions(1, 3).len(), 3);
    assert_eq!(Function::functions(0, 2).len(), 1);
    assert_eq!(Function::functions(4, 1).len(), 1);
}

#[test]
fn identity_appears_exactly_once() {
    let fs = Function::functions(2, 2);
    let id = Function::id(2);
    let mut count: usize = 0;
    for f in fs.iter() {
        if *f == id {
            count += 1;
        }
    }
    assert_eq!(count, 1);
}

#[test]
fn accessors_report_sizes_and_values() {
    let f = fun(4, vec![3, 0, 1]);
    assert_eq!(f.src(), 3);
    assert_eq!(f.tgt(), 4);
    assert_eq!(f.vals().clone(), vec![3, 0, 1]);
    let g = f.clone();
    assert!(g == f);
}
