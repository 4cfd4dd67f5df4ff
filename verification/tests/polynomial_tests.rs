use solver::extract_coefficients;
use solver::{Decimal, Polynomial};

fn poly(side: &str) -> Polynomial {
    extract_coefficients(side).unwrap()
}

fn listing(p: &Polynomial) -> Vec<(u64, String)> {
    p.powers().into_iter().map(|k| (k, p.coefficient(k).unwrap().to_text())).collect()
}

fn item(power: u64, text: &str) -> (u64, String) {
    (power, String::from(text))
}

#[test]
fn a_new_polynomial_has_no_entry() {
    let p = Polynomial::new();
    assert!(p.is_empty());
    assert_eq!(p.len(), 0);
    assert_eq!(p.degree(), None);
    assert_eq!(p.powers(), Vec::<u64>::new());
    assert!(!p.contains(0));
    assert!(p.coefficient(0).is_none());
    assert_eq!(p.coefficient_or_zero(0).to_text(), "0");
}

#[test]
fn insert_records_a_power_once() {
    let mut p = Polynomial::new();
    assert!(p.insert(2, Decimal::from_parts(false, vec![7], 0).unwrap()));
    assert!(p.insert(0, Decimal::from_parts(true, vec![1, 5], 1).unwrap()));
    assert!(!p.insert(2, Decimal::from_parts(false, vec![9], 0).unwrap()));
    assert_eq!(listing(&p), vec![item(0, "-1.5"), item(2, "7")]);
    assert_eq!(p.len(), 2);
    assert!(!p.is_empty());
    assert!(p.contains(2));
    assert!(!p.contains(1));
    assert_eq!(p.coefficient(2).unwrap().to_text(), "7");
    assert_eq!(p.coefficient_or_zero(1).to_text(), "0");
    assert_eq!(p.coefficient_or_zero(0).to_text(), "-1.5");
}

#[test]
fn powers_ascend() {
    let p = poly("1*X^9+1*X^0+1*X^18446744073709551615+1*X^3+1*X^10");
    assert_eq!(p.powers(), vec![0, 3, 9, 10, u64::MAX]);
}

#[test]
fn degree_is_the_highest_power_even_with_a_zero_coefficient() {
    assert_eq!(poly("1*X^0").degree(), Some(0));
    assert_eq!(poly("0*X^0").degree(), Some(0));
    assert_eq!(poly("1*X^0+0*X^5").degree(), Some(5));
    assert_eq!(poly("3*X^2+1*X^1").degree(), Some(2));
    assert_eq!(poly("1*X^18446744073709551615").degree(), Some(u64::MAX));
}

#[test]
fn subtract_merges_the_powers_of_both_sides() {
    let r = poly("5*X^0+4*X^1-9.3*X^2").subtract(&poly("1*X^0"));
    assert_eq!(listing(&r), vec![item(0, "4"), item(1, "4"), item(2, "-9.3")]);
    let r = poly("1*X^0").subtract(&poly("2*X^1+3*X^5"));
    assert_eq!(listing(&r), vec![item(0, "1"), item(1, "-2"), item(5, "-3")]);
}

#[test]
fn subtract_keeps_entries_that_cancel() {
    let r = poly("8*X^0-6*X^1+0*X^2").subtract(&poly("3*X^0"));
    assert_eq!(listing(&r), vec![item(0, "5"), item(1, "-6"), item(2, "0")]);
    let r = poly("2*X^3").subtract(&poly("2*X^3"));
    assert_eq!(listing(&r), vec![item(3, "0")]);
    assert_eq!(r.degree(), Some(3));
}

#[test]
fn subtract_negates_what_only_the_right_side_has() {
    let r = Polynomial::new().subtract(&poly("0*X^0+1.5*X^1-2*X^2"));
    assert_eq!(listing(&r), vec![item(0, "-0"), item(1, "-1.5"), item(2, "2")]);
}

#[test]
fn subtract_of_empty_polynomials_is_empty() {
    let r = Polynomial::new().subtract(&Polynomial::new());
    assert!(r.is_empty());
    let r = poly("1*X^1").subtract(&Polynomial::new());
    assert_eq!(listing(&r), vec![item(1, "1")]);
}

#[test]
fn subtract_swapped_negates_every_coefficient() {
    let sides = ["", "1*X^0", "5*X^0+4*X^1-9.3*X^2", "0.25*X^1+7*X^4", "-3*X^2+0*X^0"];
    for a in sides.iter() {
        for b in sides.iter() {
            let forward = poly(a).subtract(&poly(b));
            let backward = poly(b).subtract(&poly(a));
            assert_eq!(forward.powers(), backward.powers());
            for k in forward.powers() {
                let f = forward.coefficient(k).unwrap();
                let g = backward.coefficient(k).unwrap();
                assert_eq!(f.scale(), g.scale());
                let x: f64 = f.to_text().parse().unwrap();
                let y: f64 = g.to_text().parse().unwrap();
                assert_eq!(x, -y, "{:?} {:?} {}", a, b, k);
            }
        }
    }
}

#[test]
fn clone_copies_every_entry() {
    let p = poly("5*X^0+4*X^1-9.30*X^2");
    let q = p.clone();
    assert_eq!(listing(&q), listing(&p));
    assert_eq!(listing(&q), vec![item(0, "5"), item(1, "4"), item(2, "-9.30")]);
    assert!(Polynomial::new().clone().is_empty());
}
