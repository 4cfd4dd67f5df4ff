use solver::format::polynomial_chars;
use solver::{extract_coefficients, reduce, reduced_form, remove_whitespace, split_equation};
use solver::{Decimal, EquationError, Polynomial, Side, TermPosition};

fn poly(side: &str) -> Polynomial {
    extract_coefficients(side).unwrap()
}

fn listing(p: &Polynomial) -> Vec<(u64, String)> {
    p.powers().into_iter().map(|k| (k, p.coefficient(k).unwrap().to_text())).collect()
}

#[test]
fn the_canonical_form_lists_terms_by_ascending_power() {
    assert_eq!(reduced_form(&poly("-9.3*X^2+4*X^1+4*X^0")), "4*X^0 + 4*X^1 - 9.3*X^2 = 0");
    assert_eq!(reduced_form(&poly("1*X^10+1*X^9")), "1*X^9 + 1*X^10 = 0");
}

#[test]
fn a_negative_first_term_keeps_its_sign() {
    assert_eq!(reduced_form(&poly("-9.3*X^2")), "- 9.3*X^2 = 0");
    assert_eq!(reduced_form(&poly("-1*X^0-2*X^1")), "- 1*X^0 - 2*X^1 = 0");
    assert_eq!(reduced_form(&poly("-0*X^0")), "- 0*X^0 = 0");
}

#[test]
fn the_canonical_form_of_the_empty_polynomial_has_no_term() {
    assert_eq!(reduced_form(&Polynomial::new()), " = 0");
}

#[test]
fn powers_are_written_in_full() {
    assert_eq!(reduced_form(&poly("1*X^0")), "1*X^0 = 0");
    assert_eq!(reduced_form(&poly("1*X^007")), "1*X^7 = 0");
    assert_eq!(reduced_form(&poly("1*X^10")), "1*X^10 = 0");
    assert_eq!(reduced_form(&poly("1*X^1234567890")), "1*X^1234567890 = 0");
    assert_eq!(
        reduced_form(&poly("2.5*X^18446744073709551615")),
        "2.5*X^18446744073709551615 = 0"
    );
}

#[test]
fn the_terms_alone_are_the_canonical_form_without_its_end() {
    let text: String = polynomial_chars(&poly("1*X^1-2.50*X^0")).into_iter().collect();
    assert_eq!(text, "- 2.50*X^0 + 1*X^1");
}

#[test]
fn the_left_side_of_a_canonical_form_parses_to_the_same_polynomial() {
    let mut hundredths: Vec<Decimal> = Vec::new();
    for negative in [false, true] {
        for digits in [vec![0], vec![7], vec![1, 2], vec![0, 5], vec![3, 0, 4], vec![9, 9, 9, 9]] {
            for scale in 0..=2usize {
                if let Some(d) = Decimal::from_parts(negative, digits.clone(), scale) {
                    hundredths.push(d);
                }
            }
        }
    }
    assert_eq!(hundredths.len(), 24);
    let mut round = 0usize;
    for mask in 0u32..64 {
        let mut p = Polynomial::new();
        for power in 0u64..=5 {
            if mask & (1 << power) != 0 {
                let pick = &hundredths[(round * 7 + power as usize * 3) % hundredths.len()];
                assert!(p.insert(power, pick.clone()));
                round += 1;
            }
        }
        let mut text = reduced_form(&p);
        remove_whitespace(&mut text);
        let (left, right) = split_equation(&text).unwrap();
        assert_eq!(right, "0");
        let q = extract_coefficients(&left).unwrap();
        assert_eq!(listing(&q), listing(&p), "{:?}", text);
        for k in p.powers() {
            assert_eq!(q.coefficient(k).unwrap().digits(), p.coefficient(k).unwrap().digits());
            assert_eq!(q.coefficient(k).unwrap().scale(), p.coefficient(k).unwrap().scale());
        }
    }
}

#[test]
fn the_right_side_of_a_canonical_form_is_no_term() {
    let p = reduce(String::from("5*X^0+4*X^1-9.3*X^2=1*X^0")).unwrap();
    let mut text = reduced_form(&p);
    remove_whitespace(&mut text);
    assert_eq!(text, "4*X^0+4*X^1-9.3*X^2=0");
    assert_eq!(
        reduce(text).err(),
        Some(EquationError::MalformedTerm { side: Side::Right, position: TermPosition::First })
    );
}
