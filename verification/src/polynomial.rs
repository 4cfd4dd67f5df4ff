//! Sparse polynomials: powers with their recorded coefficients.

use std::collections::BTreeMap;
use vstd::prelude::*;
use vstd::std_specs::btree::spec_keys_iter;
use vstd::std_specs::cmp::OrdSpec;
use vstd::std_specs::iter::IteratorSpec;
use crate::decimal::{is_difference, zero_model, Decimal, DecimalModel};

verus! {

/// A sparse polynomial in one indeterminate: the powers that carry a
/// recorded coefficient, each with that coefficient. A power without an
/// entry has the coefficient zero.
pub type PolynomialModel = Map<u64, DecimalModel>;

/// Finitely many entries, each a well-formed numeral.
pub open spec fn polynomial_wf(p: PolynomialModel) -> bool {
    &&& p.dom().finite()
    &&& forall|k: u64| p.contains_key(k) ==> (#[trigger] p[k]).wf()
}

/// `s` lists the powers of `p` in ascending order, each once.
pub open spec fn lists_powers(s: Seq<u64>, p: PolynomialModel) -> bool {
    &&& forall|i: int, j: int| 0 <= i < j < s.len() ==> s[i] < s[j]
    &&& forall|k: u64| s.contains(k) <==> p.contains_key(k)
}

/// `d` is the degree of `p`: the highest power with an entry, whatever its
/// coefficient, or `None` where `p` has no entry at all.
pub open spec fn is_degree(d: Option<u64>, p: PolynomialModel) -> bool {
    match d {
        None => forall|k: u64| !p.contains_key(k),
        Some(d) => p.contains_key(d) && forall|k: u64| p.contains_key(k) ==> k <= d,
    }
}

/// `r` is `left − right`: it has an entry for each power that either side
/// has one for. A power of the left side alone keeps its coefficient, one of
/// the right side alone gets that coefficient negated, and one of both gets
/// the exact difference, also where that is zero.
pub open spec fn is_reduction(
    r: PolynomialModel,
    left: PolynomialModel,
    right: PolynomialModel,
) -> bool {
    &&& forall|k: u64| #[trigger]
        r.contains_key(k) <==> left.contains_key(k) || right.contains_key(k)
    &&& forall|k: u64|
        left.contains_key(k) && !right.contains_key(k) ==> #[trigger] r[k] == left[k]
    &&& forall|k: u64|
        !left.contains_key(k) && right.contains_key(k) ==> #[trigger] r[k] == right[k].negated()
    &&& forall|k: u64|
        left.contains_key(k) && right.contains_key(k) ==> is_difference(
            #[trigger] r[k],
            left[k],
            right[k],
        )
}

/// The coefficient of `power` in `p`: the recorded one, or zero where the
/// power has no entry.
pub open spec fn coefficient_of(p: PolynomialModel, power: u64) -> DecimalModel {
    if p.contains_key(power) {
        p[power]
    } else {
        zero_model()
    }
}

/// A sparse polynomial with exact decimal coefficients.
#[derive(Debug)]
pub struct Polynomial {
    terms: BTreeMap<u64, Decimal>,
}

impl View for Polynomial {
    type V = PolynomialModel;

    closed spec fn view(&self) -> PolynomialModel {
        self.terms@.map_values(|d: Decimal| d@)
    }
}

impl Clone for Polynomial {
    fn clone(&self) -> (r: Self)
        ensures
            r@ == self@,
    {
        let mut r = Polynomial::new();
        let powers = self.powers();
        let mut i: usize = 0;
        while i < powers.len()
            invariant
                i <= powers.len(),
                lists_powers(powers@, self@),
                forall|k: u64| #[trigger]
                    r@.contains_key(k) <==> powers@.take(i as int).contains(k),
                forall|k: u64| r@.contains_key(k) ==> #[trigger] r@[k] == self@[k],
            decreases powers.len() - i,
        {
            let k = powers[i];
            proof {
                assert(powers@.contains(k));
                assert(powers@.take(i + 1) =~= powers@.take(i as int).push(k));
                lemma_push_contains(powers@.take(i as int), k);
            }
            match self.coefficient(k) {
                Some(c) => {
                    r.insert(k, c.clone());
                },
                None => {},
            }
            i += 1;
        }
        assert(powers@.take(powers.len() as int) =~= powers@);
        assert(r@ =~= self@);
        r
    }
}

impl Polynomial {
    /// The coefficients of every polynomial of this type are well formed.
    #[verifier::type_invariant]
    pub open spec fn valid(&self) -> bool {
        polynomial_wf(self@)
    }

    /// The polynomial without entries.
    pub fn new() -> (p: Polynomial)
        ensures
            p@ == PolynomialModel::empty(),
    {
        let terms: BTreeMap<u64, Decimal> = BTreeMap::new();
        assert(terms@.map_values(|d: Decimal| d@) =~= PolynomialModel::empty());
        Polynomial { terms }
    }

    /// Whether `power` has an entry.
    pub fn contains(&self, power: u64) -> (r: bool)
        ensures
            r == self@.contains_key(power),
    {
        self.terms.contains_key(&power)
    }

    /// The recorded coefficient of `power`, if it has one.
    pub fn coefficient(&self, power: u64) -> (r: Option<&Decimal>)
        ensures
            r is Some <==> self@.contains_key(power),
            r matches Some(c) ==> c@ == self@[power],
    {
        self.terms.get(&power)
    }

    /// The coefficient of `power`: the recorded one, or zero where the power
    /// has no entry.
    pub fn coefficient_or_zero(&self, power: u64) -> (r: Decimal)
        ensures
            r@ == coefficient_of(self@, power),
    {
        match self.coefficient(power) {
            Some(c) => c.clone(),
            None => Decimal::zero(),
        }
    }

    /// Records `coefficient` for `power` if the power has no entry yet, and
    /// says whether it did so. An existing entry is left as it is.
    pub fn insert(&mut self, power: u64, coefficient: Decimal) -> (inserted: bool)
        ensures
            inserted == !old(self)@.contains_key(power),
            inserted ==> final(self)@ == old(self)@.insert(power, coefficient@),
            !inserted ==> final(self)@ == old(self)@,
    {
        proof {
            use_type_invariant(&*self);
            use_type_invariant(&coefficient);
        }
        if self.terms.contains_key(&power) {
            return false;
        }
        let mut taken = Polynomial::new();
        std::mem::swap(self, &mut taken);
        let Polynomial { mut terms } = taken;
        let ghost before = terms@;
        terms.insert(power, coefficient);
        proof {
            assert(terms@.map_values(|d: Decimal| d@) =~= before.map_values(|d: Decimal| d@).insert(
                power,
                coefficient@,
            ));
        }
        *self = Polynomial { terms };
        true
    }

    /// The powers with an entry, in ascending order.
    pub fn powers(&self) -> (r: Vec<u64>)
        ensures
            lists_powers(r@, self@),
    {
        let mut r: Vec<u64> = Vec::new();
        let keys = self.terms.keys();
        for k in it: keys
            invariant
                it.seq() == spec_keys_iter(&self.terms).remaining(),
                r.len() == it.index(),
                forall|j: int| 0 <= j < it.index() ==> r[j] == *it.seq()[j],
        {
            r.push(*k);
        }
        proof {
            let ks = spec_keys_iter(&self.terms).remaining();
            vstd::std_specs::btree::axiom_spec_keys_iter(&self.terms);
            broadcast use vstd::laws_cmp::group_laws_cmp;
            vstd::std_specs::btree::axiom_increasing_seq_meaning::<&u64>(ks);
            assert(r@ =~= ks.unref());
            assert forall|i: int, j: int| 0 <= i < j < r.len() implies r[i] < r[j] by {
                assert(OrdSpec::cmp_spec(&ks[i], &ks[j]) is Less);
            }
            assert forall|k: u64| r@.contains(k) <==> self@.contains_key(k) by {
                assert(ks.unref().to_set().contains(k) <==> self.terms@.dom().contains(k));
            }
        }
        r
    }

    /// The number of entries.
    pub fn len(&self) -> (n: usize)
        ensures
            n == self@.dom().len(),
    {
        broadcast use vstd::std_specs::btree::axiom_spec_btree_map_len;
        broadcast use vstd::laws_cmp::group_laws_cmp;

        let n = self.terms.len();
        proof {
            lemma_same_domain(self.terms@);
        }
        n
    }

    /// Whether the polynomial has no entry.
    pub fn is_empty(&self) -> (r: bool)
        ensures
            r == (forall|k: u64| !self@.contains_key(k)),
    {
        let r = self.terms.is_empty();
        proof {
            if r {
                assert forall|k: u64| !self@.contains_key(k) by {
                    assert(!self.terms@.dom().contains(k));
                }
            } else {
                assert(!(self.terms@.dom() =~= Set::empty()));
                let k = choose|k: u64| self.terms@.dom().contains(k);
                assert(self@.contains_key(k));
            }
        }
        r
    }

    /// The degree: the highest power with an entry, whatever its
    /// coefficient; `None` for the polynomial without entries.
    pub fn degree(&self) -> (d: Option<u64>)
        ensures
            is_degree(d, self@),
    {
        let powers = self.powers();
        let n = powers.len();
        if n == 0 {
            assert forall|k: u64| !self@.contains_key(k) by {
                assert(!powers@.contains(k));
            }
            None
        } else {
            let d = powers[n - 1];
            proof {
                assert(powers@.contains(d));
                assert forall|k: u64| self@.contains_key(k) implies k <= d by {
                    assert(powers@.contains(k));
                    let j = choose|j: int| 0 <= j < powers@.len() && powers@[j] == k;
                    assert(j < n - 1 ==> powers@[j] < powers@[n - 1]);
                }
            }
            Some(d)
        }
    }

    /// The polynomial `self − other`.
    pub fn subtract(&self, other: &Polynomial) -> (r: Polynomial)
        ensures
            is_reduction(r@, self@, other@),
    {
        let mut r = Polynomial::new();
        let left = self.powers();
        let mut i: usize = 0;
        while i < left.len()
            invariant
                i <= left.len(),
                lists_powers(left@, self@),
                forall|k: u64| #[trigger] r@.contains_key(k) <==> left@.take(i as int).contains(k),
                forall|k: u64|
                    r@.contains_key(k) && !other@.contains_key(k) ==> #[trigger] r@[k] == self@[k],
                forall|k: u64|
                    r@.contains_key(k) && other@.contains_key(k) ==> is_difference(
                        #[trigger] r@[k],
                        self@[k],
                        other@[k],
                    ),
            decreases left.len() - i,
        {
            let k = left[i];
            proof {
                assert(left@.contains(k));
                assert(left@.take(i + 1) =~= left@.take(i as int).push(k));
                if left@.take(i as int).contains(k) {
                    let j = choose|j: int| 0 <= j < i && left@.take(i as int)[j] == k;
                    assert(left@[j] < left@[i as int]);
                }
            }
            match self.coefficient(k) {
                Some(c) => {
                    let entry = match other.coefficient(k) {
                        Some(o) => c.subtract(o),
                        None => c.clone(),
                    };
                    r.insert(k, entry);
                    proof {
                        lemma_push_contains(left@.take(i as int), k);
                    }
                },
                None => {},
            }
            i += 1;
        }
        assert(left@.take(left.len() as int) =~= left@);
        let right = other.powers();
        let ghost half = r@;
        let mut j: usize = 0;
        while j < right.len()
            invariant
                j <= right.len(),
                lists_powers(right@, other@),
                forall|k: u64| #[trigger] half.contains_key(k) <==> self@.contains_key(k),
                forall|k: u64| #[trigger]
                    r@.contains_key(k) <==> self@.contains_key(k) || right@.take(j as int).contains(
                        k,
                    ),
                forall|k: u64| self@.contains_key(k) ==> #[trigger] r@[k] == half[k],
                forall|k: u64|
                    !self@.contains_key(k) && r@.contains_key(k) ==> #[trigger] r@[k]
                        == other@[k].negated(),
            decreases right.len() - j,
        {
            let k = right[j];
            proof {
                assert(right@.contains(k));
                assert(right@.take(j + 1) =~= right@.take(j as int).push(k));
            }
            if !self.contains(k) {
                match other.coefficient(k) {
                    Some(o) => {
                        r.insert(k, o.negate());
                    },
                    None => {},
                }
            }
            proof {
                lemma_push_contains(right@.take(j as int), k);
            }
            j += 1;
        }
        assert(right@.take(right.len() as int) =~= right@);
        r
    }
}

/// What a sequence holds after one more element was appended.
proof fn lemma_push_contains(s: Seq<u64>, k: u64)
    ensures
        forall|q: u64| #[trigger] s.push(k).contains(q) <==> s.contains(q) || q == k,
{
    let t = s.push(k);
    assert forall|q: u64| #[trigger] t.contains(q) <==> s.contains(q) || q == k by {
        if s.contains(q) {
            let j = choose|j: int| 0 <= j < s.len() && s[j] == q;
            assert(t[j] == q);
        }
        if q == k {
            assert(t[s.len() as int] == q);
        }
        if t.contains(q) {
            let j = choose|j: int| 0 <= j < t.len() && t[j] == q;
            if j < s.len() {
                assert(s[j] == q);
            }
        }
    }
}

/// The entries of a map and of its image under a function of the values
/// are equally many.
proof fn lemma_same_domain(m: Map<u64, Decimal>)
    ensures
        m.map_values(|d: Decimal| d@).dom() == m.dom(),
{
    assert(m.map_values(|d: Decimal| d@).dom() =~= m.dom());
}

} // verus!
