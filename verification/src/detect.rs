//! Pairwise overlap detection over a collection of subnets. Every unordered
//! pair of distinct declarations is checked exactly once, walking the
//! collection in index order; equal declarations are never paired with
//! themselves.

use vstd::prelude::*;

verus! {

use crate::subnet::{same_subnet, spec_collides, Subnet};

/// The outcome of checking one pair of subnets.
#[derive(Debug)]
pub struct PairReport {
    /// Position of the first subnet in the collection that was checked.
    pub first_index: usize,
    /// Position of the second subnet; always greater than `first_index`.
    pub second_index: usize,
    /// Declaration text of the first subnet.
    pub first: String,
    /// Declaration text of the second subnet.
    pub second: String,
    /// Whether the two subnets cover a common address.
    pub collided: bool,
}

/// The report for the pair at positions `i < j`.
pub open spec fn spec_report(s: Seq<Subnet>, i: int, j: int) -> PairReport {
    PairReport {
        first_index: i as usize,
        second_index: j as usize,
        first: s[i].subnet_str,
        second: s[j].subnet_str,
        collided: spec_collides(s[i], s[j]),
    }
}

/// Reports for the pairs `(i, j')` with `i < j' < j`, in ascending order
/// of the second position, skipping pairs of equal declarations.
pub open spec fn row_upto(s: Seq<Subnet>, i: int, j: int) -> Seq<PairReport>
    decreases j - i,
{
    if j <= i + 1 {
        Seq::empty()
    } else {
        row_upto(s, i, j - 1) + if !same_subnet(s[i], s[j - 1]) {
            seq![spec_report(s, i, j - 1)]
        } else {
            Seq::empty()
        }
    }
}

/// Reports for every pair whose first position is below `i`, rows in
/// ascending order of the first position.
pub open spec fn rows_upto(s: Seq<Subnet>, i: int) -> Seq<PairReport>
    decreases i,
{
    if i <= 0 {
        Seq::empty()
    } else {
        rows_upto(s, i - 1) + row_upto(s, i - 1, s.len() as int)
    }
}

/// Every checked pair of the collection: each unordered pair of positions
/// `i < j` holding distinct declarations, with its collision outcome.
pub open spec fn spec_reports(s: Seq<Subnet>) -> Seq<PairReport> {
    rows_upto(s, s.len() as int)
}

/// Checks every unordered pair of distinct subnet declarations for overlap
/// and reports each outcome. Pairs of value-equal declarations are skipped;
/// each remaining pair is visited exactly once, in index order.
pub fn detect_collisions(subnets: &Vec<Subnet>) -> (r: Vec<PairReport>)
    requires
        forall|k: int| 0 <= k < subnets@.len() ==> (#[trigger] subnets@[k]).enumerable(),
    ensures
        r@ == spec_reports(subnets@),
{
    let n = subnets.len();
    let mut reports: Vec<PairReport> = Vec::new();
    let mut i: usize = 0;
    while i < n
        invariant
            i <= n,
            n == subnets@.len(),
            forall|k: int| 0 <= k < subnets@.len() ==> (#[trigger] subnets@[k]).enumerable(),
            reports@ == rows_upto(subnets@, i as int),
        decreases n - i,
    {
        let mut j: usize = i + 1;
        proof {
            assert(reports@ + row_upto(subnets@, i as int, j as int) =~= reports@);
        }
        while j < n
            invariant
                i < j <= n,
                n == subnets@.len(),
                forall|k: int| 0 <= k < subnets@.len() ==> (#[trigger] subnets@[k]).enumerable(),
                reports@ == rows_upto(subnets@, i as int) + row_upto(
                    subnets@,
                    i as int,
                    j as int,
                ),
            decreases n - j,
        {
            let ghost old_reports = reports@;
            let first = &subnets[i];
            let second = &subnets[j];
            if !(*first == *second) {
                let collided = first.collision(second);
                let report = PairReport {
                    first_index: i,
                    second_index: j,
                    first: first.subnet_str.clone(),
                    second: second.subnet_str.clone(),
                    collided,
                };
                reports.push(report);
                proof {
                    assert(reports@ =~= old_reports + seq![
                        spec_report(subnets@, i as int, j as int),
                    ]);
                    assert(reports@ =~= rows_upto(subnets@, i as int) + row_upto(
                        subnets@,
                        i as int,
                        j as int + 1,
                    ));
                }
            } else {
                proof {
                    assert(reports@ =~= rows_upto(subnets@, i as int) + row_upto(
                        subnets@,
                        i as int,
                        j as int + 1,
                    ));
                }
            }
            j = j + 1;
        }
        proof {
            assert(rows_upto(subnets@, i as int + 1) == rows_upto(subnets@, i as int)
                + row_upto(subnets@, i as int, subnets@.len() as int));
        }
        i = i + 1;
    }
    proof {
        if n == 0 {
            assert(reports@ =~= spec_reports(subnets@));
        }
    }
    reports
}

/// A collection of fewer than two subnets yields no pair at all.
pub proof fn lemma_no_pairs_when_small(s: Seq<Subnet>)
    requires
        s.len() <= 1,
    ensures
        spec_reports(s) == Seq::<PairReport>::empty(),
{
    if s.len() == 1 {
        assert(rows_upto(s, 0) == Seq::<PairReport>::empty());
        assert(row_upto(s, 0, 1) == Seq::<PairReport>::empty());
        assert(spec_reports(s) =~= Seq::<PairReport>::empty());
    } else {
        assert(spec_reports(s) =~= Seq::<PairReport>::empty());
    }
}

} // verus!
