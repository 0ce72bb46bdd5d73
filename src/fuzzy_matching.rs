//! String distances counted in grapheme clusters: the metric contract the
//! index relies on, and its Levenshtein and optimal string alignment forms.
use crate::edit_distance::{
    ends_transposed, lemma_levenshtein_self, lemma_levenshtein_symmetric, lemma_levenshtein_triangle,
    lemma_levenshtein_zero, lemma_osa_self, lemma_osa_symmetric, lemma_osa_upper_bound, lemma_osa_zero,
    levenshtein, osa,
};
use crate::graphemes::{clusters_of, split_clusters, views_of};
use vstd::prelude::*;

verus! {

pub type EditDistance = usize;

/// A distance between strings: a name for the algorithm and a total,
/// deterministic function into the natural numbers that is 0 on equal
/// strings and does not depend on the order of its arguments.
pub trait EditDistanceCalculator {
    /// The distance, as a function of the characters of both strings.
    spec fn distance(a: Seq<char>, b: Seq<char>) -> nat;

    /// Every string is at distance 0 from itself.
    proof fn lemma_distance_self(a: Seq<char>)
        ensures
            Self::distance(a, a) == 0,
    ;

    /// The distance does not depend on the order of the arguments.
    proof fn lemma_distance_symmetric(a: Seq<char>, b: Seq<char>)
        ensures
            Self::distance(a, b) == Self::distance(b, a),
    ;

    fn algorithm_name(&self) -> &'static str;

    /// Distance 0 is reported only for equal strings.
    fn get_edit_distance(&self, item1: &String, item2: &String) -> (r: EditDistance)
        ensures
            r == Self::distance(item1@, item2@),
            r == 0 ==> item1@ == item2@,
    ;
}

/// Whether a distance obeys the triangle inequality, the property that lets
/// a BK-tree skip subtrees without losing matches.
pub open spec fn obeys_triangle_inequality<C: EditDistanceCalculator>() -> bool {
    forall|a: Seq<char>, b: Seq<char>, c: Seq<char>|
        #[trigger] C::distance(a, c) <= #[trigger] C::distance(a, b) + #[trigger] C::distance(b, c)
}

/// Relies on strsim::generic_levenshtein: the least number of insertions,
/// deletions and substitutions of elements, elements compared with `==`
/// (here, strings by their characters).
#[verifier::external_body]
fn cluster_levenshtein(a: &Vec<String>, b: &Vec<String>) -> (r: usize)
    ensures
        r == levenshtein(views_of(a@), views_of(b@)),
{
    strsim::generic_levenshtein(a, b)
}

/// Optimal string alignment distance between two sequences of clusters,
/// filled in row by row.
pub fn cluster_osa(a: &Vec<String>, b: &Vec<String>) -> (r: usize)
    ensures
        r == osa(views_of(a@), views_of(b@)),
{
    let ghost sa = views_of(a@);
    let ghost sb = views_of(b@);
    let n = a.len();
    let m = b.len();
    let mut rows: Vec<Vec<usize>> = Vec::new();
    let mut first: Vec<usize> = Vec::new();
    first.push(0);
    for j in 0..m
        invariant
            m == b@.len(),
            sb == views_of(b@),
            first@.len() == j + 1,
            forall|jj: int| 0 <= jj <= j ==> #[trigger] first@[jj] == osa(sa.take(0), sb.take(jj)),
    {
        proof {
            assert(sa.take(0).len() == 0);
            assert(sb.take(j + 1).len() == j + 1);
        }
        first.push(j + 1);
    }
    rows.push(first);
    for i in 0..n
        invariant
            n == a@.len(),
            m == b@.len(),
            sa == views_of(a@),
            sb == views_of(b@),
            rows@.len() == i + 1,
            forall|ii: int| 0 <= ii <= i ==> (#[trigger] rows@[ii])@.len() == m + 1,
            forall|ii: int, jj: int|
                0 <= ii <= i && 0 <= jj <= m ==> #[trigger] rows@[ii]@[jj] == osa(
                    sa.take(ii),
                    sb.take(jj),
                ),
    {
        let mut row: Vec<usize> = Vec::new();
        proof {
            assert(sb.take(0).len() == 0);
        }
        row.push(i + 1);
        for j in 0..m
            invariant
                n == a@.len(),
                m == b@.len(),
                i < n,
                sa == views_of(a@),
                sb == views_of(b@),
                rows@.len() == i + 1,
                forall|ii: int| 0 <= ii <= i ==> (#[trigger] rows@[ii])@.len() == m + 1,
                forall|ii: int, jj: int|
                    0 <= ii <= i && 0 <= jj <= m ==> #[trigger] rows@[ii]@[jj] == osa(
                        sa.take(ii),
                        sb.take(jj),
                    ),
                row@.len() == j + 1,
                forall|jj: int| 0 <= jj <= j ==> #[trigger] row@[jj] == osa(sa.take(i + 1), sb.take(jj)),
        {
            let ghost x = sa.take(i + 1);
            let ghost y = sb.take(j + 1);
            proof {
                assert(x.drop_last() =~= sa.take(i as int));
                assert(y.drop_last() =~= sb.take(j as int));
                lemma_osa_upper_bound(sa.take(i as int), sb.take(j + 1));
                lemma_osa_upper_bound(sa.take(i + 1), sb.take(j as int));
                lemma_osa_upper_bound(sa.take(i as int), sb.take(j as int));
            }
            let same = a[i] == b[j];
            let sub = if same {
                rows[i][j]
            } else {
                rows[i][j] + 1
            };
            let del = rows[i][j + 1];
            let ins = row[j];
            let fewer = if del < ins {
                del
            } else {
                ins
            };
            let mut best = if fewer < sub {
                fewer + 1
            } else {
                sub
            };
            if i > 0 && j > 0 && !same && a[i] == b[j - 1] && a[i - 1] == b[j] {
                proof {
                    assert(x.drop_last().drop_last() =~= sa.take(i - 1));
                    assert(y.drop_last().drop_last() =~= sb.take(j - 1));
                    lemma_osa_upper_bound(sa.take(i - 1), sb.take(j - 1));
                }
                let swapped = rows[i - 1][j - 1] + 1;
                if swapped < best {
                    best = swapped;
                }
            } else {
                proof {
                    if x.len() >= 2 && y.len() >= 2 {
                        assert(!ends_transposed(x, y));
                    }
                }
            }
            row.push(best);
        }
        rows.push(row);
    }
    proof {
        assert(sa.take(n as int) =~= sa);
        assert(sb.take(m as int) =~= sb);
    }
    rows[n][m]
}

/// Optimal string alignment distance counted in grapheme clusters.
pub struct OsaEditDistanceCalculator {}

impl EditDistanceCalculator for OsaEditDistanceCalculator {
    open spec fn distance(a: Seq<char>, b: Seq<char>) -> nat {
        osa(clusters_of(a), clusters_of(b))
    }

    proof fn lemma_distance_self(a: Seq<char>) {
        lemma_osa_self(clusters_of(a));
    }

    proof fn lemma_distance_symmetric(a: Seq<char>, b: Seq<char>) {
        lemma_osa_symmetric(clusters_of(a), clusters_of(b));
    }

    fn algorithm_name(&self) -> (r: &'static str)
        ensures
            r@ == "Optimal String Alignment"@,
    {
        "Optimal String Alignment"
    }

    fn get_edit_distance(&self, item1: &String, item2: &String) -> (r: EditDistance) {
        let a = split_clusters(item1.as_str());
        let b = split_clusters(item2.as_str());
        let r = cluster_osa(&a, &b);
        proof {
            if r == 0 {
                lemma_osa_zero(views_of(a@), views_of(b@));
            }
        }
        r
    }
}

/// Levenshtein distance counted in grapheme clusters.
pub struct LevenshteinEditDistanceCalculator {}

impl EditDistanceCalculator for LevenshteinEditDistanceCalculator {
    open spec fn distance(a: Seq<char>, b: Seq<char>) -> nat {
        levenshtein(clusters_of(a), clusters_of(b))
    }

    proof fn lemma_distance_self(a: Seq<char>) {
        lemma_levenshtein_self(clusters_of(a));
    }

    proof fn lemma_distance_symmetric(a: Seq<char>, b: Seq<char>) {
        lemma_levenshtein_symmetric(clusters_of(a), clusters_of(b));
    }

    fn algorithm_name(&self) -> (r: &'static str)
        ensures
            r@ == "Levenshtein"@,
    {
        "Levenshtein"
    }

    fn get_edit_distance(&self, item1: &String, item2: &String) -> (r: EditDistance) {
        let a = split_clusters(item1.as_str());
        let b = split_clusters(item2.as_str());
        let r = cluster_levenshtein(&a, &b);
        proof {
            if r == 0 {
                lemma_levenshtein_zero(views_of(a@), views_of(b@));
            }
        }
        r
    }
}

/// Levenshtein distance over grapheme clusters obeys the triangle inequality.
pub proof fn lemma_levenshtein_obeys_triangle_inequality()
    ensures
        obeys_triangle_inequality::<LevenshteinEditDistanceCalculator>(),
{
    assert forall|a: Seq<char>, b: Seq<char>, c: Seq<char>|
        LevenshteinEditDistanceCalculator::distance(a, c) <= LevenshteinEditDistanceCalculator::distance(a, b)
            + LevenshteinEditDistanceCalculator::distance(b, c) by {
        lemma_levenshtein_triangle(clusters_of(a), clusters_of(b), clusters_of(c));
    }
}

} // verus!
