//! Attribute records and the similarity metrics that turn them into a graph.
//!
//! Features are plain non-negative integers (fractional source columns are
//! scaled to a fixed number of decimal places during ingestion, outside this
//! library). The Euclidean-style metric normalizes each engaged feature
//! difference to thousandths of its dataset-wide maximum — rounding the
//! quotient down, the library's documented quantization policy — and compares
//! the sum of squares against the squared threshold, which is the same
//! decision as comparing the root against the threshold. A feature whose
//! dataset-wide maximum is zero contributes zero to every distance (the
//! documented degenerate-bound policy, rather than a configuration error).

use vstd::prelude::*;

use crate::Ratio;

verus! {

/// Largest value an attribute feature may hold (ingestion scales raw columns
/// well below this); keeps every metric computation inside `u64`/`i64`.
pub const FEATURE_LIMIT: u64 = 1000000000;

/// Largest per-feature weight and flag bonus of the weighted metric.
pub const WEIGHT_LIMIT: u64 = 1000000;

/// Largest number of engaged features of a metric.
pub const MAX_FEATURES: usize = 1000;

/// Normalized differences are expressed in thousandths.
pub const SCALE: u64 = 1000;

/// One patient's record: a unique identifier, the ordered numeric features,
/// and the boolean outcome flag (e.g. exercise-induced angina). Immutable
/// after construction.
pub struct AttributeVector {
    pub id: String,
    pub features: Vec<u64>,
    pub flag: bool,
}

/// The pairwise similarity test, fixed at graph-construction time.
pub enum SimilarityMetric {
    /// Normalized Euclidean distance over the engaged feature indices;
    /// an edge is included when the distance, in thousandths, is at most
    /// `threshold_milli`. Smaller is more similar.
    Euclid { features: Vec<usize>, threshold_milli: u64 },
    /// Weighted mixed score: the sum over all features of
    /// `weight * |difference|`, minus `flag_bonus` when the outcome flags
    /// agree; an edge is included when the score is at most `threshold`.
    /// Smaller is more similar; the score can go negative.
    Weighted { weights: Vec<u64>, flag_bonus: u64, threshold: i64 },
}

pub open spec fn abs_diff(a: int, b: int) -> int {
    if a >= b {
        a - b
    } else {
        b - a
    }
}

/// `|a - b| / m` in thousandths, rounded down; zero when the normalization
/// bound `m` is zero.
pub open spec fn norm_diff_milli(a: int, b: int, m: int) -> int {
    if m == 0 {
        0
    } else {
        SCALE * abs_diff(a, b) / m
    }
}

/// The largest value feature `k` takes across the whole dataset (0 when the
/// dataset is empty).
pub open spec fn feature_max(nodes: Seq<AttributeVector>, k: int) -> int
    decreases nodes.len(),
{
    if nodes.len() == 0 {
        0
    } else {
        let rest = feature_max(nodes.drop_last(), k);
        let lastv = nodes.last().features@[k] as int;
        if lastv > rest {
            lastv
        } else {
            rest
        }
    }
}

/// Squared quantized Euclidean distance between nodes `i` and `j` over the
/// engaged features `feats`: the sum of squared normalized differences, each
/// in thousandths of that feature's dataset-wide maximum.
pub open spec fn euclid_sq_milli(
    nodes: Seq<AttributeVector>,
    feats: Seq<usize>,
    i: int,
    j: int,
) -> int
    decreases feats.len(),
{
    if feats.len() == 0 {
        0
    } else {
        let k = feats.last() as int;
        let u = norm_diff_milli(
            nodes[i].features@[k] as int,
            nodes[j].features@[k] as int,
            feature_max(nodes, k),
        );
        euclid_sq_milli(nodes, feats.drop_last(), i, j) + u * u
    }
}

/// Weighted sum of absolute feature differences.
pub open spec fn weighted_sum(af: Seq<u64>, bf: Seq<u64>, w: Seq<u64>) -> int
    decreases w.len(),
{
    if w.len() == 0 {
        0
    } else {
        weighted_sum(af.drop_last(), bf.drop_last(), w.drop_last()) + w.last() * abs_diff(
            af[w.len() - 1] as int,
            bf[w.len() - 1] as int,
        )
    }
}

/// The weighted mixed score of a pair: weighted feature differences minus
/// the bonus when the outcome flags agree.
pub open spec fn weighted_score(
    a: AttributeVector,
    b: AttributeVector,
    w: Seq<u64>,
    flag_bonus: int,
) -> int {
    weighted_sum(a.features@, b.features@, w) - (if a.flag == b.flag {
        flag_bonus
    } else {
        0
    })
}

/// The inclusion decision of the configured metric for the ordered pair
/// `(i, j)` of the dataset. Symmetric in `i` and `j`
/// (`lemma_similar_symmetric`).
pub open spec fn similar(nodes: Seq<AttributeVector>, metric: SimilarityMetric, i: int, j: int) -> bool {
    match metric {
        SimilarityMetric::Euclid { features, threshold_milli } => euclid_sq_milli(
            nodes,
            features@,
            i,
            j,
        ) <= threshold_milli * threshold_milli,
        SimilarityMetric::Weighted { weights, flag_bonus, threshold } => weighted_score(
            nodes[i],
            nodes[j],
            weights@,
            flag_bonus as int,
        ) <= threshold,
    }
}

impl SimilarityMetric {
    /// The metric fits a dataset whose records hold `schema` features.
    pub open spec fn wf(&self, schema: int) -> bool {
        match self {
            SimilarityMetric::Euclid { features, threshold_milli } => {
                &&& features@.len() <= MAX_FEATURES
                &&& forall|k: int|
                    0 <= k < features@.len() ==> (#[trigger] features@[k]) < schema
                &&& threshold_milli <= u32::MAX
            },
            SimilarityMetric::Weighted { weights, flag_bonus, threshold } => {
                &&& weights@.len() == schema
                &&& schema <= MAX_FEATURES
                &&& forall|k: int| 0 <= k < schema ==> (#[trigger] weights@[k]) <= WEIGHT_LIMIT
                &&& flag_bonus <= WEIGHT_LIMIT
            },
        }
    }
}

/// The builder's input is well formed: every record holds the same number of
/// features, every feature value is within `FEATURE_LIMIT`, and the metric
/// fits that shared schema.
pub open spec fn builder_wf(nodes: Seq<AttributeVector>, metric: SimilarityMetric) -> bool {
    &&& forall|i: int, j: int|
        0 <= i < nodes.len() && 0 <= j < nodes.len() ==> (#[trigger] nodes[i].features@.len())
            == (#[trigger] nodes[j].features@.len())
    &&& forall|i: int, k: int|
        0 <= i < nodes.len() && 0 <= k < nodes[i].features@.len() ==> (#[trigger] nodes[
            i
        ].features@[k]) <= FEATURE_LIMIT
    &&& (nodes.len() > 0 ==> metric.wf(nodes[0].features@.len() as int))
}

/// Both metrics treat a pair the same in either order: absolute differences
/// and flag agreement do not depend on the order of the pair.
pub proof fn lemma_similar_symmetric(
    nodes: Seq<AttributeVector>,
    metric: SimilarityMetric,
    i: int,
    j: int,
)
    requires
        0 <= i < nodes.len(),
        0 <= j < nodes.len(),
    ensures
        similar(nodes, metric, i, j) == similar(nodes, metric, j, i),
{
    match metric {
        SimilarityMetric::Euclid { features, threshold_milli } => {
            lemma_euclid_sq_symmetric(nodes, features@, i, j);
        },
        SimilarityMetric::Weighted { weights, flag_bonus, threshold } => {
            lemma_weighted_sum_symmetric(nodes[i].features@, nodes[j].features@, weights@);
        },
    }
}

proof fn lemma_euclid_sq_symmetric(nodes: Seq<AttributeVector>, feats: Seq<usize>, i: int, j: int)
    ensures
        euclid_sq_milli(nodes, feats, i, j) == euclid_sq_milli(nodes, feats, j, i),
    decreases feats.len(),
{
    if feats.len() > 0 {
        lemma_euclid_sq_symmetric(nodes, feats.drop_last(), i, j);
    }
}

proof fn lemma_weighted_sum_symmetric(af: Seq<u64>, bf: Seq<u64>, w: Seq<u64>)
    ensures
        weighted_sum(af, bf, w) == weighted_sum(bf, af, w),
    decreases w.len(),
{
    if w.len() > 0 {
        lemma_weighted_sum_symmetric(af.drop_last(), bf.drop_last(), w.drop_last());
    }
}

/// Every record's value of feature `k` is at most the dataset-wide maximum.
pub proof fn lemma_feature_max_ge(nodes: Seq<AttributeVector>, k: int, i: int)
    requires
        0 <= i < nodes.len(),
    ensures
        nodes[i].features@[k] as int <= feature_max(nodes, k),
    decreases nodes.len(),
{
    if i < nodes.len() - 1 {
        lemma_feature_max_ge(nodes.drop_last(), k, i);
    }
}

/// The dataset-wide maximum of a feature is bounded by any bound on the
/// values, and is never negative.
pub proof fn lemma_feature_max_le(nodes: Seq<AttributeVector>, k: int, bound: int)
    requires
        bound >= 0,
        forall|i: int|
            0 <= i < nodes.len() ==> (#[trigger] nodes[i].features@[k]) as int <= bound,
    ensures
        0 <= feature_max(nodes, k) <= bound,
    decreases nodes.len(),
{
    if nodes.len() > 0 {
        lemma_feature_max_le(nodes.drop_last(), k, bound);
    }
}

/// Decides the metric for the pair `(i, j)`, given the precomputed
/// per-feature dataset maxima.
fn similar_exec(
    nodes: &Vec<AttributeVector>,
    metric: &SimilarityMetric,
    maxima: &Vec<u64>,
    i: usize,
    j: usize,
) -> (b: bool)
    requires
        builder_wf(nodes@, *metric),
        nodes@.len() > 0,
        i < nodes@.len(),
        j < nodes@.len(),
        maxima@.len() == nodes@[0].features@.len(),
        forall|k: int|
            0 <= k < maxima@.len() ==> (#[trigger] maxima@[k]) as int == feature_max(nodes@, k),
    ensures
        b == similar(nodes@, *metric, i as int, j as int),
{
    let ghost schema = nodes@[0].features@.len() as int;
    proof {
        assert(nodes@[i as int].features@.len() == schema);
        assert(nodes@[j as int].features@.len() == schema);
    }
    match metric {
        SimilarityMetric::Euclid { features, threshold_milli } => {
            let mut acc: u64 = 0;
            let mut k: usize = 0;
            while k < features.len()
                invariant
                    builder_wf(nodes@, *metric),
                    *metric == (SimilarityMetric::Euclid {
                        features: *features,
                        threshold_milli: *threshold_milli,
                    }),
                    nodes@.len() > 0,
                    i < nodes@.len(),
                    j < nodes@.len(),
                    schema == nodes@[0].features@.len() as int,
                    maxima@.len() == schema,
                    forall|kk: int|
                        0 <= kk < maxima@.len() ==> (#[trigger] maxima@[kk]) as int
                            == feature_max(nodes@, kk),
                    k <= features@.len(),
                    features@.len() <= MAX_FEATURES,
                    acc == euclid_sq_milli(nodes@, features@.take(k as int), i as int, j as int),
                    acc <= k * 1000000,
                decreases features@.len() - k,
            {
                let f = features[k];
                proof {
                    assert(features@[k as int] == f);
                    assert(f < schema);
                    assert(nodes@[i as int].features@[f as int] <= FEATURE_LIMIT);
                    assert(nodes@[j as int].features@[f as int] <= FEATURE_LIMIT);
                }
                let av = nodes[i].features[f];
                let bv = nodes[j].features[f];
                let d: u64 = if av >= bv {
                    av - bv
                } else {
                    bv - av
                };
                let m = maxima[f];
                let u: u64 = if m == 0 {
                    0
                } else {
                    proof {
                        lemma_feature_max_ge(nodes@, f as int, i as int);
                        lemma_feature_max_ge(nodes@, f as int, j as int);
                        assert(d <= m);
                        assert((SCALE * d) as int <= (SCALE * m) as int) by (nonlinear_arith)
                            requires
                                d <= m,
                        ;
                        vstd::arithmetic::div_mod::lemma_div_is_ordered(
                            SCALE as int * d as int,
                            SCALE as int * m as int,
                            m as int,
                        );
                        vstd::arithmetic::div_mod::lemma_div_multiples_vanish(
                            SCALE as int,
                            m as int,
                        );
                    }
                    (SCALE * d) / m
                };
                proof {
                    assert(u <= 1000);
                    assert(u as int * u as int <= 1000000) by (nonlinear_arith)
                        requires
                            u <= 1000,
                    ;
                    assert(k * 1000000 + 1000000 == (k + 1) * 1000000) by (nonlinear_arith);
                    assert((k + 1) * 1000000 <= MAX_FEATURES * 1000000) by (nonlinear_arith)
                        requires
                            k + 1 <= MAX_FEATURES,
                    ;
                    let t = features@.take(k + 1 as int);
                    assert(t.drop_last() =~= features@.take(k as int));
                    assert(t.last() == f);
                    assert(norm_diff_milli(
                        nodes@[i as int].features@[f as int] as int,
                        nodes@[j as int].features@[f as int] as int,
                        feature_max(nodes@, f as int),
                    ) == u as int);
                }
                acc = acc + u * u;
                k += 1;
            }
            proof {
                assert(features@.take(features@.len() as int) =~= features@);
                assert(*threshold_milli <= u32::MAX);
                assert(threshold_milli as int * threshold_milli as int <= u64::MAX as int)
                    by (nonlinear_arith)
                    requires
                        *threshold_milli <= u32::MAX,
                ;
            }
            acc <= *threshold_milli * *threshold_milli
        },
        SimilarityMetric::Weighted { weights, flag_bonus, threshold } => {
            let mut acc: u64 = 0;
            let mut k: usize = 0;
            let ghost af = nodes@[i as int].features@;
            let ghost bf = nodes@[j as int].features@;
            while k < weights.len()
                invariant
                    builder_wf(nodes@, *metric),
                    *metric == (SimilarityMetric::Weighted {
                        weights: *weights,
                        flag_bonus: *flag_bonus,
                        threshold: *threshold,
                    }),
                    nodes@.len() > 0,
                    i < nodes@.len(),
                    j < nodes@.len(),
                    af == nodes@[i as int].features@,
                    bf == nodes@[j as int].features@,
                    schema == nodes@[0].features@.len() as int,
                    af.len() == schema,
                    bf.len() == schema,
                    weights@.len() == schema,
                    schema <= MAX_FEATURES,
                    k <= weights@.len(),
                    acc == weighted_sum(
                        af.take(k as int),
                        bf.take(k as int),
                        weights@.take(k as int),
                    ),
                    acc <= k * 1000000000000000,
                decreases weights@.len() - k,
            {
                let w = weights[k];
                let av = nodes[i].features[k];
                let bv = nodes[j].features[k];
                let d: u64 = if av >= bv {
                    av - bv
                } else {
                    bv - av
                };
                proof {
                    assert(weights@[k as int] <= WEIGHT_LIMIT);
                    assert(nodes@[i as int].features@[k as int] <= FEATURE_LIMIT);
                    assert(nodes@[j as int].features@[k as int] <= FEATURE_LIMIT);
                    assert(w as int * d as int <= 1000000000000000) by (nonlinear_arith)
                        requires
                            w <= WEIGHT_LIMIT,
                            d <= FEATURE_LIMIT,
                            WEIGHT_LIMIT == 1000000,
                            FEATURE_LIMIT == 1000000000,
                    ;
                    assert(k * 1000000000000000 + 1000000000000000 == (k + 1)
                        * 1000000000000000) by (nonlinear_arith);
                    assert((k + 1) * 1000000000000000 <= MAX_FEATURES * 1000000000000000)
                        by (nonlinear_arith)
                        requires
                            k + 1 <= MAX_FEATURES,
                    ;
                    let ta = af.take(k + 1 as int);
                    let tb = bf.take(k + 1 as int);
                    let tw = weights@.take(k + 1 as int);
                    assert(ta.drop_last() =~= af.take(k as int));
                    assert(tb.drop_last() =~= bf.take(k as int));
                    assert(tw.drop_last() =~= weights@.take(k as int));
                    assert(tw.last() == w);
                    assert(ta[tw.len() - 1] == av && tb[tw.len() - 1] == bv);
                }
                acc = acc + w * d;
                k += 1;
            }
            proof {
                assert(af.take(schema) =~= af);
                assert(bf.take(schema) =~= bf);
                assert(weights@.take(schema) =~= weights@);
                assert(acc <= 1000000000000000000) by (nonlinear_arith)
                    requires
                        acc <= MAX_FEATURES * 1000000000000000,
                        MAX_FEATURES == 1000,
                ;
            }
            let agree = nodes[i].flag == nodes[j].flag;
            let bonus: u64 = if agree {
                *flag_bonus
            } else {
                0
            };
            let score: i128 = (acc as i128) - (bonus as i128);
            score <= (*threshold as i128)
        },
    }
}

/// Builds the adjacency relation of the dataset under the given metric:
/// an adjacency map (strictly ascending neighbor lists, no self-loops) and
/// the matching boolean adjacency matrix with a `true` diagonal. An ordered
/// pair of distinct records is connected exactly when the metric accepts it;
/// since both metrics are symmetric, so is the result.
pub fn createadj(nodes: &Vec<AttributeVector>, metric: &SimilarityMetric) -> (r: (
    Vec<Vec<usize>>,
    Vec<Vec<bool>>,
))
    requires
        nodes@.len() <= crate::MAX_NODES,
        builder_wf(nodes@, *metric),
    ensures
        r.0@.len() == nodes@.len(),
        r.1@.len() == nodes@.len(),
        forall|i: int| 0 <= i < nodes@.len() ==> (#[trigger] r.1@[i])@.len() == nodes@.len(),
        forall|i: int| 0 <= i < nodes@.len() ==> r.1@[i]@[i] == true,
        forall|i: int, j: int|
            0 <= i < nodes@.len() && 0 <= j < nodes@.len() && i != j ==> (#[trigger] r.1@[i]@[j])
                == similar(nodes@, *metric, i, j),
        forall|i: int, k: int, l: int|
            0 <= i < nodes@.len() && 0 <= k < l < r.0@[i]@.len() ==> r.0@[i]@[k] < r.0@[i]@[l],
        forall|i: int, k: int|
            0 <= i < nodes@.len() && 0 <= k < r.0@[i]@.len() ==> (#[trigger] r.0@[i]@[k])
                < nodes@.len() && r.0@[i]@[k] != i,
        forall|i: int, j: int|
            0 <= i < nodes@.len() && 0 <= j < nodes@.len() ==> ((#[trigger] r.0@[i]@.contains(
                j as usize,
            )) <==> (i != j && similar(nodes@, *metric, i, j))),
        forall|i: int, j: int|
            0 <= i < nodes@.len() && 0 <= j < nodes@.len() ==> ((#[trigger] r.1@[i]@[j]) <==> r.1@[
                j
            ]@[i]),
        forall|i: int| 0 <= i < nodes@.len() ==> (#[trigger] r.0@[i]@).no_duplicates(),
{
    let n = nodes.len();
    let schema = if n > 0 {
        nodes[0].features.len()
    } else {
        0
    };
    // Per-feature dataset maxima, the normalization bounds of the Euclidean
    // metric (one O(n) pass per feature, before any pairwise comparison).
    let mut maxima: Vec<u64> = Vec::new();
    let mut k: usize = 0;
    while k < schema
        invariant
            builder_wf(nodes@, *metric),
            n == nodes@.len(),
            n > 0 ==> schema == nodes@[0].features@.len(),
            k <= schema,
            maxima@.len() == k,
            forall|kk: int|
                0 <= kk < k ==> (#[trigger] maxima@[kk]) as int == feature_max(nodes@, kk),
        decreases schema - k,
    {
        let mut m: u64 = 0;
        let mut i: usize = 0;
        while i < n
            invariant
                builder_wf(nodes@, *metric),
                n == nodes@.len(),
                n > 0 ==> schema == nodes@[0].features@.len(),
                k < schema,
                i <= n,
                m as int == feature_max(nodes@.take(i as int), k as int),
            decreases n - i,
        {
            proof {
                assert(nodes@[i as int].features@.len() == nodes@[0].features@.len());
                let t = nodes@.take(i + 1 as int);
                assert(t.drop_last() =~= nodes@.take(i as int));
                assert(t.last() == nodes@[i as int]);
            }
            let v = nodes[i].features[k];
            if v > m {
                m = v;
            }
            i += 1;
        }
        proof {
            assert(nodes@.take(n as int) =~= nodes@);
        }
        maxima.push(m);
        k += 1;
    }
    let mut adj: Vec<Vec<usize>> = Vec::new();
    let mut matrix: Vec<Vec<bool>> = Vec::new();
    let mut i: usize = 0;
    while i < n
        invariant
            builder_wf(nodes@, *metric),
            n == nodes@.len(),
            n > 0 ==> schema == nodes@[0].features@.len(),
            maxima@.len() == schema,
            forall|kk: int|
                0 <= kk < schema ==> (#[trigger] maxima@[kk]) as int == feature_max(nodes@, kk),
            i <= n,
            adj@.len() == i,
            matrix@.len() == i,
            forall|ii: int| 0 <= ii < i ==> (#[trigger] matrix@[ii])@.len() == n,
            forall|ii: int| 0 <= ii < i ==> matrix@[ii]@[ii] == true,
            forall|ii: int, j: int|
                0 <= ii < i && 0 <= j < n && ii != j ==> (#[trigger] matrix@[ii]@[j]) == similar(
                    nodes@,
                    *metric,
                    ii,
                    j,
                ),
            forall|ii: int, k: int, l: int|
                0 <= ii < i && 0 <= k < l < adj@[ii]@.len() ==> adj@[ii]@[k] < adj@[ii]@[l],
            forall|ii: int, k: int|
                0 <= ii < i && 0 <= k < adj@[ii]@.len() ==> (#[trigger] adj@[ii]@[k]) < n
                    && adj@[ii]@[k] != ii,
            forall|ii: int, j: int|
                0 <= ii < i && 0 <= j < n ==> ((#[trigger] adj@[ii]@.contains(j as usize)) <==> (
                ii != j && similar(nodes@, *metric, ii, j))),
        decreases n - i,
    {
        let mut row: Vec<usize> = Vec::new();
        let mut mrow: Vec<bool> = Vec::new();
        let mut j: usize = 0;
        while j < n
            invariant
                builder_wf(nodes@, *metric),
                n == nodes@.len(),
                n > 0 ==> schema == nodes@[0].features@.len(),
                maxima@.len() == schema,
                forall|kk: int|
                    0 <= kk < schema ==> (#[trigger] maxima@[kk]) as int == feature_max(
                        nodes@,
                        kk,
                    ),
                i < n,
                j <= n,
                mrow@.len() == j,
                forall|jj: int| 0 <= jj < j && jj == i ==> mrow@[jj] == true,
                forall|jj: int|
                    0 <= jj < j && jj != i ==> (#[trigger] mrow@[jj]) == similar(
                        nodes@,
                        *metric,
                        i as int,
                        jj,
                    ),
                forall|k: int, l: int| 0 <= k < l < row@.len() ==> row@[k] < row@[l],
                forall|k: int| 0 <= k < row@.len() ==> (#[trigger] row@[k]) < j,
                forall|k: int| 0 <= k < row@.len() ==> row@[k] != i,
                forall|jj: int|
                    0 <= jj < j ==> ((#[trigger] row@.contains(jj as usize)) <==> (i as int != jj
                        && similar(nodes@, *metric, i as int, jj))),
            decreases n - j,
        {
            if i == j {
                mrow.push(true);
            } else {
                let s = similar_exec(nodes, metric, &maxima, i, j);
                mrow.push(s);
                if s {
                    proof {
                        assert(!row@.contains(j as usize)) by {
                            if row@.contains(j as usize) {
                                let k = choose|k: int|
                                    0 <= k < row@.len() && row@[k] == j as usize;
                                assert(row@[k] < j);
                            }
                        }
                        assert(row@.no_duplicates()) by {
                            assert forall|p: int, q: int|
                                0 <= p < row@.len() && 0 <= q < row@.len() && p != q implies row@[
                                p
                            ] != row@[q] by {
                                if p < q {
                                    assert(row@[p] < row@[q]);
                                } else {
                                    assert(row@[q] < row@[p]);
                                }
                            }
                        }
                        crate::graph::lemma_push_effect(row@, j);
                    }
                    row.push(j);
                }
            }
            proof {
                if row@.contains(j as usize) {
                    let k = choose|k: int| 0 <= k < row@.len() && row@[k] == j as usize;
                    assert(row@[k] == j as usize);
                }
            }
            j += 1;
        }
        adj.push(row);
        matrix.push(mrow);
        i += 1;
    }
    proof {
        assert forall|i: int, j: int|
            0 <= i < nodes@.len() && 0 <= j < nodes@.len() implies ((#[trigger] matrix@[i]@[j])
            <==> matrix@[j]@[i]) by {
            if i != j {
                lemma_similar_symmetric(nodes@, *metric, i, j);
            }
        }
        assert forall|i: int| 0 <= i < nodes@.len() implies (#[trigger] adj@[i]@).no_duplicates()
            by {
            assert forall|p: int, q: int|
                0 <= p < adj@[i]@.len() && 0 <= q < adj@[i]@.len() && p != q implies adj@[i]@[p]
                != adj@[i]@[q] by {
                if p < q {
                    assert(adj@[i]@[p] < adj@[i]@[q]);
                } else {
                    assert(adj@[i]@[q] < adj@[i]@[p]);
                }
            }
        }
    }
    (adj, matrix)
}

/// The outcome flags of a record list, in order.
pub open spec fn flags_of(nodes: Seq<AttributeVector>) -> Seq<bool> {
    nodes.map_values(|v: AttributeVector| v.flag)
}

/// How many entries of `row` name a node whose outcome flag is set. An entry
/// outside the node list counts as unflagged.
pub open spec fn count_flagged(row: Seq<usize>, flags: Seq<bool>) -> int
    decreases row.len(),
{
    if row.len() == 0 {
        0
    } else {
        count_flagged(row.drop_last(), flags) + (if row.last() < flags.len() && flags[
            row.last() as int
        ] {
            1int
        } else {
            0int
        })
    }
}

pub proof fn lemma_count_flagged_bounds(row: Seq<usize>, flags: Seq<bool>)
    ensures
        0 <= count_flagged(row, flags) <= row.len(),
    decreases row.len(),
{
    if row.len() > 0 {
        lemma_count_flagged_bounds(row.drop_last(), flags);
    }
}

/// The flagged fraction of `row` strictly exceeds `num / den`.
pub open spec fn fraction_exceeds(row: Seq<usize>, flags: Seq<bool>, num: int, den: int) -> bool {
    count_flagged(row, flags) * den > num * row.len()
}

/// The flagged fraction of `row` meets or exceeds `num / den`.
pub open spec fn fraction_meets(row: Seq<usize>, flags: Seq<bool>, num: int, den: int) -> bool {
    count_flagged(row, flags) * den >= num * row.len()
}

/// Counts the neighbors in `row` whose record carries a set outcome flag.
pub(crate) fn count_flagged_nodes(row: &Vec<usize>, nodes: &Vec<AttributeVector>) -> (c: u64)
    ensures
        c == count_flagged(row@, flags_of(nodes@)),
{
    let ghost flags = flags_of(nodes@);
    let mut c: u64 = 0;
    let mut k: usize = 0;
    while k < row.len()
        invariant
            k <= row@.len(),
            flags == flags_of(nodes@),
            c == count_flagged(row@.take(k as int), flags),
            c <= k,
        decreases row@.len() - k,
    {
        let w = row[k];
        if w < nodes.len() && nodes[w].flag {
            c = c + 1;
        }
        proof {
            let t = row@.take(k + 1 as int);
            assert(t.drop_last() =~= row@.take(k as int));
            assert(t.last() == row@[k as int]);
            assert(flags.len() == nodes@.len());
            assert(w < nodes@.len() ==> flags[w as int] == nodes@[w as int].flag);
        }
        k += 1;
    }
    proof {
        assert(row@.take(row@.len() as int) =~= row@);
    }
    c
}

/// Per-node outcome recommendation: entry `i` is `true` exactly when the
/// fraction of node `i`'s neighbors with a set outcome flag strictly exceeds
/// `ratio`. A node without neighbors gets `false`.
pub fn recommend(edges: &Vec<Vec<usize>>, nodes: &Vec<AttributeVector>, ratio: Ratio) -> (r: Vec<
    bool,
>)
    requires
        ratio.den > 0,
    ensures
        r@.len() == edges@.len(),
        forall|i: int|
            0 <= i < edges@.len() ==> (#[trigger] r@[i]) == fraction_exceeds(
                edges@[i]@,
                flags_of(nodes@),
                ratio.num as int,
                ratio.den as int,
            ),
{
    let mut r: Vec<bool> = Vec::new();
    let mut i: usize = 0;
    while i < edges.len()
        invariant
            ratio.den > 0,
            i <= edges@.len(),
            r@.len() == i,
            forall|j: int|
                0 <= j < i ==> (#[trigger] r@[j]) == fraction_exceeds(
                    edges@[j]@,
                    flags_of(nodes@),
                    ratio.num as int,
                    ratio.den as int,
                ),
        decreases edges@.len() - i,
    {
        let row = &edges[i];
        let c = count_flagged_nodes(row, nodes);
        proof {
            lemma_count_flagged_bounds(row@, flags_of(nodes@));
        }
        let b = crate::cross_gt(c, ratio.den, ratio.num, row.len() as u64);
        r.push(b);
        i += 1;
    }
    r
}

} // verus!
