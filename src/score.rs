use vstd::prelude::*;

verus! {

/// Numerator of BM25's term-frequency factor `tf·(k1+1) / (tf + k1·(1 − b + b·dl/avgdl))`
/// in exact arithmetic, with `k1 = 6/5`, `b = 3/4` and `avgdl = total/n`; the
/// factor is `tf_weight_num / tf_weight_den`.
pub open spec fn tf_weight_num(tf: nat, total: nat) -> int {
    (22 * tf * total) as int
}

/// Denominator of the term-frequency factor, see `tf_weight_num`.
pub open spec fn tf_weight_den(tf: nat, dl: nat, n: nat, total: nat) -> int {
    (10 * total * tf + 3 * total + 9 * dl * n) as int
}

/// For one term of one query, a document that holds the term at least as often
/// as another of the same length has at least its term-frequency factor, and so
/// at least its score (the inverse document frequency being shared).
pub proof fn lemma_tf_weight_monotonic(tf1: nat, tf2: nat, dl: nat, n: nat, total: nat)
    requires
        tf1 <= tf2,
        total > 0,
    ensures
        tf_weight_den(tf1, dl, n, total) > 0,
        tf_weight_den(tf2, dl, n, total) > 0,
        tf_weight_num(tf1, total) * tf_weight_den(tf2, dl, n, total) <= tf_weight_num(tf2, total)
            * tf_weight_den(tf1, dl, n, total),
{
    let c: int = (3 * total + 9 * dl * n) as int;
    assert(c >= 0) by (nonlinear_arith)
        requires
            c == 3 * total + 9 * dl * n,
    ;
    assert(tf1 * c <= tf2 * c) by (nonlinear_arith)
        requires
            tf1 <= tf2,
            c >= 0,
    ;
    assert(tf_weight_num(tf1, total) * tf_weight_den(tf2, dl, n, total) == 22 * total * (10 * total * tf1 * tf2
        + tf1 * c)) by (nonlinear_arith)
        requires
            c == 3 * total + 9 * dl * n,
    ;
    assert(tf_weight_num(tf2, total) * tf_weight_den(tf1, dl, n, total) == 22 * total * (10 * total * tf1 * tf2
        + tf2 * c)) by (nonlinear_arith)
        requires
            c == 3 * total + 9 * dl * n,
    ;
    assert(22 * total * (10 * total * tf1 * tf2 + tf1 * c) <= 22 * total * (10 * total * tf1 * tf2 + tf2 * c))
        by (nonlinear_arith)
        requires
            tf1 * c <= tf2 * c,
            total > 0,
    ;
    assert(tf_weight_den(tf1, dl, n, total) > 0) by (nonlinear_arith)
        requires
            total > 0,
    ;
    assert(tf_weight_den(tf2, dl, n, total) > 0) by (nonlinear_arith)
        requires
            total > 0,
    ;
}

} // verus!
