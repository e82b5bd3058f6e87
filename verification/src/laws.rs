//! Properties that hold of the library as a whole.

use crate::arith::{
    drawn, encodes, is_largest, is_number, is_one, is_power, is_sin_cos, is_sum, is_zero, minus,
    over, plus, times, widened, widens, Arithmetic, Widen,
};
use crate::attention::{attended, head_vector, Heads};
use crate::causality::{
    attended_to, head_vectors, ignored, lemma_attended_row, lemma_attended_to,
    lemma_fewer_positions, lemma_same_positions, lemma_token_row, lemma_token_rows,
    lemma_weights, same_positions, token_rows, weights_of,
};
use crate::determined::{determined, lemma_multiplied, lemma_normed, lemma_rotated, lemma_widened};
use crate::kvcache::{blank, overwritten, KVCache};
use crate::layout::{at, lemma_flat_bound, lemma_place, lemma_row_bound, row};
use crate::manager::SessionManager;
use crate::model::{lemma_layer_sizes, token_before, LayerTrace, Llama, PassTrace, Sampling};
use crate::operators::{
    are_exps_of_differences, is_angle, multiplied, normed, pair_rotated, rotated, softmax_row,
    softmaxed, turned, visible,
};
use crate::params::{is_read, LLamaParams};
use crate::passes::{all_determined, is_cold, lemma_blank, lemma_empty_caches, lemma_generated};
use crate::pieces::{
    caches_agree, lemma_caches_agree, lemma_past_rows, lemma_residual_is_kept, lemma_shared_pass,
    zero_widens_to_zero, Pass,
};
use crate::sampling::{
    are_running_sums, asks_for_largest, at_least, chosen, encoded, is_numeric, is_ranking,
    is_weight, not_positive, picked_first, picked_largest, sample_steps, sampled, taking_part,
    total_key, value_key, weight_added, SampleTrace,
};
use crate::session::{prompt_for, rendered, rendered_all, without_end, ChatSession, Said};
use crate::tensor::lemma_entries_2;
use std::sync::Arc;
use vstd::arithmetic::div_mod::lemma_fundamental_div_mod_converse;
use vstd::prelude::*;
use vstd::set_lib::{lemma_int_range, lemma_subset_equality, set_int_range};

verus! {

/// Scores behind the mask do not matter: what softmax can make of a row, it can make of every row
/// that agrees with it on the visible entries.
pub proof fn law_masked_scores_do_not_matter<T, A: Arithmetic<T>>(
    x1: Seq<T>,
    x2: Seq<T>,
    n: int,
    y: Seq<T>,
)
    requires
        x1.len() == x2.len(),
        1 <= n <= x1.len(),
        x1.take(n) == x2.take(n),
        softmax_row::<T, A>(x1, n, y),
    ensures
        softmax_row::<T, A>(x2, n, y),
{
    assert(x1[0] == x1.take(n)[0] && x2[0] == x2.take(n)[0]);
    let (m, e, s) = choose|m: T, e: Seq<T>, s: T| #[trigger]
        is_largest::<T, A>(x1[0], x1.take(n), m) && are_exps_of_differences::<T, A>(
            x1.take(n),
            m,
            e,
        ) && #[trigger] is_sum::<T, A>(e, s) && forall|j: int|
            0 <= j < n ==> over::<T, A>(e[j], s, #[trigger] y[j]);
    assert(is_largest::<T, A>(x2[0], x2.take(n), m) && is_sum::<T, A>(e, s));
}

/// A pass leaves the keys and values of all earlier positions as they are, and those of the
/// places that are not in use yet.
pub proof fn law_pass_keeps_the_past<T: Default, A: Arithmetic<T> + Widen<T, T>>(
    model: &Llama<T>,
    tokens: Seq<u32>,
    c0: KVCache<T>,
    c1: KVCache<T>,
    logits: Seq<T>,
    l: int,
    x: int,
)
    requires
        model.consistent(),
        model.owns(c0),
        model.accepts(tokens, c0),
        model.passed::<A>(tokens, c0, c1, logits),
        0 <= l < model.n_layers,
        0 <= x < model.max_seq_len * model.kv_len(),
        x < c0.length * model.kv_len() || c1.length * model.kv_len() <= x,
    ensures
        c1.keys(l)[x] == c0.keys(l)[x],
        c1.values(l)[x] == c0.values(l)[x],
{
    let t = choose|t: PassTrace<T>| #[trigger]
        model.pass_steps::<A>(tokens, c0, c1, t, logits);
    let past = c0.length as int;
    let n = tokens.len() as int;
    let dim = model.kv_len();
    assert(model.layer_done::<A>(
        l,
        n,
        past,
        c0.keys(l),
        c0.values(l),
        t.buffers[l],
        c1.keys(l),
        c1.values(l),
        t.buffers[l + 1],
    ));
    let s = choose|s: LayerTrace<T>| #[trigger]
        model.layer_steps::<A>(
            l,
            n,
            past,
            c0.keys(l),
            c0.values(l),
            t.buffers[l],
            c1.keys(l),
            c1.values(l),
            t.buffers[l + 1],
            s,
        );
    lemma_layer_sizes(model, n, past);
    assert(c0.fits(c0.k_cache@[l]));
    assert(c0.fits(c0.v_cache@[l]));
    let from = past * dim;
    let to = (past + n) * dim;
    assert(s.turned_k.len() == to - from);
    assert(s.v.len() == to - from);
}

/// A text that is taken in in two pieces gives what it gives at once: the same scores for the next
/// position, and the same keys and values for every position and layer. The arithmetic must be
/// determined, products of 0 and the values that occur in the passes must add nothing, as they do
/// where those are finite, and the outputs of the query heads must fill the rows of the hidden
/// states.
pub proof fn law_pieces_give_what_the_whole_gives<T: Default, A: Arithmetic<T> + Widen<T, T>>(
    model: &Llama<T>,
    a: Seq<u32>,
    b: Seq<u32>,
    c0: KVCache<T>,
    c1: KVCache<T>,
    logits1: Seq<T>,
    c2: KVCache<T>,
    logits2: Seq<T>,
    e0: KVCache<T>,
    e1: KVCache<T>,
    logits: Seq<T>,
)
    requires
        all_determined::<T, A>(),
        model.consistent(),
        model.heads_fill_rows(),
        model.owns(c0),
        model.owns(e0),
        c0.length == e0.length,
        caches_agree(c0, e0, model.kv_len(), c0.length as int),
        model.accepts(a, c0),
        model.accepts(b, c1),
        model.accepts(a + b, e0),
        model.passed::<A>(a, c0, c1, logits1),
        model.passed::<A>(b, c1, c2, logits2),
        model.passed::<A>(a + b, e0, e1, logits),
        forall|t: PassTrace<T>| #[trigger]
            model.pass_steps::<A>(a, c0, c1, t, logits1) ==> model.pass_is_tame::<A>(
                (Pass { tokens: a, c0, c1, t, logits: logits1 }),
            ),
        forall|t: PassTrace<T>| #[trigger]
            model.pass_steps::<A>(b, c1, c2, t, logits2) ==> model.pass_is_tame::<A>(
                (Pass { tokens: b, c0: c1, c1: c2, t, logits: logits2 }),
            ),
        forall|t: PassTrace<T>| #[trigger]
            model.pass_steps::<A>(a + b, e0, e1, t, logits) ==> model.pass_is_tame::<A>(
                (Pass { tokens: a + b, c0: e0, c1: e1, t, logits }),
            ),
    ensures
        logits2 == logits,
        c2.length == e1.length,
        caches_agree(c2, e1, model.kv_len(), c2.length as int),
{
    let t1 = choose|t: PassTrace<T>| #[trigger] model.pass_steps::<A>(a, c0, c1, t, logits1);
    let t2 = choose|t: PassTrace<T>| #[trigger] model.pass_steps::<A>(b, c1, c2, t, logits2);
    let t3 = choose|t: PassTrace<T>| #[trigger] model.pass_steps::<A>(a + b, e0, e1, t, logits);
    let first = Pass { tokens: a, c0, c1, t: t1, logits: logits1 };
    let second = Pass { tokens: b, c0: c1, c1: c2, t: t2, logits: logits2 };
    let whole = Pass { tokens: a + b, c0: e0, c1: e1, t: t3, logits };
    let dim = model.kv_len();
    lemma_past_rows::<T, A>(model, first);
    lemma_past_rows::<T, A>(model, second);
    lemma_past_rows::<T, A>(model, whole);
    lemma_caches_agree(c1, c0, e0, e1, dim, c0.length as int);
    lemma_shared_pass::<T, A>(model, first, whole);
    lemma_caches_agree(c2, c1, e1, e1, dim, c1.length as int);
    lemma_shared_pass::<T, A>(model, second, whole);
}

/// The projections that lead back to the residual are 0 everywhere.
pub open spec fn no_projections<T, A: Arithmetic<T>>(model: &Llama<T>) -> bool {
    &&& forall|l: int, x: int|
        0 <= l < model.n_layers && 0 <= x < model.params.wo@[l].data@.len() ==> is_zero::<T, A>(
            #[trigger] model.params.wo@[l].data@[x],
        )
    &&& forall|l: int, x: int|
        0 <= l < model.n_layers && 0 <= x < model.params.w_down@[l].data@.len() ==> is_zero::<
            T,
            A,
        >(#[trigger] model.params.w_down@[l].data@[x])
}

/// `logits` can be the scores that the embedding of `token` alone gives: its normalization,
/// multiplied with the output matrix.
pub open spec fn scored_alone<T: Default, A: Arithmetic<T> + Widen<T, T>>(
    model: &Llama<T>,
    token: u32,
    logits: Seq<T>,
) -> bool {
    let d = model.d as int;
    exists|e: Seq<T>, h: Seq<T>, before: Seq<T>, z: T, o: T|
        widened::<T, T, A>(row(model.params.embedding_table.data@, d, token as int), e)
            && #[trigger] normed::<T, A>(e, model.params.rms_out_w.data@, d, model.eps, h)
            && is_zero::<T, A>(z) && is_one::<T, A>(o) && blank(before) && before.len()
            == model.vocab && #[trigger] multiplied::<T, T, A>(
            before,
            z,
            h,
            model.params.lm_head.data@,
            o,
            1,
            d,
            model.vocab as int,
            logits,
        )
}

/// Without projections back to the residual, the scores are those of the last token alone,
/// whatever came before it. Products of 0 and the values that occur in the pass must be 0, as they
/// are where those are finite, and adding 0 must leave the residual as it is.
pub proof fn law_without_projections_only_the_last_token_matters<
    T: Default,
    A: Arithmetic<T> + Widen<T, T>,
>(model: &Llama<T>, tokens: Seq<u32>, c0: KVCache<T>, c1: KVCache<T>, logits: Seq<T>)
    requires
        zero_widens_to_zero::<T, A>(),
        model.consistent(),
        no_projections::<T, A>(model),
        model.owns(c0),
        model.accepts(tokens, c0),
        model.passed::<A>(tokens, c0, c1, logits),
        forall|t: PassTrace<T>| #[trigger]
            model.pass_steps::<A>(tokens, c0, c1, t, logits) ==> model.pass_adds_nothing::<A>(
                (Pass { tokens, c0, c1, t, logits }),
            ),
    ensures
        scored_alone::<T, A>(model, tokens.last(), logits),
{
    let t = choose|t: PassTrace<T>| #[trigger] model.pass_steps::<A>(tokens, c0, c1, t, logits);
    let x = Pass { tokens, c0, c1, t, logits };
    let k = model.n_layers as int;
    let d = model.d as int;
    let n = tokens.len() as int;
    lemma_residual_is_kept::<T, A>(model, x, k);
    let residual = t.buffers[0].residual;
    let e = row(residual, d, n - 1);
    lemma_row_bound(n, d, n - 1);
    let table = model.params.embedding_table;
    assert(table.shape@ =~= seq![table.shape@[0], table.shape@[1]]);
    lemma_entries_2(table.shape@[0], table.shape@[1]);
    lemma_row_bound(table.shape@[0] as int, d, tokens.last() as int);
    let from = row(table.data@, d, tokens.last() as int);
    assert forall|j: int| 0 <= j < d implies widens::<T, T, A>(from[j], #[trigger] e[j]) by {
        assert(at(residual, d, n - 1, j) == e[j]);
        assert(at(table.data@, d, tokens.last() as int, j) == from[j]);
    }
    assert(widened::<T, T, A>(from, e));
    assert(normed::<T, A>(e, model.params.rms_out_w.data@, d, model.eps, t.last));
}

/// The scores of a token alone are determined, so that without projections back to the residual
/// two passes that end with the same token give the same scores.
pub proof fn law_scores_of_the_last_token_are_determined<
    T: Default,
    A: Arithmetic<T> + Widen<T, T>,
>(model: &Llama<T>, token: u32, logits1: Seq<T>, logits2: Seq<T>)
    requires
        all_determined::<T, A>(),
        model.consistent(),
        token < model.params.embedding_table.shape@[0],
        scored_alone::<T, A>(model, token, logits1),
        scored_alone::<T, A>(model, token, logits2),
    ensures
        logits1 == logits2,
{
    reveal(all_determined);
    let d = model.d as int;
    let table = model.params.embedding_table;
    let from = row(table.data@, d, token as int);
    let (e1, h1, b1, z1, o1) = choose|e: Seq<T>, h: Seq<T>, before: Seq<T>, z: T, o: T|
        widened::<T, T, A>(row(model.params.embedding_table.data@, d, token as int), e)
            && #[trigger] normed::<T, A>(e, model.params.rms_out_w.data@, d, model.eps, h)
            && is_zero::<T, A>(z) && is_one::<T, A>(o) && blank(before) && before.len()
            == model.vocab && #[trigger] multiplied::<T, T, A>(
            before,
            z,
            h,
            model.params.lm_head.data@,
            o,
            1,
            d,
            model.vocab as int,
            logits1,
        );
    let (e2, h2, b2, z2, o2) = choose|e: Seq<T>, h: Seq<T>, before: Seq<T>, z: T, o: T|
        widened::<T, T, A>(row(model.params.embedding_table.data@, d, token as int), e)
            && #[trigger] normed::<T, A>(e, model.params.rms_out_w.data@, d, model.eps, h)
            && is_zero::<T, A>(z) && is_one::<T, A>(o) && blank(before) && before.len()
            == model.vocab && #[trigger] multiplied::<T, T, A>(
            before,
            z,
            h,
            model.params.lm_head.data@,
            o,
            1,
            d,
            model.vocab as int,
            logits2,
        );
    assert(table.shape@ =~= seq![table.shape@[0], table.shape@[1]]);
    lemma_entries_2(table.shape@[0], table.shape@[1]);
    lemma_row_bound(table.shape@[0] as int, d, token as int);
    lemma_widened::<T, T, A>(from, e1, e2);
    assert(1 * d == d && 1 * model.vocab == model.vocab);
    lemma_normed::<T, A>(e1, model.params.rms_out_w.data@, 1, d, model.eps, h1, h2);
    lemma_blank(b1, b2);
    assert(z1 == z2 && o1 == o2);
    lemma_multiplied::<T, T, A>(
        b1,
        z1,
        h1,
        model.params.lm_head.data@,
        o1,
        1,
        d,
        model.vocab as int,
        logits1,
        logits2,
    );
}

/// The caches between the choices grow by one position each.
pub proof fn law_each_choice_takes_one_position<T: Default, A: Arithmetic<T> + Widen<T, T>>(
    model: &Llama<T>,
    first: u32,
    caches: Seq<KVCache<T>>,
    how: Sampling<T>,
    picks: Seq<u32>,
    i: int,
)
    requires
        model.picked::<A>(first, caches, how, picks),
        0 <= i <= picks.len(),
    ensures
        caches[i].length == caches[0].length + i,
    decreases i,
{
    if i > 0 {
        law_each_choice_takes_one_position::<T, A>(model, first, caches, how, picks, i - 1);
        assert(model.picked_at::<A>(first, caches, how, picks, i - 1));
        let logits = choose|logits: Seq<T>| #[trigger]
            model.passed::<A>(
                seq![token_before(first, picks, i - 1)],
                caches[i - 1],
                caches[i],
                logits,
            );
    }
}

/// A chosen token is one of those that have a score.
pub proof fn law_choice_is_in_range<T, A: Arithmetic<T>>(
    x: Seq<T>,
    top_p: T,
    top_k: u32,
    temperature: T,
    r: u32,
)
    requires
        chosen::<T, A>(x, top_p, top_k, temperature, Some(r)),
    ensures
        r < x.len(),
{
    let (tb, pb) = choose|tb: u32, pb: u32| #[trigger]
        encodes::<T, A>(temperature, tb) && #[trigger] encodes::<T, A>(top_p, pb)
            && if asks_for_largest(tb, top_k, pb) {
            exists|bits: Seq<u32>| #[trigger]
                encoded::<T, A>(x, bits) && picked_largest(bits, Some(r))
        } else {
            exists|draw: T| #[trigger]
                drawn::<T, A>(draw) && sampled::<T, A>(
                    x,
                    top_p,
                    top_k,
                    temperature,
                    draw,
                    Some(r),
                )
        };
    if !asks_for_largest(tb, top_k, pb) {
        let draw = choose|draw: T| #[trigger]
            drawn::<T, A>(draw) && sampled::<T, A>(
                x,
                top_p,
                top_k,
                temperature,
                draw,
                Some(r),
            );
        let t = choose|t: SampleTrace<T>| #[trigger]
            sample_steps::<T, A>(x, top_p, top_k, temperature, draw, t, Some(r));
        assert(t.order[t.codes.len() - 1] < t.bits.len());
    }
}

/// With a temperature or a `top_p` that is not positive, or less than two tokens to choose from,
/// the choice does not depend on chance: it is the last of the largest scores.
pub proof fn law_cold_choice_is_the_largest<T, A: Arithmetic<T>>(
    x: Seq<T>,
    top_p: T,
    top_k: u32,
    temperature: T,
    r: Option<u32>,
)
    requires
        chosen::<T, A>(x, top_p, top_k, temperature, r),
        top_k < 2 || (forall|tb: u32| #[trigger]
            encodes::<T, A>(temperature, tb) ==> not_positive(tb)) || (forall|pb: u32| #[trigger]
            encodes::<T, A>(top_p, pb) ==> not_positive(pb)),
    ensures
        exists|bits: Seq<u32>| #[trigger] encoded::<T, A>(x, bits) && picked_largest(bits, r),
{
}

/// The largest of given values is picked at one place only.
pub proof fn law_largest_is_unique(bits: Seq<u32>, r1: Option<u32>, r2: Option<u32>)
    requires
        picked_largest(bits, r1),
        picked_largest(bits, r2),
    ensures
        r1 == r2,
{
    if let (Some(a), Some(b)) = (r1, r2) {
        assert(value_key(bits[a as int]) <= value_key(bits[b as int]));
        assert(value_key(bits[b as int]) <= value_key(bits[a as int]));
    }
}

/// A draw stays among the `top_k` most likely tokens if their weight reaches the limit.
pub proof fn law_draw_stays_in_top_k<T, A: Arithmetic<T>>(
    x: Seq<T>,
    top_p: T,
    top_k: u32,
    temperature: T,
    draw: T,
    t: SampleTrace<T>,
    r: u32,
)
    requires
        x.len() > 0,
        top_k > 0,
        sample_steps::<T, A>(x, top_p, top_k, temperature, draw, t, Some(r)),
        forall|code: u32| #[trigger]
            encodes::<T, A>(t.sums[taking_part(x.len() as int, top_k) - 1], code) ==> at_least(
                code,
                t.limit_bits,
            ),
    ensures
        exists|i: int| 0 <= i < taking_part(x.len() as int, top_k) && #[trigger] t.order[i] == r,
{
    let k = taking_part(x.len() as int, top_k);
    let i = t.codes.len() - 1;
    assert(t.order[i] == r);
    if i >= k {
        assert(encodes::<T, A>(t.sums[k - 1], t.codes[k - 1]));
    }
}

/// Numbers that compare as different compare the same way in the total order, and no two
/// encodings are equal in the total order.
pub proof fn law_total_order_extends_the_order_of_numbers(a: u32, b: u32)
    ensures
        is_numeric(a) && is_numeric(b) && value_key(a) < value_key(b) ==> total_key(a)
            < total_key(b),
        total_key(a) == total_key(b) ==> a == b,
{
}

/// Some entry of `order` is `t`, if `order` lists all the entries.
pub proof fn lemma_ranked(bits: Seq<u32>, order: Seq<u32>, t: u32) -> (i: int)
    requires
        is_ranking(bits, order),
        t < bits.len(),
    ensures
        0 <= i < order.len(),
        order[i] == t,
{
    let n = order.len() as int;
    let listed = order.map_values(|x: u32| x as int);
    let all = set_int_range(0, n);
    assert(listed.no_duplicates());
    listed.unique_seq_to_set();
    lemma_int_range(0, n);
    assert(listed.to_set().subset_of(all)) by {
        assert forall|x: int| listed.to_set().contains(x) implies all.contains(x) by {
            let k = choose|k: int| 0 <= k < listed.len() && listed[k] == x;
            assert(order[k] < bits.len());
        }
    }
    lemma_subset_equality(listed.to_set(), all);
    assert(all.contains(t as int));
    assert(listed.contains(t as int));
    let i = choose|i: int| 0 <= i < listed.len() && listed[i] == t as int;
    i
}

/// Two rankings of the same entries agree as far as they are compared.
proof fn lemma_rankings_agree(bits: Seq<u32>, a: Seq<u32>, b: Seq<u32>, n: int)
    requires
        is_ranking(bits, a),
        is_ranking(bits, b),
        0 <= n <= a.len(),
    ensures
        forall|i: int| 0 <= i < n ==> a[i] == b[i],
    decreases n,
{
    if n > 0 {
        let i = n - 1;
        lemma_rankings_agree(bits, a, b, i);
        assert(a[i] < bits.len() && b[i] < bits.len());
        let j = lemma_ranked(bits, b, a[i]);
        let k = lemma_ranked(bits, a, b[i]);
        if a[i] != b[i] {
            if j < i {
                assert(a[j] == b[j]);
            }
            if k < i {
                assert(a[k] == b[k]);
            }
            assert(i < j && i < k);
        }
    }
}

/// There is one ranking only: which entry comes first, second and so on is determined.
pub proof fn law_ranking_is_unique(bits: Seq<u32>, a: Seq<u32>, b: Seq<u32>)
    requires
        is_ranking(bits, a),
        is_ranking(bits, b),
    ensures
        a == b,
{
    lemma_rankings_agree(bits, a, b, a.len() as int);
}

/// The first entry of a ranking of numbers is one of the largest.
pub proof fn law_ranking_starts_with_the_largest(bits: Seq<u32>, order: Seq<u32>, t: u32)
    requires
        is_ranking(bits, order),
        forall|k: int| 0 <= k < bits.len() ==> is_numeric(#[trigger] bits[k]),
        t < bits.len(),
    ensures
        value_key(bits[t as int]) <= value_key(bits[order[0] as int]),
{
    let k = lemma_ranked(bits, order, t);
    assert(order[0] < bits.len());
    assert(is_numeric(bits[t as int]) && is_numeric(bits[order[0] as int]));
    if k > 0 {
        assert(order[0] != order[k]);
    }
}

/// Entry `t` comes before entry `u` in the ranking, or is the same: it is larger, or equal with
/// a smaller index.
pub open spec fn ranks_up_to(bits: Seq<u32>, t: u32, u: u32) -> bool {
    ||| total_key(bits[t as int]) > total_key(bits[u as int])
    ||| total_key(bits[t as int]) == total_key(bits[u as int]) && t <= u
}

/// Two sequences of running sums of the same weights agree as far as they are compared.
proof fn lemma_running_sums<T, A: Arithmetic<T>>(
    x: Seq<T>,
    order: Seq<u32>,
    temperature: T,
    s1: Seq<T>,
    s2: Seq<T>,
    n: int,
)
    requires
        determined::<T, A>(),
        1 <= n <= s1.len(),
        n <= s2.len(),
        are_running_sums::<T, A>(x, order, temperature, s1),
        are_running_sums::<T, A>(x, order, temperature, s2),
    ensures
        forall|i: int| 0 <= i < n ==> s1[i] == s2[i],
    decreases n,
{
    if n > 1 {
        let i = n - 1;
        lemma_running_sums::<T, A>(x, order, temperature, s1, s2, i);
        let entry = x[order[i] as int];
        let max = x[order[0] as int];
        assert(weight_added::<T, A>(s1[i - 1], entry, max, temperature, s1[i]));
        assert(weight_added::<T, A>(s2[i - 1], entry, max, temperature, s2[i]));
        let w1 = choose|w: T| #[trigger]
            is_weight::<T, A>(entry, max, temperature, w) && plus::<T, A>(s1[i - 1], w, s1[i]);
        let w2 = choose|w: T| #[trigger]
            is_weight::<T, A>(entry, max, temperature, w) && plus::<T, A>(s2[i - 1], w, s2[i]);
        assert(w1 == w2);
    }
}

/// What two draws from the same scores have in common.
proof fn lemma_same_scores<T, A: Arithmetic<T>>(
    x: Seq<T>,
    top_p: T,
    top_k: u32,
    temperature: T,
    draw1: T,
    t1: SampleTrace<T>,
    r1: Option<u32>,
    draw2: T,
    t2: SampleTrace<T>,
    r2: Option<u32>,
)
    requires
        determined::<T, A>(),
        x.len() > 0,
        sample_steps::<T, A>(x, top_p, top_k, temperature, draw1, t1, r1),
        sample_steps::<T, A>(x, top_p, top_k, temperature, draw2, t2, r2),
    ensures
        t1.bits == t2.bits,
        t1.order == t2.order,
        t1.sums == t2.sums,
{
    assert forall|i: int| 0 <= i < x.len() implies t1.bits[i] == t2.bits[i] by {
        assert(encodes::<T, A>(x[i], t1.bits[i]) && encodes::<T, A>(x[i], t2.bits[i]));
    }
    assert(t1.bits =~= t2.bits);
    law_ranking_is_unique(t1.bits, t1.order, t2.order);
    lemma_running_sums::<T, A>(x, t1.order, temperature, t1.sums, t2.sums, x.len() as int);
    assert(t1.sums =~= t2.sums);
}

/// A larger limit never gives a more likely token: over the same running sums, whose encodings
/// agree as far as both draws look at them, the larger limit gives a token of the same rank or of a
/// later one. This holds of any arithmetic.
pub proof fn law_larger_limit_gives_no_earlier_rank<T, A: Arithmetic<T>>(
    bits: Seq<u32>,
    order: Seq<u32>,
    sums: Seq<T>,
    limit1: u32,
    codes1: Seq<u32>,
    r1: u32,
    limit2: u32,
    codes2: Seq<u32>,
    r2: u32,
)
    requires
        is_ranking(bits, order),
        sums.len() == order.len(),
        picked_first::<T, A>(order, sums, limit1, codes1, Some(r1)),
        picked_first::<T, A>(order, sums, limit2, codes2, Some(r2)),
        forall|i: int| 0 <= i < codes1.len() && i < codes2.len() ==> codes1[i] == codes2[i],
        at_least(limit2, limit1),
    ensures
        codes1.len() <= codes2.len(),
        ranks_up_to(bits, r1, r2),
{
    let k = codes2.len() - 1;
    if codes2.len() < codes1.len() {
        assert(codes1[k] == codes2[k]);
        assert(at_least(codes1[k], limit1));
    }
    let i = codes1.len() - 1;
    assert(order[i] == r1 && order[k] == r2);
}

/// Numbers that are scaled by `m` keep their order.
pub open spec fn keeps_order<T, A: Arithmetic<T>>(m: T) -> bool {
    forall|a: T, x: T, ca: u32, cx: u32, b: T, y: T, cb: u32, cy: u32|
        #[trigger]
        times::<T, A>(a, m, x) && #[trigger] times::<T, A>(b, m, y) && #[trigger] encodes::<T, A>(
            a,
            ca,
        ) && #[trigger] encodes::<T, A>(b, cb) && #[trigger] encodes::<T, A>(x, cx)
            && #[trigger] encodes::<T, A>(y, cy) && at_least(ca, cb) ==> at_least(cx, cy)
}

/// A larger draw never gives a more likely token, if scaling by the weight `m` that the draws are
/// scaled by keeps the order of numbers.
pub proof fn law_larger_draw_gives_no_earlier_rank<T, A: Arithmetic<T>>(
    x: Seq<T>,
    top_p: T,
    top_k: u32,
    temperature: T,
    m: T,
    draw1: T,
    code1: u32,
    t1: SampleTrace<T>,
    r1: u32,
    draw2: T,
    code2: u32,
    t2: SampleTrace<T>,
    r2: u32,
)
    requires
        determined::<T, A>(),
        keeps_order::<T, A>(m),
        x.len() > 0,
        sample_steps::<T, A>(x, top_p, top_k, temperature, draw1, t1, Some(r1)),
        sample_steps::<T, A>(x, top_p, top_k, temperature, draw2, t2, Some(r2)),
        times::<T, A>(draw1, m, t1.limit),
        times::<T, A>(draw2, m, t2.limit),
        encodes::<T, A>(draw1, code1),
        encodes::<T, A>(draw2, code2),
        at_least(code2, code1),
    ensures
        ranks_up_to(t1.bits, r1, r2),
{
    assert(encodes::<T, A>(t1.limit, t1.limit_bits) && encodes::<T, A>(t2.limit, t2.limit_bits));
    assert(at_least(t2.limit_bits, t1.limit_bits));
    lemma_same_scores::<T, A>(
        x,
        top_p,
        top_k,
        temperature,
        draw1,
        t1,
        Some(r1),
        draw2,
        t2,
        Some(r2),
    );
    assert forall|i: int|
        0 <= i < t1.codes.len() && i < t2.codes.len() implies t1.codes[i] == t2.codes[i] by {
        assert(encodes::<T, A>(t1.sums[i], t1.codes[i]));
        assert(encodes::<T, A>(t2.sums[i], t2.codes[i]));
    }
    law_larger_limit_gives_no_earlier_rank::<T, A>(
        t1.bits,
        t1.order,
        t1.sums,
        t1.limit_bits,
        t1.codes,
        r1,
        t2.limit_bits,
        t2.codes,
        r2,
    );
}

/// A draw of which the limit is no larger than the weight of the most likely token gives that
/// token: the first of the largest.
pub proof fn law_small_draw_gives_the_most_likely<T, A: Arithmetic<T>>(
    x: Seq<T>,
    top_p: T,
    top_k: u32,
    temperature: T,
    draw: T,
    t: SampleTrace<T>,
    r: u32,
    u: u32,
)
    requires
        sample_steps::<T, A>(x, top_p, top_k, temperature, draw, t, Some(r)),
        forall|code: u32| #[trigger]
            encodes::<T, A>(t.sums[0], code) ==> at_least(code, t.limit_bits),
        u < x.len(),
    ensures
        r == t.order[0],
        ranks_up_to(t.bits, r, u),
{
    assert(encodes::<T, A>(t.sums[0], t.codes[0]));
    assert(t.codes.len() == 1);
    let k = lemma_ranked(t.bits, t.order, u);
    if k > 0 {
        assert(t.order[0] != t.order[k]);
    }
}

/// No position has weight on a later one.
pub proof fn law_no_weight_on_later_positions<T, A: Arithmetic<T>>(
    y0: Seq<T>,
    rows: int,
    seq_len: int,
    total: int,
    y1: Seq<T>,
    r: int,
    j: int,
)
    requires
        1 <= seq_len <= total,
        y0.len() == rows * total,
        softmaxed::<T, A>(y0, rows, seq_len, total, y1),
        0 <= r < rows,
        visible(seq_len, total, r) <= j < total,
    ensures
        is_zero::<T, A>(at(y1, total, r, j)),
{
    lemma_row_bound(rows, total, r);
    let weights = row(y1, total, r);
    assert(softmax_row::<T, A>(row(y0, total, r), visible(seq_len, total, r), weights));
    assert(0 <= visible(seq_len, total, r)) by (nonlinear_arith)
        requires
            1 <= seq_len <= total,
            visible(seq_len, total, r) == total - seq_len + r % seq_len + 1,
    ;
    assert(weights[j] == at(y1, total, r, j));
}

/// The weights of a position are not influenced by later ones: if two calls agree on the queries
/// up to new position `i` and on the keys that it sees, they agree on its weights, and nothing
/// that it does not see has a weight.
pub proof fn law_weights_ignore_later_positions<T, A: Arithmetic<T>>(
    dims: Heads,
    q1: Seq<T>,
    k1: Seq<T>,
    v1: Seq<T>,
    att1: Seq<T>,
    h01: Seq<T>,
    h11: Seq<T>,
    q2: Seq<T>,
    k2: Seq<T>,
    v2: Seq<T>,
    att2: Seq<T>,
    h02: Seq<T>,
    h12: Seq<T>,
    i: int,
    h: int,
)
    requires
        determined::<T, A>(),
        dims.valid(),
        attended::<T, A>(q1, k1, v1, dims, att1, h01, h11),
        attended::<T, A>(q2, k2, v2, dims, att2, h02, h12),
        dims.outputs() * dims.dqkv <= q1.len(),
        dims.outputs() * dims.dqkv <= q2.len(),
        dims.total * dims.n_kv_h * dims.dqkv <= k1.len(),
        dims.total * dims.n_kv_h * dims.dqkv <= k2.len(),
        0 <= i < dims.seq_len,
        0 <= h < dims.queries(),
        same_positions(q1, q2, dims.queries(), dims.dqkv, i + 1),
        same_positions(k1, k2, dims.n_kv_h, dims.dqkv, dims.seen(i)),
    ensures
        weights_of(att1, dims, h, i) == weights_of(att2, dims, h, i),
        forall|j: int|
            dims.seen(i) <= j < dims.total ==> is_zero::<T, A>(
                #[trigger] weights_of(att1, dims, h, i)[j],
            ),
{
    lemma_same_positions(q1, q2, dims.queries(), dims.dqkv, dims.seq_len, i + 1);
    lemma_same_positions(k1, k2, dims.n_kv_h, dims.dqkv, dims.total, dims.seen(i));
    assert(head_vector(q1, dims.dqkv, dims.queries(), i, h) == head_vector(
        q2,
        dims.dqkv,
        dims.queries(),
        i,
        h,
    ));
    lemma_weights::<T, A>(
        q1,
        k1,
        v1,
        dims,
        att1,
        h01,
        h11,
        i,
        q2,
        k2,
        v2,
        dims,
        att2,
        h02,
        h12,
        i,
        h,
    );
    let w1 = weights_of(att1, dims, h, i);
    let w2 = weights_of(att2, dims, h, i);
    let n = dims.seen(i);
    assert forall|j: int| 0 <= j < dims.total implies w1[j] == w2[j] by {
        if j < n {
            assert(w1.take(n)[j] == w2.take(n)[j]);
        } else {
            assert(is_zero::<T, A>(w1[j]) && is_zero::<T, A>(w2[j]));
        }
    }
    assert(w1 =~= w2);
}

/// No position of attention is influenced by a later one: the output of query head `h` at new
/// position `i` is what its query makes of the keys and values that it sees, and the others do not
/// occur in that. What a value with the weight 0 adds must be nothing.
pub proof fn law_outputs_are_computed_from_what_is_seen<T, A: Arithmetic<T>>(
    dims: Heads,
    q: Seq<T>,
    k: Seq<T>,
    v: Seq<T>,
    att: Seq<T>,
    h0: Seq<T>,
    h1: Seq<T>,
    i: int,
    h: int,
)
    requires
        dims.valid(),
        dims.dqkv <= usize::MAX,
        dims.total * dims.n_kv_h * dims.dqkv <= v.len(),
        attended::<T, A>(q, k, v, dims, att, h0, h1),
        0 <= i < dims.seq_len,
        0 <= h < dims.queries(),
        forall|j: int, kv: int, p: int|
            dims.seen(i) <= j < dims.total && 0 <= kv < dims.n_kv_h && 0 <= p < dims.dqkv
                ==> ignored::<T, A>(#[trigger] at(v, dims.dqkv, j * dims.n_kv_h + kv, p)),
    ensures
        attended_to::<T, A>(
            head_vector(q, dims.dqkv, dims.queries(), i, h),
            head_vectors(k, dims.dqkv, dims.n_kv_h, h / dims.n_groups, dims.seen(i)),
            head_vectors(v, dims.dqkv, dims.n_kv_h, h / dims.n_groups, dims.seen(i)),
            dims.dqkv as usize,
            row(h1, dims.dqkv, i * dims.queries() + h),
        ),
{
    lemma_attended_to::<T, A>(q, k, v, dims, att, h0, h1, i, h);
}

/// No position of attention is influenced by a later one: if two calls agree on the queries up to
/// new position `i0` and on the keys and values that it sees, they agree on the outputs up to
/// `i0`. What a value with the weight 0 adds must be nothing.
pub proof fn law_attention_ignores_later_positions<T, A: Arithmetic<T>>(
    dims: Heads,
    q1: Seq<T>,
    k1: Seq<T>,
    v1: Seq<T>,
    att1: Seq<T>,
    h01: Seq<T>,
    h11: Seq<T>,
    q2: Seq<T>,
    k2: Seq<T>,
    v2: Seq<T>,
    att2: Seq<T>,
    h02: Seq<T>,
    h12: Seq<T>,
    i0: int,
)
    requires
        determined::<T, A>(),
        dims.valid(),
        attended::<T, A>(q1, k1, v1, dims, att1, h01, h11),
        attended::<T, A>(q2, k2, v2, dims, att2, h02, h12),
        dims.outputs() * dims.dqkv <= q1.len(),
        dims.outputs() * dims.dqkv <= q2.len(),
        dims.outputs() * dims.dqkv <= h01.len(),
        dims.outputs() * dims.dqkv <= h02.len(),
        dims.total * dims.n_kv_h * dims.dqkv <= k1.len(),
        dims.total * dims.n_kv_h * dims.dqkv <= k2.len(),
        dims.total * dims.n_kv_h * dims.dqkv <= v1.len(),
        dims.total * dims.n_kv_h * dims.dqkv <= v2.len(),
        0 <= i0 < dims.seq_len,
        same_positions(q1, q2, dims.queries(), dims.dqkv, i0 + 1),
        same_positions(k1, k2, dims.n_kv_h, dims.dqkv, dims.seen(i0)),
        same_positions(v1, v2, dims.n_kv_h, dims.dqkv, dims.seen(i0)),
        forall|x: int|
            dims.seen(0) * dims.n_kv_h * dims.dqkv <= x < dims.total * dims.n_kv_h * dims.dqkv
                ==> ignored::<T, A>(#[trigger] v1[x]),
        forall|x: int|
            dims.seen(0) * dims.n_kv_h * dims.dqkv <= x < dims.total * dims.n_kv_h * dims.dqkv
                ==> ignored::<T, A>(#[trigger] v2[x]),
    ensures
        same_positions(h11, h12, dims.queries(), dims.dqkv, i0 + 1),
{
    let heads = dims.queries();
    let d = dims.dqkv;
    let rows = (i0 + 1) * heads;
    let n_kv_h = dims.n_kv_h;
    let total = dims.total;
    assert(0 <= heads) by (nonlinear_arith)
        requires
            heads == dims.n_kv_h * dims.n_groups,
            0 <= dims.n_kv_h,
            0 <= dims.n_groups,
    ;
    assert(0 <= rows) by (nonlinear_arith)
        requires
            rows == (i0 + 1) * heads,
            0 <= i0,
            0 <= heads,
    ;
    lemma_same_positions(q1, q2, heads, d, dims.seq_len, i0 + 1);
    lemma_same_positions(k1, k2, n_kv_h, d, total, dims.seen(i0));
    lemma_same_positions(v1, v2, n_kv_h, d, total, dims.seen(i0));
    lemma_fewer_positions(dims.seq_len, i0 + 1, heads, d);
    assert forall|j: int, kv: int, p: int|
        dims.seen(0) <= j < total && 0 <= kv < n_kv_h && 0 <= p < d implies ignored::<T, A>(
        #[trigger] at(v1, d, j * n_kv_h + kv, p),
    ) by {
        lemma_fewer_positions(j, dims.seen(0), n_kv_h, d);
        assert(j * n_kv_h * d <= (j * n_kv_h + kv) * d) by (nonlinear_arith)
            requires
                0 <= kv,
                0 <= d,
        ;
        lemma_flat_bound(total, n_kv_h, j, kv);
        lemma_flat_bound(total * n_kv_h, d, j * n_kv_h + kv, p);
    }
    assert forall|j: int, kv: int, p: int|
        dims.seen(0) <= j < total && 0 <= kv < n_kv_h && 0 <= p < d implies ignored::<T, A>(
        #[trigger] at(v2, d, j * n_kv_h + kv, p),
    ) by {
        lemma_fewer_positions(j, dims.seen(0), n_kv_h, d);
        assert(j * n_kv_h * d <= (j * n_kv_h + kv) * d) by (nonlinear_arith)
            requires
                0 <= kv,
                0 <= d,
        ;
        lemma_flat_bound(total, n_kv_h, j, kv);
        lemma_flat_bound(total * n_kv_h, d, j * n_kv_h + kv, p);
    }
    assert forall|x: int| 0 <= x < rows * d implies h11[x] == h12[x] by {
        lemma_place(rows, d, x);
        let r = x / d;
        lemma_place(i0 + 1, heads, r);
        let i = r / heads;
        let h = r % heads;
        assert(head_vector(q1, d, heads, i, h) == head_vector(q2, d, heads, i, h));
        lemma_attended_row::<T, A>(
            q1,
            k1,
            v1,
            dims,
            att1,
            h01,
            h11,
            i,
            q2,
            k2,
            v2,
            dims,
            att2,
            h02,
            h12,
            i,
            h,
        );
        lemma_row_bound(rows, d, r);
        assert(row(h11, d, r)[x % d] == h11[x]);
        assert(row(h12, d, r)[x % d] == h12[x]);
    }
    assert(h11.take(rows * d) =~= h12.take(rows * d));
}

/// The rotation of a token's vectors depends on its absolute position only: what it can be among
/// other tokens, it can be for the token alone.
pub proof fn law_rotation_depends_on_the_position<T, A: Arithmetic<T>>(
    y0: Seq<T>,
    seq_len: int,
    n_heads: int,
    d: usize,
    start: int,
    theta: T,
    y1: Seq<T>,
    t: int,
)
    requires
        0 <= start,
        0 <= n_heads,
        0 <= t < seq_len,
        y0.len() == seq_len * n_heads * d,
        rotated::<T, A>(y0, seq_len * n_heads, n_heads, d, start, theta, y1),
    ensures
        rotated::<T, A>(
            token_rows(y0, n_heads, d as int, t),
            n_heads,
            n_heads,
            d,
            start + t,
            theta,
            token_rows(y1, n_heads, d as int, t),
        ),
{
    let z0 = token_rows(y0, n_heads, d as int, t);
    let z1 = token_rows(y1, n_heads, d as int, t);
    lemma_token_rows(y0, seq_len, n_heads, d as int, t);
    lemma_token_rows(y1, seq_len, n_heads, d as int, t);
    assert forall|r: int, i: int| 0 <= r < n_heads && 0 <= i < d / 2 implies pair_rotated::<T, A>(
        (start + t + r / n_heads) as usize,
        i as usize,
        d,
        theta,
        at(z0, d as int, r, i),
        at(z0, d as int, r, i + d / 2),
        #[trigger] at(z1, d as int, r, i),
        at(z1, d as int, r, i + d / 2),
    ) by {
        let k = t * n_heads + r;
        lemma_fundamental_div_mod_converse(k, n_heads, t, r);
        lemma_fundamental_div_mod_converse(r, n_heads, 0, r);
        lemma_token_row(y0, seq_len, n_heads, d as int, t, r, i);
        lemma_token_row(y0, seq_len, n_heads, d as int, t, r, i + d / 2);
        lemma_token_row(y1, seq_len, n_heads, d as int, t, r, i);
        lemma_token_row(y1, seq_len, n_heads, d as int, t, r, i + d / 2);
    }
    assert forall|r: int, i: int|
        0 <= r < n_heads && (d / 2) * 2 <= i < d implies #[trigger] at(z1, d as int, r, i) == at(
        z0,
        d as int,
        r,
        i,
    ) by {
        lemma_token_row(y0, seq_len, n_heads, d as int, t, r, i);
        lemma_token_row(y1, seq_len, n_heads, d as int, t, r, i);
    }
}

/// With arithmetic that is determined, the vectors of a token come out of the rotation of all
/// tokens as they come out of the rotation of that token alone, at the same absolute position.
pub proof fn law_tokens_are_rotated_alone<T, A: Arithmetic<T>>(
    y0: Seq<T>,
    seq_len: int,
    n_heads: int,
    d: usize,
    start: int,
    theta: T,
    y1: Seq<T>,
    t: int,
    z1: Seq<T>,
)
    requires
        determined::<T, A>(),
        0 <= start,
        0 <= n_heads,
        0 <= t < seq_len,
        y0.len() == seq_len * n_heads * d,
        rotated::<T, A>(y0, seq_len * n_heads, n_heads, d, start, theta, y1),
        rotated::<T, A>(
            token_rows(y0, n_heads, d as int, t),
            n_heads,
            n_heads,
            d,
            start + t,
            theta,
            z1,
        ),
    ensures
        token_rows(y1, n_heads, d as int, t) == z1,
{
    law_rotation_depends_on_the_position::<T, A>(y0, seq_len, n_heads, d, start, theta, y1, t);
    lemma_token_rows(y0, seq_len, n_heads, d as int, t);
    lemma_rotated::<T, A>(
        token_rows(y0, n_heads, d as int, t),
        n_heads,
        n_heads,
        d,
        start + t,
        theta,
        token_rows(y1, n_heads, d as int, t),
        z1,
    );
}

/// Turning the entries of `s` by the angle of position 0 is harmless: 0 over a power of `theta` is
/// 0, the sine of 0 is 0 and its cosine 1, and for the entries factors 1 and products with 0 change
/// nothing.
pub open spec fn zero_angle_is_harmless<T, A: Arithmetic<T>>(theta: T, s: Seq<T>) -> bool {
    &&& forall|n: T| #[trigger] is_number::<T, A>(0, n) ==> is_zero::<T, A>(n)
    &&& forall|z: T, e: T, w: T, f: T|
        is_zero::<T, A>(z) && #[trigger] is_power::<T, A>(theta, e, w) && #[trigger] over::<T, A>(
            z,
            w,
            f,
        ) ==> is_zero::<T, A>(f)
    &&& forall|z: T, s: T, c: T|
        is_zero::<T, A>(z) && #[trigger] is_sin_cos::<T, A>(z, s, c) ==> is_zero::<T, A>(s)
            && is_one::<T, A>(c)
    &&& forall|i: int, o: T, r: T|
        0 <= i < s.len() && is_one::<T, A>(o) && #[trigger] times::<T, A>(s[i], o, r) ==> r == s[i]
    &&& forall|i: int, j: int, z: T, m: T, r: T|
        0 <= i < s.len() && 0 <= j < s.len() && is_zero::<T, A>(z) && #[trigger] times::<T, A>(
            s[i],
            z,
            m,
        ) && #[trigger] plus::<T, A>(s[j], m, r) ==> r == s[j]
    &&& forall|i: int, j: int, z: T, m: T, r: T|
        0 <= i < s.len() && 0 <= j < s.len() && is_zero::<T, A>(z) && #[trigger] times::<T, A>(
            s[i],
            z,
            m,
        ) && #[trigger] minus::<T, A>(s[j], m, r) ==> r == s[j]
}

/// Turning two entries by 0 changes nothing.
proof fn lemma_harmless_turn<T, A: Arithmetic<T>>(
    theta: T,
    s: Seq<T>,
    f: T,
    i: int,
    j: int,
    a1: T,
    b1: T,
)
    requires
        zero_angle_is_harmless::<T, A>(theta, s),
        is_zero::<T, A>(f),
        0 <= i < s.len(),
        0 <= j < s.len(),
        turned::<T, A>(f, s[i], s[j], a1, b1),
    ensures
        a1 == s[i],
        b1 == s[j],
{
}

/// The token at position 0 is not rotated.
pub proof fn law_first_position_is_not_rotated<T, A: Arithmetic<T>>(
    y0: Seq<T>,
    seq_len: int,
    n_heads: int,
    d: usize,
    theta: T,
    y1: Seq<T>,
)
    requires
        zero_angle_is_harmless::<T, A>(theta, token_rows(y0, n_heads, d as int, 0)),
        0 <= n_heads,
        0 < seq_len,
        y0.len() == seq_len * n_heads * d,
        rotated::<T, A>(y0, seq_len * n_heads, n_heads, d, 0, theta, y1),
    ensures
        token_rows(y1, n_heads, d as int, 0) == token_rows(y0, n_heads, d as int, 0),
{
    law_rotation_depends_on_the_position::<T, A>(y0, seq_len, n_heads, d, 0, theta, y1, 0);
    let z0 = token_rows(y0, n_heads, d as int, 0);
    let z1 = token_rows(y1, n_heads, d as int, 0);
    lemma_token_rows(y0, seq_len, n_heads, d as int, 0);
    let n = d as int;
    assert forall|x: int| 0 <= x < z0.len() implies z1[x] == z0[x] by {
        let r = x / n;
        let i = x % n;
        lemma_place(n_heads, n, x);
        lemma_fundamental_div_mod_converse(r, n_heads, 0, r);
        assert(z1[x] == at(z1, n, r, i) && z0[x] == at(z0, n, r, i));
        if i < (d / 2) * 2 {
            let j = if i < d / 2 {
                i
            } else {
                i - d / 2
            };
            assert(at(z1, n, r, j) == z1[r * n + j]);
            let a0 = at(z0, n, r, j);
            let b0 = at(z0, n, r, j + d / 2);
            let a1 = at(z1, n, r, j);
            let b1 = at(z1, n, r, j + d / 2);
            assert(pair_rotated::<T, A>(0, j as usize, d, theta, a0, b0, a1, b1));
            let f = choose|f: T| #[trigger]
                is_angle::<T, A>(0, j as usize, d, theta, f) && turned::<T, A>(f, a0, b0, a1, b1);
            assert(is_zero::<T, A>(f));
            lemma_flat_bound(n_heads, n, r, j);
            lemma_flat_bound(n_heads, n, r, j + d / 2);
            lemma_harmless_turn::<T, A>(
                theta,
                z0,
                f,
                r * n + j,
                r * n + (j + d / 2),
                a1,
                b1,
            );
        }
    }
    assert(z1 =~= z0);
}

/// Reading the rows of the cache that were just stored gives back what was stored.
pub proof fn law_stored_rows_are_read_back<T>(s: Seq<T>, start: int, values: Seq<T>)
    requires
        0 <= start,
        start + values.len() <= s.len(),
    ensures
        overwritten(s, start, values).subrange(start, start + values.len()) == values,
{
}

/// A continuation holds at most `max_len` tokens of the vocabulary, and the end token only as the
/// last of them.
pub proof fn law_continuation<T: Default, A: Arithmetic<T> + Widen<T, T>>(
    model: &Llama<T>,
    first: u32,
    c0: KVCache<T>,
    max_len: int,
    how: Sampling<T>,
    picks: Seq<u32>,
    done: bool,
    c1: KVCache<T>,
)
    requires
        model.continued::<A>(first, c0, max_len, how, picks, done, c1),
    ensures
        picks.len() <= max_len,
        forall|i: int| 0 <= i < picks.len() ==> #[trigger] picks[i] < model.vocab,
        forall|i: int| 0 <= i < picks.len() - 1 ==> #[trigger] picks[i] != model.eos_token_id,
        done && picks.len() < max_len ==> picks.len() > 0 && picks.last() == model.eos_token_id,
{
    let caches = choose|caches: Seq<KVCache<T>>|
        caches[0] == c0 && #[trigger] model.continues::<A>(
            first,
            caches,
            max_len,
            how,
            picks,
            done,
            c1,
        );
    assert forall|i: int| 0 <= i < picks.len() implies #[trigger] picks[i] < model.vocab by {
        assert(model.picked_at::<A>(first, caches, how, picks, i));
        let logits = choose|logits: Seq<T>| #[trigger]
            model.passed::<A>(
                seq![token_before(first, picks, i)],
                caches[i],
                caches[i + 1],
                logits,
            ) && chosen::<T, A>(logits, how.top_p, how.top_k, how.temperature, Some(picks[i]));
        law_choice_is_in_range::<T, A>(logits, how.top_p, how.top_k, how.temperature, picks[i]);
    }
}

/// Generation continues the text that it starts from, by at most `max_len` tokens of the
/// vocabulary, and stops early only at the end token, which can only come last.
pub proof fn law_generated_text<T: Default, A: Arithmetic<T> + Widen<T, T>>(
    model: &Llama<T>,
    token_ids: Seq<u32>,
    c0: KVCache<T>,
    max_len: int,
    how: Sampling<T>,
    result: Seq<u32>,
)
    requires
        model.generated::<A>(token_ids, c0, max_len, how, Some(result)),
    ensures
        ({
            let n = model.start_text(token_ids).len() as int;
            &&& n <= result.len() <= n + max_len
            &&& result.take(n) == model.start_text(token_ids)
            &&& forall|i: int| n <= i < result.len() ==> #[trigger] result[i] < model.vocab
            &&& forall|i: int|
                n <= i < result.len() - 1 ==> #[trigger] result[i] != model.eos_token_id
            &&& result.len() < n + max_len ==> n < result.len() && result.last()
                == model.eos_token_id
        }),
{
    let text = model.start_text(token_ids);
    let (logits, c, picks, done, c1) = choose|
        logits: Seq<T>,
        c: KVCache<T>,
        picks: Seq<u32>,
        done: bool,
        c1: KVCache<T>,
    | #[trigger]
        model.passed::<A>(text, c0, c, logits) && #[trigger] model.continued::<A>(
            text.last(),
            c,
            max_len,
            how,
            picks,
            done,
            c1,
        ) && match Some(result) {
            Some(result) => done && result == text + picks,
            None => !done,
        };
    law_continuation::<T, A>(model, text.last(), c, max_len, how, picks, done, c1);
    lemma_after_text(text, picks, model.eos_token_id, model.vocab as int);
}

/// What holds of the choices holds of them behind the text.
proof fn lemma_after_text(text: Seq<u32>, picks: Seq<u32>, end: u32, vocab: int)
    requires
        forall|i: int| 0 <= i < picks.len() ==> #[trigger] picks[i] < vocab,
        forall|i: int| 0 <= i < picks.len() - 1 ==> #[trigger] picks[i] != end,
    ensures
        (text + picks).take(text.len() as int) == text,
        forall|i: int|
            text.len() <= i < text.len() + picks.len() ==> #[trigger] (text + picks)[i] < vocab,
        forall|i: int|
            text.len() <= i < text.len() + picks.len() - 1 ==> #[trigger] (text + picks)[i] != end,
        picks.len() > 0 ==> (text + picks).last() == picks.last(),
{
    assert((text + picks).take(text.len() as int) =~= text);
}

/// Without the end token, choices that have it only as the last of them do not have it.
proof fn lemma_without_end(picks: Seq<u32>, end: u32)
    requires
        forall|i: int| 0 <= i < picks.len() - 1 ==> #[trigger] picks[i] != end,
    ensures
        without_end(picks, end).len() <= picks.len(),
        forall|i: int|
            0 <= i < without_end(picks, end).len() ==> #[trigger] without_end(picks, end)[i]
                == picks[i] && picks[i] != end,
{
}

/// A reply holds at most `max_len` tokens of the vocabulary, and no end token.
pub proof fn law_reply<T: Default, A: Arithmetic<T> + Widen<T, T>>(
    model: Llama<T>,
    prompt: Seq<u32>,
    c0: KVCache<T>,
    max_len: int,
    how: Sampling<T>,
    reply: Seq<u32>,
    c1: KVCache<T>,
)
    requires
        ChatSession::<T>::replied::<A>(model, prompt, c0, max_len, how, Some(reply), c1),
    ensures
        reply.len() <= max_len,
        forall|i: int|
            0 <= i < reply.len() ==> #[trigger] reply[i] != model.eos_token_id && reply[i]
                < model.vocab,
{
    let (logits, c, picks, done) = choose|
        logits: Seq<T>,
        c: KVCache<T>,
        picks: Seq<u32>,
        done: bool,
    | #[trigger]
        model.passed::<A>(prompt, c0, c, logits) && #[trigger] model.continued::<A>(
            prompt.last(),
            c,
            max_len,
            how,
            picks,
            done,
            c1,
        ) && match Some(reply) {
            Some(reply) => done && reply == without_end(picks, model.eos_token_id),
            None => !done,
        };
    law_continuation::<T, A>(&model, prompt.last(), c, max_len, how, picks, done, c1);
    lemma_without_end(picks, model.eos_token_id);
}

/// The prompt, the reply, and the end token if the reply stopped early.
pub open spec fn with_end(prompt: Seq<u32>, reply: Seq<u32>, max_len: int, end: u32) -> Seq<u32> {
    prompt + reply + if reply.len() < max_len {
        seq![end]
    } else {
        Seq::empty()
    }
}

/// Choices that came to their end are the reply, and the end token if they stopped early.
proof fn lemma_with_end(prompt: Seq<u32>, picks: Seq<u32>, max_len: int, end: u32)
    requires
        picks.len() <= max_len,
        picks.len() == max_len || (picks.len() > 0 && picks.last() == end),
    ensures
        prompt + picks == with_end(prompt, without_end(picks, end), max_len, end),
{
    assert(prompt + picks =~= with_end(prompt, without_end(picks, end), max_len, end));
}

/// What generation makes of a prompt is the prompt, what a chat can reply to it, and the end token
/// if that stopped early.
pub proof fn law_generated_text_is_prompt_and_reply<T: Default, A: Arithmetic<T> + Widen<T, T>>(
    model: Llama<T>,
    prompt: Seq<u32>,
    c0: KVCache<T>,
    max_len: int,
    how: Sampling<T>,
    result: Seq<u32>,
)
    requires
        prompt.len() > 0,
        model.generated::<A>(prompt, c0, max_len, how, Some(result)),
    ensures
        exists|reply: Seq<u32>, c1: KVCache<T>| #[trigger]
            ChatSession::<T>::replied::<A>(model, prompt, c0, max_len, how, Some(reply), c1)
                && result == with_end(prompt, reply, max_len, model.eos_token_id),
{
    let (logits, c, picks, done, c1) = choose|
        logits: Seq<T>,
        c: KVCache<T>,
        picks: Seq<u32>,
        done: bool,
        c1: KVCache<T>,
    | #[trigger]
        model.passed::<A>(prompt, c0, c, logits) && #[trigger] model.continued::<A>(
            prompt.last(),
            c,
            max_len,
            how,
            picks,
            done,
            c1,
        ) && match Some(result) {
            Some(result) => done && result == prompt + picks,
            None => !done,
        };
    law_continuation::<T, A>(&model, prompt.last(), c, max_len, how, picks, done, c1);
    lemma_with_end(prompt, picks, max_len, model.eos_token_id);
    let reply = without_end(picks, model.eos_token_id);
    assert(ChatSession::<T>::replied::<A>(model, prompt, c0, max_len, how, Some(reply), c1));
}

/// What a chat can reply to a prompt, behind the prompt and with the end token if it stopped
/// early, is what generation can make of the prompt.
pub proof fn law_prompt_and_reply_can_be_generated<T: Default, A: Arithmetic<T> + Widen<T, T>>(
    model: Llama<T>,
    prompt: Seq<u32>,
    c0: KVCache<T>,
    max_len: int,
    how: Sampling<T>,
    reply: Seq<u32>,
    c1: KVCache<T>,
)
    requires
        prompt.len() > 0,
        ChatSession::<T>::replied::<A>(model, prompt, c0, max_len, how, Some(reply), c1),
    ensures
        model.generated::<A>(
            prompt,
            c0,
            max_len,
            how,
            Some(with_end(prompt, reply, max_len, model.eos_token_id)),
        ),
{
    let (logits, c, picks, done) = choose|
        logits: Seq<T>,
        c: KVCache<T>,
        picks: Seq<u32>,
        done: bool,
    | #[trigger]
        model.passed::<A>(prompt, c0, c, logits) && #[trigger] model.continued::<A>(
            prompt.last(),
            c,
            max_len,
            how,
            picks,
            done,
            c1,
        ) && match Some(reply) {
            Some(reply) => done && reply == without_end(picks, model.eos_token_id),
            None => !done,
        };
    law_continuation::<T, A>(&model, prompt.last(), c, max_len, how, picks, done, c1);
    lemma_with_end(prompt, picks, max_len, model.eos_token_id);
    assert(model.passed::<A>(prompt, c0, c, logits));
    assert(model.continued::<A>(prompt.last(), c, max_len, how, picks, done, c1));
}

/// With arithmetic that is determined and choices without chance, generation gives the prompt, the
/// reply of a chat in a new session, and the end token if that stopped early.
pub proof fn law_generation_and_chat_agree<T: Default, A: Arithmetic<T> + Widen<T, T>>(
    model: Llama<T>,
    prompt: Seq<u32>,
    max_len: int,
    how: Sampling<T>,
    c0: KVCache<T>,
    result: Seq<u32>,
    e0: KVCache<T>,
    reply: Seq<u32>,
    e1: KVCache<T>,
)
    requires
        all_determined::<T, A>(),
        is_cold::<T, A>(how),
        model.consistent(),
        prompt.len() > 0,
        model.is_empty_cache(c0),
        model.generated::<A>(prompt, c0, max_len, how, Some(result)),
        model.is_empty_cache(e0),
        ChatSession::<T>::replied::<A>(model, prompt, e0, max_len, how, Some(reply), e1),
    ensures
        result == with_end(prompt, reply, max_len, model.eos_token_id),
{
    lemma_empty_caches::<T, A>(&model, c0, e0);
    law_prompt_and_reply_can_be_generated::<T, A>(model, prompt, e0, max_len, how, reply, e1);
    lemma_generated::<T, A>(
        &model,
        prompt,
        max_len,
        how,
        c0,
        result,
        e0,
        with_end(prompt, reply, max_len, model.eos_token_id),
    );
}

/// Rolling back to the snapshot that adding a message has made takes the message back.
pub proof fn law_rollback_takes_a_message_back<T>(
    before: ChatSession<T>,
    message: Said,
    added: ChatSession<T>,
    after: ChatSession<T>,
)
    requires
        added.extended_by(before, message),
        after.rolled_back(added, before.versions().len() as int),
    ensures
        after.said() == before.said(),
        after.versions() == before.versions().push(before.said()),
        after.cache == before.cache,
        after.model == before.model,
{
}

/// Rolling back twice to the same snapshot is rolling back once.
pub proof fn law_rollback_is_idempotent<T>(
    before: ChatSession<T>,
    version: int,
    once: ChatSession<T>,
    twice: ChatSession<T>,
)
    requires
        0 <= version,
        once.rolled_back(before, version),
        twice.rolled_back(once, version),
    ensures
        twice.said() == once.said(),
        twice.versions() == once.versions(),
{
}

/// Rolling back in two steps is rolling back to the earlier of the two snapshots.
pub proof fn law_rollbacks_compose<T>(
    before: ChatSession<T>,
    later: int,
    earlier: int,
    between: ChatSession<T>,
    after: ChatSession<T>,
    direct: ChatSession<T>,
)
    requires
        0 <= earlier <= later,
        between.rolled_back(before, later),
        after.rolled_back(between, earlier),
        direct.rolled_back(before, earlier),
    ensures
        after.said() == direct.said(),
        after.versions() == direct.versions(),
{
}

/// The message comes from the user or from the model.
pub open spec fn has_role(m: Said) -> bool {
    m.0 == "user"@ || m.0 == "assistant"@
}

/// Each snapshot is the beginning of the later ones and of the conversation. There are no more
/// messages in it than snapshots before it, and no more in the conversation than snapshots. All
/// messages come from the user or from the model.
pub open spec fn is_history(versions: Seq<Seq<Said>>, said: Seq<Said>) -> bool {
    &&& forall|i: int, j: int|
        0 <= i <= j < versions.len() ==> (#[trigger] versions[i]).is_prefix_of(
            #[trigger] versions[j],
        )
    &&& forall|i: int| 0 <= i < versions.len() ==> (#[trigger] versions[i]).is_prefix_of(said)
    &&& forall|i: int| 0 <= i < versions.len() ==> (#[trigger] versions[i]).len() <= i
    &&& said.len() <= versions.len()
    &&& forall|i: int| 0 <= i < said.len() ==> has_role(#[trigger] said[i])
}

/// Each snapshot is an earlier state of the conversation: so it is in a new session and in one
/// that was cleared, and adding messages of the user and of the model and rolling back keep it so.
pub proof fn law_snapshots_are_earlier_states<T: Default>(
    fresh: ChatSession<T>,
    model: Arc<Llama<T>>,
    before: ChatSession<T>,
    message: Said,
    added: ChatSession<T>,
    version: int,
    back: ChatSession<T>,
)
    requires
        fresh.is_fresh(model),
        is_history(before.versions(), before.said()),
        has_role(message),
        added.extended_by(before, message),
        0 <= version,
        back.rolled_back(before, version),
    ensures
        is_history(fresh.versions(), fresh.said()),
        is_history(added.versions(), added.said()),
        is_history(back.versions(), back.said()),
{
    let vs = before.versions();
    let more = added.versions();
    assert forall|i: int| 0 <= i < more.len() implies (#[trigger] more[i]).is_prefix_of(
        added.said(),
    ) by {
        if i < vs.len() {
            assert(more[i] == vs[i]);
            assert(vs[i].is_prefix_of(before.said()));
        }
    }
    assert forall|i: int| 0 <= i < more.len() implies (#[trigger] more[i]).len() <= i by {
        if i < vs.len() {
            assert(more[i] == vs[i]);
        }
    }
    assert forall|i: int| 0 <= i < added.said().len() implies has_role(
        #[trigger] added.said()[i],
    ) by {
        if i < before.said().len() {
            assert(added.said()[i] == before.said()[i]);
        }
    }
    assert forall|i: int, j: int| 0 <= i <= j < more.len() implies (
    #[trigger] more[i]).is_prefix_of(#[trigger] more[j]) by {
        if i < vs.len() {
            assert(more[i] == vs[i]);
            if j < vs.len() {
                assert(more[j] == vs[j]);
            }
        }
    }
    if version < vs.len() {
        let less = back.versions();
        assert forall|i: int, j: int| 0 <= i <= j < less.len() implies (
        #[trigger] less[i]).is_prefix_of(#[trigger] less[j]) by {
            assert(less[i] == vs[i] && less[j] == vs[j]);
        }
        assert forall|i: int| 0 <= i < less.len() implies (#[trigger] less[i]).is_prefix_of(
            back.said(),
        ) && less[i].len() <= i by {
            assert(less[i] == vs[i]);
        }
        assert(vs[version].is_prefix_of(before.said()));
        assert forall|i: int| 0 <= i < back.said().len() implies has_role(
            #[trigger] back.said()[i],
        ) by {
            assert(back.said()[i] == before.said()[i]);
        }
    }
}

/// A message leaves what the model reads of the messages before it unchanged, and the prompt
/// always ends where the reply begins.
pub proof fn law_prompt_grows_at_its_end(said: Seq<Said>, message: Said)
    ensures
        rendered_all(said.push(message)) == rendered_all(said) + rendered(message),
        rendered_all(said).is_prefix_of(prompt_for(said.push(message))),
        "<|im_start|>assistant\n"@.is_suffix_of(prompt_for(said)),
{
    assert(said.push(message).drop_last() =~= said);
    let tag = "<|im_start|>assistant\n"@;
    let all = prompt_for(said);
    assert(all.subrange(all.len() - tag.len(), all.len() as int) =~= tag);
}

/// With tied embeddings the scores are computed with the embeddings themselves.
pub proof fn law_tied_embeddings_are_shared<T, A: Arithmetic<T>>(
    params: LLamaParams<T>,
    archive: Map<Seq<char>, (Seq<usize>, Seq<u8>)>,
    n: nat,
)
    requires
        params.read_from::<A>(archive, true, n),
    ensures
        params.lm_head.data@ == params.embedding_table.data@,
        params.lm_head.shape@ == params.embedding_table.shape@,
        is_read::<T, A>(archive, "lm_head.weight"@, params.embedding_table),
{
}

/// A session is found again under the identifier it was stored under, and storing it leaves the
/// other sessions alone.
pub proof fn law_stored_session_is_found<S>(
    before: SessionManager<S>,
    after: SessionManager<S>,
    id: Seq<char>,
    session: S,
    other: Seq<char>,
)
    requires
        after@ == before@.insert(id, session),
    ensures
        after@.contains_key(id) && after@[id] == session,
        other != id ==> after@.contains_key(other) == before@.contains_key(other),
        other != id && before@.contains_key(other) ==> after@[other] == before@[other],
{
}

} // verus!
