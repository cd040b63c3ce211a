//! Bookkeeping of sample sets (Suffern, *Ray Tracing from the Ground Up*,
//! chapter 7.3).
//!
//! A sampler keeps `num_sets` sets of `num_samples` samples in one array.
//! A table of shuffled indices holds, for each set, a random permutation of
//! `0..num_samples`; successive draws walk one set through that permutation
//! and jump to a random set every `num_samples` draws.
use vstd::prelude::*;
use rand::Rng;
use rand::seq::SliceRandom;
use vstd::arithmetic::div_mod::{lemma_fundamental_div_mod, lemma_fundamental_div_mod_converse_mod};

verus! {

broadcast use vstd::seq_lib::group_to_multiset_ensures;

/// rand's `SliceRandom::shuffle` with the thread-local generator: the
/// Fisher-Yates shuffle swaps elements in place, so the result is a
/// permutation of the input.  Which permutation depends on chance and is not
/// stated.
#[verifier::external_body]
fn shuffle_in_place(values: &mut Vec<u32>)
    ensures
        final(values)@.len() == old(values)@.len(),
        final(values)@.to_multiset() == old(values)@.to_multiset(),
{
    values.shuffle(&mut rand::thread_rng());
}

/// rand's `Rng::gen_range(0..bound)` with the thread-local generator: a
/// value below `bound` (it panics on an empty range, so `bound` must be
/// positive).  Which value depends on chance and is not stated.
#[verifier::external_body]
fn random_below(bound: u32) -> (r: u32)
    requires
        bound > 0,
    ensures
        r < bound,
{
    rand::thread_rng().gen_range(0..bound)
}

/// `0, 1, ..., n - 1`.
pub open spec fn iota(n: nat) -> Seq<u32> {
    Seq::new(n, |i: int| i as u32)
}

/// Set `b` of a table of sets of `n` entries.
pub open spec fn block(table: Seq<u32>, n: int, b: int) -> Seq<u32> {
    table.subrange(b * n, b * n + n)
}

/// `table` holds `sets` sets of `n` entries, each a permutation of `0..n`.
pub open spec fn is_shuffle_table(table: Seq<u32>, n: nat, sets: nat) -> bool {
    &&& table.len() == n * sets
    &&& forall|b: int|
        0 <= b < sets ==> (#[trigger] block(table, n as int, b)).to_multiset() == iota(
            n,
        ).to_multiset()
}

proof fn lemma_next_multiple(n: int, t: int)
    ensures
        (t + 1) * n == t * n + n,
        t * n == n * t,
{
    assert((t + 1) * n == t * n + n) by (nonlinear_arith);
    assert(t * n == n * t) by (nonlinear_arith);
}

proof fn lemma_block_bounds(n: int, b: int, t: int)
    requires
        0 <= b < t,
        0 <= n,
    ensures
        0 <= b * n,
        b * n + n <= t * n,
        (t + 1) * n == t * n + n,
{
    assert(0 <= b * n) by (nonlinear_arith)
        requires
            0 <= b,
            0 <= n,
    ;
    assert(b * n + n <= t * n) by (nonlinear_arith)
        requires
            b + 1 <= t,
            0 <= n,
    ;
    assert((t + 1) * n == t * n + n) by (nonlinear_arith);
}

/// The indices `0, 1, ..., n - 1`, the set that each shuffle starts from.
pub fn identity_indices(n: u32) -> (v: Vec<u32>)
    ensures
        v@ == iota(n as nat),
{
    let mut v: Vec<u32> = Vec::with_capacity(n as usize);
    let mut i: u32 = 0;
    while i < n
        invariant
            i <= n,
            v@ == iota(i as nat),
        decreases n - i,
    {
        v.push(i);
        i = i + 1;
        assert(v@ =~= iota(i as nat));
    }
    v
}

/// Appends a shuffled set to the table.
pub fn append_set(table: &mut Vec<u32>, perm: &Vec<u32>)
    ensures
        final(table)@ == old(table)@ + perm@,
{
    let mut j: usize = 0;
    while j < perm.len()
        invariant
            j <= perm.len(),
            table@ == old(table)@ + perm@.take(j as int),
        decreases perm.len() - j,
    {
        table.push(perm[j]);
        j = j + 1;
        assert(table@ =~= old(table)@ + perm@.take(j as int));
    }
    assert(perm@.take(perm.len() as int) =~= perm@);
}

/// Builds the table of shuffled indices: `num_sets` independent random
/// permutations of `0..num_samples`, one after the other.
pub fn setup_shuffled_indices(num_samples: u32, num_sets: u32) -> (table: Vec<u32>)
    requires
        num_samples * num_sets <= u32::MAX,
    ensures
        is_shuffle_table(table@, num_samples as nat, num_sets as nat),
{
    let n = num_samples as usize;
    let total = (num_samples * num_sets) as usize;
    let mut shuffled_indices: Vec<u32> = Vec::with_capacity(total);
    let mut indices = identity_indices(num_samples);
    let mut t: u32 = 0;
    while t < num_sets
        invariant
            t <= num_sets,
            n == num_samples,
            num_samples * num_sets <= u32::MAX,
            indices@.len() == n,
            indices@.to_multiset() == iota(n as nat).to_multiset(),
            shuffled_indices@.len() == t * n,
            forall|b: int|
                0 <= b < t ==> (#[trigger] block(shuffled_indices@, n as int, b)).to_multiset()
                    == iota(n as nat).to_multiset(),
        decreases num_sets - t,
    {
        shuffle_in_place(&mut indices);
        let ghost before = shuffled_indices@;
        proof {
            lemma_next_multiple(n as int, t as int);
            lemma_block_bounds(n as int, t as int, num_sets as int);
        }
        append_set(&mut shuffled_indices, &indices);
        proof {
            assert forall|b: int|
                0 <= b < t + 1 implies (#[trigger] block(
                shuffled_indices@,
                n as int,
                b,
            )).to_multiset() == iota(n as nat).to_multiset() by {
                lemma_block_bounds(n as int, b, t as int + 1);
                if b < t {
                    lemma_block_bounds(n as int, b, t as int);
                    assert(block(shuffled_indices@, n as int, b) =~= block(before, n as int, b));
                } else {
                    assert(block(shuffled_indices@, n as int, b) =~= indices@);
                }
            }
        }
        t = t + 1;
    }
    proof {
        lemma_next_multiple(n as int, num_sets as int);
    }
    shuffled_indices
}

/// `jump` is the start of one of the `sets` sets of `n` entries.
pub open spec fn is_set_start(jump: u32, n: u32, sets: u32) -> bool {
    jump % n == 0 && jump < n * sets
}

proof fn lemma_set_start(r: int, n: int, sets: int)
    requires
        0 <= r < sets,
        n > 0,
    ensures
        (r * n) % n == 0,
        r * n < n * sets,
{
    lemma_fundamental_div_mod_converse_mod(r * n, n, r, 0);
    assert(r * n < n * sets) by (nonlinear_arith)
        requires
            0 <= r < sets,
            n > 0,
    ;
}

/// Drawing from the start of set `r` neither overflows nor leaves the table.
pub open spec fn start_usable(table: Seq<u32>, n: int, r: int) -> bool {
    &&& r * n <= u32::MAX
    &&& r * n < table.len()
    &&& r * n + table[r * n] <= u32::MAX
}

/// When [`sample_index`] runs without overflow or out-of-range access:
/// a positive sample count, a draw counter below its maximum, and, when the
/// draw starts a new set, every set start `r * n` (for `r < sets`) usable;
/// otherwise the current position in the current set usable.
pub open spec fn sample_index_defined(
    num_samples: u32,
    num_sets: u32,
    shuffled_indices: Seq<u32>,
    count: u32,
    jump: u32,
) -> bool {
    &&& num_samples > 0
    &&& count < u32::MAX
    &&& if count % num_samples == 0 {
        &&& num_sets > 0
        &&& forall|r: int|
            0 <= r < num_sets ==> #[trigger] start_usable(shuffled_indices, num_samples as int, r)
    } else {
        let pos = jump + count % num_samples;
        &&& pos <= u32::MAX
        &&& pos < shuffled_indices.len()
        &&& jump + shuffled_indices[pos] <= u32::MAX
    }
}

/// Index of the next sample to use, once the set to move to is known.
/// When the draw counter is a multiple of `num_samples` a new set begins:
/// `jump` moves to the start of set `set`.  The draw then takes the current
/// set's shuffled entry at position `count % num_samples`, offset by
/// `jump`, and the counter advances.
pub fn draw_from_set(
    set: u32,
    num_samples: u32,
    num_sets: u32,
    shuffled_indices: &Vec<u32>,
    count: &mut u32,
    jump: &mut u32,
) -> (index: usize)
    requires
        sample_index_defined(num_samples, num_sets, shuffled_indices@, *old(count), *old(jump)),
        *old(count) % num_samples == 0 ==> set < num_sets,
    ensures
        *final(count) == *old(count) + 1,
        *old(count) % num_samples == 0 ==> *final(jump) == set * num_samples && is_set_start(
            *final(jump),
            num_samples,
            num_sets,
        ),
        *old(count) % num_samples != 0 ==> *final(jump) == *old(jump),
        index == *final(jump) + shuffled_indices@[*final(jump) + *old(count) % num_samples],
{
    if *count % num_samples == 0 {
        assert(start_usable(shuffled_indices@, num_samples as int, set as int));
        *jump = set * num_samples;
        proof {
            lemma_set_start(set as int, num_samples as int, num_sets as int);
        }
    }
    let pos = *jump + *count % num_samples;
    let index = (*jump + shuffled_indices[pos as usize]) as usize;
    *count = *count + 1;
    index
}

/// Index of the next sample to use.  Every `num_samples` draws (when the
/// draw counter is a multiple of it) a random set among the `num_sets` is
/// chosen and `jump` moves to its start; the draw then takes the set's
/// shuffled entry at position `count % num_samples`, and the counter
/// advances (see [`draw_from_set`]).
pub fn sample_index(
    num_samples: u32,
    num_sets: u32,
    shuffled_indices: &Vec<u32>,
    count: &mut u32,
    jump: &mut u32,
) -> (index: usize)
    requires
        sample_index_defined(num_samples, num_sets, shuffled_indices@, *old(count), *old(jump)),
    ensures
        *final(count) == *old(count) + 1,
        *old(count) % num_samples == 0 ==> is_set_start(*final(jump), num_samples, num_sets),
        *old(count) % num_samples != 0 ==> *final(jump) == *old(jump),
        index == *final(jump) + shuffled_indices@[*final(jump) + *old(count) % num_samples],
{
    let set = if *count % num_samples == 0 {
        random_below(num_sets)
    } else {
        0
    };
    draw_from_set(set, num_samples, num_sets, shuffled_indices, count, jump)
}

/// A table made by [`setup_shuffled_indices`] keeps [`sample_index`]
/// defined and in range: at a set start, or inside a set whose start `jump`
/// is, a draw succeeds and the index it returns addresses one of the
/// `num_samples * num_sets` samples.
pub proof fn lemma_table_draws_in_range(
    num_samples: u32,
    num_sets: u32,
    table: Seq<u32>,
    count: u32,
    jump: u32,
)
    requires
        num_samples > 0,
        num_sets > 0,
        num_samples * num_sets <= u32::MAX,
        is_shuffle_table(table, num_samples as nat, num_sets as nat),
        count < u32::MAX,
        count % num_samples != 0 ==> is_set_start(jump, num_samples, num_sets),
    ensures
        sample_index_defined(num_samples, num_sets, table, count, jump),
        forall|r: int, c: int|
            0 <= r < num_sets && 0 <= c < num_samples ==> r * num_samples + (#[trigger] block(
                table,
                num_samples as int,
                r,
            )[c]) < num_samples * num_sets,
{
    let n = num_samples as int;
    let s = num_sets as int;
    assert forall|r: int, c: int| 0 <= r < s && 0 <= c < n implies r * n + (#[trigger] block(
        table,
        n,
        r,
    )[c]) < n * s && r * n + c < table.len() && block(table, n, r)[c] == table[r * n + c] by {
        lemma_block_bounds(n, r, s);
        let blk = block(table, n, r);
        assert(blk[c] == table[r * n + c]);
        let v = table[r * n + c];
        assert(blk.contains(v));
        assert(blk.to_multiset().count(v) > 0);
        assert(iota(n as nat).contains(v));
        let w = choose|w: int| 0 <= w < n && #[trigger] iota(n as nat)[w] == v;
        assert(v < n);
    }
    if count % num_samples == 0 {
        assert forall|r: int| 0 <= r < s implies #[trigger] start_usable(table, n, r) by {
            lemma_block_bounds(n, r, s);
            assert(r * n + block(table, n, r)[0] < n * s);
        }
    } else {
        let jv = jump as int;
        let r = jv / n;
        lemma_fundamental_div_mod(jv, n);
        assert(jv == r * n) by (nonlinear_arith)
            requires
                jv == n * (jv / n) + jv % n,
                jv % n == 0,
                r == jv / n,
        ;
        assert(r < s) by (nonlinear_arith)
            requires
                jv == r * n,
                jv < n * s,
                n > 0,
        ;
        let c = count % num_samples;
        assert(r * n + block(table, n, r)[c as int] < n * s);
    }
}

/// Within one set, the `num_samples` draws walk a permutation: draws at
/// different positions give different samples, and every sample of the set
/// is drawn at some position.
pub proof fn lemma_set_draws_each_sample_once(
    num_samples: u32,
    num_sets: u32,
    table: Seq<u32>,
    r: int,
)
    requires
        is_shuffle_table(table, num_samples as nat, num_sets as nat),
        0 <= r < num_sets,
    ensures
        block(table, num_samples as int, r).no_duplicates(),
        forall|v: u32|
            v < num_samples ==> #[trigger] block(table, num_samples as int, r).contains(v),
{
    let n = num_samples as int;
    let blk = block(table, n, r);
    let ids = iota(num_samples as nat);
    lemma_block_bounds(n, r, num_sets as int);
    assert(blk.to_multiset() == ids.to_multiset());
    assert(ids.no_duplicates());
    ids.lemma_multiset_has_no_duplicates();
    blk.lemma_multiset_has_no_duplicates_conv();
    assert forall|v: u32| v < num_samples implies #[trigger] blk.contains(v) by {
        assert(ids[v as int] == v);
        assert(ids.contains(v));
        assert(ids.to_multiset().count(v) > 0);
        assert(blk.to_multiset().count(v) > 0);
    }
}

} // verus!
