//! Randomised word stream drawn from a fixed vocabulary.
use rand::seq::SliceRandom;
use vstd::prelude::*;

verus! {

/// The characters of each word, in order.
pub open spec fn texts(ws: Seq<String>) -> Seq<Seq<char>> {
    ws.map_values(|s: String| s@)
}

/// `r` is a draw without replacement from `v`: each item of `r` is an item
/// of `v`, and no position of `v` is drawn twice.
pub open spec fn drawn_from(r: Seq<Seq<char>>, v: Seq<Seq<char>>) -> bool {
    exists|idx: Seq<int>|
        {
            &&& idx.len() == r.len()
            &&& forall|i: int| 0 <= i < idx.len() ==> 0 <= #[trigger] idx[i] < v.len() && r[i] == v[idx[i]]
            &&& forall|i: int, j: int| 0 <= i < j < idx.len() ==> idx[i] != idx[j]
        }
}

/// Every word of `r` is a word of the vocabulary `v`.
pub open spec fn all_from(r: Seq<Seq<char>>, v: Seq<Seq<char>>) -> bool {
    forall|i: int| 0 <= i < r.len() ==> v.contains(#[trigger] r[i])
}

/// Draws `min(count, words.len())` distinct positions of `words` at random
/// and returns the words there, in random order.
///
/// Relies on rand's `SliceRandom::choose_multiple` with the thread-local
/// generator: it yields exactly that many items, at distinct positions.
#[verifier::external_body]
pub fn get_random_words(words: &[String], count: usize) -> (r: Vec<String>)
    ensures
        r@.len() == if count < words@.len() { count as int } else { words@.len() as int },
        drawn_from(texts(r@), texts(words@)),
{
    let mut rng = rand::thread_rng();
    words.choose_multiple(&mut rng, count).cloned().collect()
}

/// `r` is a run of draws from `v` of `n` words each, the last one possibly
/// shorter.
pub open spec fn batched(r: Seq<Seq<char>>, v: Seq<Seq<char>>, n: nat) -> bool
    decreases r.len(),
{
    if n == 0 || r.len() <= n {
        drawn_from(r, v)
    } else {
        drawn_from(r.take(n as int), v) && batched(r.skip(n as int), v, n)
    }
}

proof fn lemma_drawn_empty(v: Seq<Seq<char>>)
    ensures
        drawn_from(Seq::empty(), v),
{
    let idx = Seq::<int>::empty();
    assert(idx.len() == 0);
}

proof fn lemma_batched_append(a: Seq<Seq<char>>, b: Seq<Seq<char>>, v: Seq<Seq<char>>, n: nat, m: nat)
    requires
        n > 0,
        a.len() == m * n,
        batched(a, v, n),
        drawn_from(b, v),
        b.len() <= n,
    ensures
        batched(a + b, v, n),
    decreases m,
{
    if m == 0 {
        assert(m * n == 0) by (nonlinear_arith)
            requires
                m == 0,
        ;
        assert(a + b =~= b);
        assert(batched(b, v, n));
    } else {
        assert((m - 1) * n == m * n - n) by (nonlinear_arith);
        if b.len() == 0 {
            assert(a + b =~= a);
        } else {
            let rest = a.skip(n as int);
            assert((a + b).take(n as int) =~= a.take(n as int));
            assert((a + b).skip(n as int) =~= rest + b);
            if a.len() == n {
                assert(a.take(n as int) =~= a);
                assert(rest =~= Seq::<Seq<char>>::empty());
                lemma_drawn_empty(v);
                assert(rest + b =~= b);
                assert(batched(rest + b, v, n));
            } else {
                lemma_batched_append(rest, b, v, n, (m - 1) as nat);
            }
            assert(drawn_from(a.take(n as int), v));
            assert((a + b).len() > n);
        }
    }
}

/// Words of the vocabulary followed by words of the vocabulary are words
/// of the vocabulary.
pub proof fn lemma_all_from_concat(a: Seq<Seq<char>>, b: Seq<Seq<char>>, v: Seq<Seq<char>>)
    requires
        all_from(a, v),
        all_from(b, v),
    ensures
        all_from(a + b, v),
{
    assert forall|i: int| 0 <= i < (a + b).len() implies v.contains(#[trigger] (a + b)[i]) by {
        if i < a.len() {
            assert((a + b)[i] == a[i]);
        } else {
            assert((a + b)[i] == b[i - a.len()]);
        }
    }
}

proof fn lemma_drawn_all_from(r: Seq<Seq<char>>, v: Seq<Seq<char>>)
    requires
        drawn_from(r, v),
    ensures
        all_from(r, v),
{
    let idx = choose|idx: Seq<int>|
        {
            &&& idx.len() == r.len()
            &&& forall|i: int| 0 <= i < idx.len() ==> 0 <= #[trigger] idx[i] < v.len() && r[i] == v[idx[i]]
            &&& forall|i: int, j: int| 0 <= i < j < idx.len() ==> idx[i] != idx[j]
        };
    assert forall|i: int| 0 <= i < r.len() implies v.contains(#[trigger] r[i]) by {
        assert(0 <= idx[i] < v.len() && r[i] == v[idx[i]]);
    }
}

/// Produces exactly `estimated_needed` words, drawn batch after batch from
/// `vocabulary`: each batch is as long as the vocabulary (the last one
/// possibly shorter) and repeats no position of it.
pub fn generate_unlimited_words(vocabulary: &[String], estimated_needed: usize) -> (r: Vec<
    String,
>)
    requires
        vocabulary@.len() > 0,
    ensures
        r@.len() == estimated_needed,
        all_from(texts(r@), texts(vocabulary@)),
        batched(texts(r@), texts(vocabulary@), vocabulary@.len() as nat),
{
    let mut result: Vec<String> = Vec::new();
    let ghost n = vocabulary@.len() as nat;
    let ghost batches: nat = 0;
    proof {
        lemma_drawn_empty(texts(vocabulary@));
        assert(texts(result@) =~= Seq::<Seq<char>>::empty());
        assert(0 * n == 0);
    }
    while result.len() < estimated_needed
        invariant
            vocabulary@.len() > 0,
            n == vocabulary@.len(),
            result@.len() <= estimated_needed,
            result@.len() == estimated_needed || result@.len() == batches * n,
            all_from(texts(result@), texts(vocabulary@)),
            batched(texts(result@), texts(vocabulary@), n),
        decreases estimated_needed - result@.len(),
    {
        let remaining = estimated_needed - result.len();
        let batch_size = if vocabulary.len() < remaining {
            vocabulary.len()
        } else {
            remaining
        };
        let mut batch = get_random_words(vocabulary, batch_size);
        proof {
            lemma_drawn_all_from(texts(batch@), texts(vocabulary@));
        }
        let ghost before = result@;
        let ghost drawn = batch@;
        result.append(&mut batch);
        proof {
            let v = texts(vocabulary@);
            assert(texts(result@) =~= texts(before) + texts(drawn));
            lemma_batched_append(texts(before), texts(drawn), v, n, batches);
            assert((batches + 1) * n == batches * n + n) by (nonlinear_arith);
            batches = batches + 1;
            assert forall|i: int| 0 <= i < result@.len() implies v.contains(
                #[trigger] texts(result@)[i],
            ) by {
                if i < before.len() {
                    assert(texts(result@)[i] == texts(before)[i]);
                } else {
                    assert(texts(result@)[i] == texts(drawn)[i - before.len()]);
                }
            }
        }
    }
    result
}

} // verus!
