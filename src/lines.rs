//! Grouping of the word stream into display lines.
use crate::words::texts;
use vstd::arithmetic::div_mod::{lemma_basic_div, lemma_hoist_over_denominator};
use vstd::prelude::*;

verus! {

/// The words joined with one space between neighbours.
pub open spec fn join(ws: Seq<Seq<char>>) -> Seq<char>
    decreases ws.len(),
{
    if ws.len() == 0 {
        Seq::empty()
    } else if ws.len() == 1 {
        ws[0]
    } else {
        join(ws.drop_last()) + seq![' '] + ws.last()
    }
}

/// The lines made of `ws`: each run of `k` consecutive words joined, the
/// last run possibly shorter.
pub open spec fn group(ws: Seq<Seq<char>>, k: nat) -> Seq<Seq<char>>
    decreases ws.len(),
{
    if ws.len() == 0 || k == 0 {
        Seq::empty()
    } else if ws.len() <= k {
        seq![join(ws)]
    } else {
        seq![join(ws.take(k as int))] + group(ws.skip(k as int), k)
    }
}

/// Number of lines that `n` words make at `k` words a line: `ceil(n / k)`.
pub open spec fn line_count(n: nat, k: nat) -> nat {
    if k == 0 {
        0
    } else {
        ((n + k - 1) as nat / k) as nat
    }
}

/// The count of words a line really holds: a request for none is taken as one.
pub open spec fn per_line(k: usize) -> nat {
    if k == 0 {
        1
    } else {
        k as nat
    }
}

/// Joining two non-empty runs is joining each and putting a space between.
pub proof fn lemma_join_concat(a: Seq<Seq<char>>, b: Seq<Seq<char>>)
    requires
        a.len() > 0,
        b.len() > 0,
    ensures
        join(a + b) == join(a) + seq![' '] + join(b),
    decreases b.len(),
{
    if b.len() == 1 {
        assert((a + b).drop_last() =~= a);
    } else {
        lemma_join_concat(a, b.drop_last());
        assert((a + b).drop_last() =~= a + b.drop_last());
        assert(join(a + b) == join(a + b.drop_last()) + seq![' '] + b.last());
        assert(join(a + b) =~= join(a) + seq![' '] + join(b));
    }
}

/// Laying out two runs of words, the first a whole number of lines long,
/// gives the lines of the first followed by those of the second.
pub proof fn lemma_group_append(a: Seq<Seq<char>>, b: Seq<Seq<char>>, k: nat, m: nat)
    requires
        k > 0,
        a.len() == m * k,
    ensures
        group(a + b, k) == group(a, k) + group(b, k),
    decreases m,
{
    if m == 0 {
        assert(m * k == 0) by (nonlinear_arith)
            requires
                m == 0,
        ;
        assert(a + b =~= b);
        assert(group(a, k) + group(b, k) =~= group(b, k));
    } else if b.len() == 0 {
        assert(a + b =~= a);
        assert(group(a, k) + group(b, k) =~= group(a, k));
    } else {
        assert((m - 1) * k == m * k - k) by (nonlinear_arith);
        let rest = a.skip(k as int);
        assert((a + b).take(k as int) =~= a.take(k as int));
        assert((a + b).skip(k as int) =~= rest + b);
        lemma_group_append(rest, b, k, (m - 1) as nat);
        if a.len() == k {
            assert(a.take(k as int) =~= a);
            assert(rest.len() == 0);
        }
        assert(group(a + b, k) =~= group(a, k) + group(b, k));
    }
}

/// Laying words out in lines makes `ceil(n / k)` lines, and joining those
/// lines with spaces gives back exactly the words joined with spaces.
pub proof fn lemma_lines_round_trip(ws: Seq<Seq<char>>, k: nat)
    requires
        k > 0,
    ensures
        group(ws, k).len() == line_count(ws.len(), k),
        join(group(ws, k)) == join(ws),
    decreases ws.len(),
{
    if ws.len() == 0 {
        lemma_basic_div(k - 1, k as int);
    } else if ws.len() <= k {
        assert(((ws.len() + k - 1) as nat / k) == 1) by (nonlinear_arith)
            requires
                0 < ws.len() <= k,
        ;
    } else {
        let head = ws.take(k as int);
        let tail = ws.skip(k as int);
        lemma_lines_round_trip(tail, k);
        lemma_hoist_over_denominator((tail.len() + k - 1) as int, 1, k);
        assert(ws =~= head + tail);
        lemma_join_concat(head, tail);
        lemma_join_concat(seq![join(head)], group(tail, k));
        assert(join(seq![join(head)]) == join(head));
    }
}

/// Lays the words out in lines of `words_per_line` words joined by single
/// spaces; a last, shorter group still makes a line. Asking for no words a
/// line gives one word a line.
pub fn create_text_lines(words: &[String], words_per_line: usize) -> (lines: Vec<String>)
    ensures
        texts(lines@) == group(texts(words@), per_line(words_per_line)),
{
    let k: usize = if words_per_line == 0 {
        1
    } else {
        words_per_line
    };
    let ghost ws = texts(words@);
    let mut lines: Vec<String> = Vec::new();
    let mut current = String::new();
    let mut count: usize = 0;
    let mut i: usize = 0;
    assert(lines@.len() * k == 0) by (nonlinear_arith)
        requires
            lines@.len() == 0,
    ;
    assert(ws.take(0) =~= Seq::<Seq<char>>::empty());
    while i < words.len()
        invariant
            k as nat == per_line(words_per_line),
            ws == texts(words@),
            i <= words@.len(),
            count < k,
            count <= i,
            lines@.len() * k == i - count,
            texts(lines@) == group(ws.take(i - count), k as nat),
            count > 0 ==> current@ == join(ws.subrange(i - count, i as int)),
        decreases words@.len() - i,
    {
        let start = i - count;
        if count == 0 {
            current = words[i].clone();
            assert(ws.subrange(start as int, i + 1) =~= seq![ws[i as int]]);
        } else {
            current.append(" ");
            current.append(words[i].as_str());
            proof {
                reveal_strlit(" ");
            }
            assert(ws.subrange(start as int, i + 1).drop_last() =~= ws.subrange(
                start as int,
                i as int,
            ));
        }
        assert(current@ == join(ws.subrange(start as int, i + 1)));
        count = count + 1;
        i = i + 1;
        if count >= k {
            let ghost before = lines@;
            let ghost line = current@;
            lines.push(current);
            current = String::new();
            count = 0;
            proof {
                let old_len = before.len();
                assert((old_len + 1) * k == old_len * k + k) by (nonlinear_arith);
                assert(ws.take(i as int) =~= ws.take(start as int) + ws.subrange(
                    start as int,
                    i as int,
                ));
                lemma_group_append(
                    ws.take(start as int),
                    ws.subrange(start as int, i as int),
                    k as nat,
                    old_len,
                );
                assert(texts(lines@) =~= texts(before) + seq![line]);
            }
        }
    }
    let ghost full = lines@;
    let start = i - count;
    assert(ws.take(i as int) =~= ws);
    if count > 0 {
        lines.push(current);
        proof {
            assert(ws =~= ws.take(start as int) + ws.subrange(start as int, i as int));
            lemma_group_append(
                ws.take(start as int),
                ws.subrange(start as int, i as int),
                k as nat,
                full.len(),
            );
            assert(texts(lines@) =~= texts(full) + seq![join(ws.subrange(start as int, i as int))]);
        }
    }
    lines
}

} // verus!
