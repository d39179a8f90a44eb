//! Splitting an ordered list into contiguous chunks, one per worker.

use vstd::prelude::*;

verus! {

/// The size of every chunk but the last: `ceil(n / k)`.
pub open spec fn chunk_size(n: nat, k: nat) -> nat
    recommends
        k >= 1,
{
    ((n + k - 1) as nat / k) as nat
}

/// `s` cut into consecutive pieces of `size` items; the last piece holds the
/// remainder.
pub open spec fn chunks_of<T>(s: Seq<T>, size: nat) -> Seq<Seq<T>>
    decreases s.len(),
{
    if s.len() == 0 || size == 0 {
        Seq::empty()
    } else if s.len() <= size {
        seq![s]
    } else {
        seq![s.take(size as int)] + chunks_of(s.skip(size as int), size)
    }
}

/// The pieces of `chunks_of(s, size)` rebuild `s` in order; each holds
/// between one and `size` items, every one but the last exactly `size`; and
/// there are as few of them as can hold `s`.
pub proof fn lemma_chunks_of_shape<T>(s: Seq<T>, size: nat)
    requires
        size >= 1,
    ensures
        chunks_of(s, size).flatten() == s,
        forall|i: int|
            0 <= i < chunks_of(s, size).len() ==> 1 <= #[trigger] chunks_of(s, size)[i].len() <= size,
        forall|i: int|
            0 <= i < chunks_of(s, size).len() - 1 ==> #[trigger] chunks_of(s, size)[i].len() == size,
        chunks_of(s, size).len() * size >= s.len(),
        s.len() > 0 ==> (chunks_of(s, size).len() - 1) * size < s.len(),
    decreases s.len(),
{
    let c = chunks_of(s, size);
    if s.len() == 0 {
    } else if s.len() <= size {
        assert(c == seq![s]);
        c.lemma_flatten_one_element();
        assert(c.len() == 1);
        assert(c.len() * size == size);
    } else {
        let rest = chunks_of(s.skip(size as int), size);
        lemma_chunks_of_shape(s.skip(size as int), size);
        assert(c.drop_first() =~= rest);
        assert(c.flatten() =~= s.take(size as int) + rest.flatten());
        assert(s =~= s.take(size as int) + s.skip(size as int));
        assert forall|i: int| 0 <= i < c.len() implies 1 <= #[trigger] c[i].len() <= size by {
            if i > 0 {
                assert(c[i] == rest[i - 1]);
            }
        }
        assert forall|i: int| 0 <= i < c.len() - 1 implies #[trigger] c[i].len() == size by {
            if i > 0 {
                assert(c[i] == rest[i - 1]);
            }
        }
        assert(c.len() == rest.len() + 1);
        assert(c.len() * size == rest.len() * size + size) by (nonlinear_arith)
            requires
                c.len() == rest.len() + 1,
        {
        }
        assert((c.len() - 1) * size == rest.len() * size);
        if s.skip(size as int).len() > 0 {
            assert((rest.len() - 1) * size < s.len() - size);
            assert((c.len() - 1) * size == (rest.len() - 1) * size + size) by (nonlinear_arith)
                requires
                    c.len() == rest.len() + 1,
            {
            }
        } else {
            assert(rest.len() == 0);
        }
    }
}

/// Partitioning `s` among at most `k` workers: the chunks, concatenated in
/// order, give back `s`; there are at most `k` of them; none is empty; all but
/// the last hold exactly `ceil(len / k)` items, the last at most that; and an
/// empty list gives no chunk at all.
pub proof fn lemma_partition<T>(s: Seq<T>, k: nat)
    requires
        k >= 1,
    ensures
        ({
            let size = chunk_size(s.len(), k);
            let c = chunks_of(s, size);
            &&& c.flatten() == s
            &&& c.len() <= k
            &&& forall|i: int| 0 <= i < c.len() ==> 1 <= #[trigger] c[i].len() <= size
            &&& forall|i: int| 0 <= i < c.len() - 1 ==> #[trigger] c[i].len() == size
            &&& (s.len() == 0 <==> c.len() == 0)
        }),
{
    let n = s.len();
    let size = chunk_size(n, k);
    if n == 0 {
        assert(chunks_of(s, size) =~= Seq::<Seq<T>>::empty());
    } else {
        assert(size >= 1 && size * k >= n) by (nonlinear_arith)
            requires
                size == (n + k - 1) as nat / k,
                k >= 1,
                n >= 1,
        {
        }
        lemma_chunks_of_shape(s, size);
        let m = chunks_of(s, size).len();
        assert(m >= 1);
        assert(m <= k) by (nonlinear_arith)
            requires
                (m - 1) * size < n,
                n <= size * k,
                size >= 1,
        {
        }
    }
}

/// The views of a list of vectors.
pub open spec fn views_of<T>(v: Seq<Vec<T>>) -> Seq<Seq<T>> {
    v.map_values(|c: Vec<T>| c@)
}

/// Splits `list` into at most `chunk_count` contiguous chunks of
/// `ceil(len / chunk_count)` items each, the last one holding the remainder.
/// An empty list gives no chunk.
pub fn split_into_chunks<T>(list: Vec<T>, chunk_count: usize) -> (r: Vec<Vec<T>>)
    requires
        chunk_count >= 1,
    ensures
        views_of(r@) == chunks_of(list@, chunk_size(list@.len(), chunk_count as nat)),
{
    let n = list.len();
    let q: usize = n / chunk_count;
    assert(n % chunk_count != 0 ==> q < n) by (nonlinear_arith)
        requires
            q == n / chunk_count,
            chunk_count >= 1,
    {
    }
    let size: usize = if n % chunk_count == 0 { q } else { q + 1 };
    assert(size as nat == chunk_size(n as nat, chunk_count as nat)) by (nonlinear_arith)
        requires
            size as int == (if n % chunk_count == 0 { (n / chunk_count) as int } else { n / chunk_count + 1 }),
            chunk_count >= 1,
    {
    }
    let ghost whole = list@;
    let mut rest = list;
    let mut out: Vec<Vec<T>> = Vec::new();
    if size == 0 {
        assert(views_of(out@) =~= chunks_of(whole, size as nat));
        return out;
    }
    while rest.len() > 0
        invariant
            size >= 1,
            views_of(out@) + chunks_of(rest@, size as nat) == chunks_of(whole, size as nat),
        decreases rest@.len(),
    {
        let at: usize = if rest.len() < size { rest.len() } else { size };
        let ghost before = rest@;
        let tail = rest.split_off(at);
        proof {
            if before.len() <= size {
                assert(tail@.len() == 0);
                assert(rest@ =~= before);
                assert(chunks_of(tail@, size as nat) =~= Seq::<Seq<T>>::empty());
                assert(chunks_of(before, size as nat) =~= seq![rest@] + chunks_of(tail@, size as nat));
            } else {
                assert(rest@ =~= before.take(size as int));
                assert(tail@ =~= before.skip(size as int));
            }
        }
        let ghost out_before = out@;
        let ghost piece = rest@;
        out.push(rest);
        proof {
            assert(out@.drop_last() =~= out_before);
            assert(views_of(out@) =~= views_of(out_before).push(piece));
            assert(seq![piece] + chunks_of(tail@, size as nat) == chunks_of(before, size as nat));
            assert(views_of(out_before).push(piece) + chunks_of(tail@, size as nat)
                =~= views_of(out_before) + (seq![piece] + chunks_of(tail@, size as nat)));
        }
        rest = tail;
    }
    proof {
        assert(chunks_of(rest@, size as nat) =~= Seq::<Seq<T>>::empty());
        assert(views_of(out@) + Seq::<Seq<T>>::empty() =~= views_of(out@));
    }
    out
}

} // verus!
