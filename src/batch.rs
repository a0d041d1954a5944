use vstd::prelude::*;

verus! {

/// The chunk length used to split `len` items for `num_chunks` workers: the
/// floor of `len / num_chunks`, or a single chunk holding everything when that
/// is zero or no chunk count is given.
pub open spec fn chunk_len(len: nat, num_chunks: nat) -> nat {
    if num_chunks == 0 || len / num_chunks == 0 {
        if len > 1 {
            len
        } else {
            1
        }
    } else {
        len / num_chunks
    }
}

/// The contents of each chunk, in order.
pub open spec fn chunk_views<T>(chunks: Seq<&[T]>) -> Seq<Seq<T>> {
    chunks.map_values(|c: &[T]| c@)
}

/// Divide items into contiguous chunks of nearly equal size.
///
/// Every chunk but the last holds exactly `chunk_len` items, the last one at
/// least one and at most that many, and the chunks concatenated give back the
/// items in order.
pub fn divide_items<T>(items: &[T], num_chunks: usize) -> (chunks: Vec<&[T]>)
    ensures
        chunk_views(chunks@).flatten() == items@,
        items@.len() == 0 <==> chunks@.len() == 0,
        forall|i: int|
            0 <= i < chunks@.len() - 1 ==> (#[trigger] chunks@[i])@.len() == chunk_len(
                items@.len(),
                num_chunks as nat,
            ),
        chunks@.len() > 0 ==> 0 < chunks@.last()@.len() <= chunk_len(
            items@.len(),
            num_chunks as nat,
        ),
{
    let n = items.len();
    let size: usize = if num_chunks == 0 || n / num_chunks == 0 {
        if n > 1 {
            n
        } else {
            1
        }
    } else {
        n / num_chunks
    };
    let ghost cs = chunk_len(n as nat, num_chunks as nat);
    assert(size == cs);
    let mut chunks: Vec<&[T]> = Vec::new();
    let mut start: usize = 0;
    while start < n
        invariant
            n == items@.len(),
            size == cs,
            size > 0,
            start <= n,
            chunk_views(chunks@).flatten() == items@.subrange(0, start as int),
            chunks@.len() == 0 <==> start == 0,
            forall|i: int| 0 <= i < chunks@.len() - 1 ==> (#[trigger] chunks@[i])@.len() == cs,
            chunks@.len() > 0 ==> 0 < chunks@.last()@.len() <= cs,
            chunks@.len() > 0 && start < n ==> chunks@.last()@.len() == cs,
        decreases n - start,
    {
        let end: usize = if n - start > size {
            start + size
        } else {
            n
        };
        let chunk = vstd::slice::slice_subrange(items, start, end);
        proof {
            chunk_views(chunks@).lemma_flatten_push(chunk@);
            assert(chunk_views(chunks@.push(chunk)) =~= chunk_views(chunks@).push(chunk@));
            assert(items@.subrange(0, start as int) + items@.subrange(start as int, end as int)
                =~= items@.subrange(0, end as int));
        }
        chunks.push(chunk);
        start = end;
    }
    assert(items@.subrange(0, n as int) =~= items@);
    chunks
}

} // verus!
