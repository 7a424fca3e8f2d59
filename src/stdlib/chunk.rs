//! The `chunk` function.
use vstd::prelude::*;

use crate::stdlib::Function;
use crate::stdlib::Implementation;
use crate::stdlib::FunctionCallError;
use crate::stdlib::Signature;
use crate::diagnostics::Span;

verus! {

/// `array` cut into consecutive pieces of `size` elements; the last piece
/// holds what is left.
pub open spec fn chunks_of<T>(array: Seq<T>, size: nat) -> Seq<Seq<T>>
    decreases array.len(),
{
    if array.len() == 0 || size == 0 {
        seq![]
    } else if array.len() <= size {
        seq![array]
    } else {
        seq![array.subrange(0, size as int)] + chunks_of(array.subrange(size as int, array.len() as int), size)
    }
}

proof fn lemma_chunks_capped<T>(array: Seq<T>, size: nat, step: nat)
    requires
        array.len() > 0,
        step == if size >= array.len() { array.len() } else { size },
        size > 0,
    ensures
        chunks_of(array, size) == chunks_of(array, step),
{
}

/// Splits `array` into consecutive, non-overlapping arrays of `size`
/// elements. If the length of the array is not a multiple of `size`, the
/// final array holds the remaining elements. A negative size is an error,
/// labelled at `size_span`, the span of the size argument.
pub fn chunk<T: Copy>(array: &Vec<T>, size: i64, size_span: Span) -> (r: Result<Vec<Vec<T>>, FunctionCallError>)
    requires
        size != 0,
    ensures
        size < 0 <==> r is Err,
        r matches Err(e) ==> e.function@ == "chunk"@ && e.reason@ == "chunk size cannot be negative"@
            && e.span == size_span,
        r matches Ok(v) ==> v@.map_values(|c: Vec<T>| c@) == chunks_of(array@, size as nat),
{
    if size < 0 {
        return Err(FunctionCallError::new("chunk", "chunk size cannot be negative", size_span));
    }
    let n = array.len();
    let mut out: Vec<Vec<T>> = Vec::new();
    if n == 0 {
        assert(out@.map_values(|c: Vec<T>| c@) =~= chunks_of(array@, size as nat));
        return Ok(out);
    }
    let step: usize = if size as u64 >= n as u64 {
        n
    } else {
        size as usize
    };
    proof {
        lemma_chunks_capped(array@, size as nat, step as nat);
    }
    let mut i: usize = 0;
    assert(array@.subrange(0, n as int) =~= array@);
    while i < n
        invariant
            i <= n,
            n == array@.len(),
            step > 0,
            chunks_of(array@, step as nat) == out@.map_values(|c: Vec<T>| c@) + chunks_of(
                array@.subrange(i as int, n as int),
                step as nat,
            ),
        decreases n - i,
    {
        let end = if n - i <= step {
            n
        } else {
            i + step
        };
        let mut piece: Vec<T> = Vec::new();
        let mut j = i;
        while j < end
            invariant
                i <= j <= end <= n,
                n == array@.len(),
                piece@ == array@.subrange(i as int, j as int),
            decreases end - j,
        {
            piece.push(array[j]);
            assert(piece@ =~= array@.subrange(i as int, j + 1));
            j = j + 1;
        }
        let ghost rest = array@.subrange(i as int, n as int);
        let ghost before = out@.map_values(|c: Vec<T>| c@);
        out.push(piece);
        assert(out@.map_values(|c: Vec<T>| c@) =~= before.push(array@.subrange(i as int, end as int)));
        if end == n {
            assert(rest =~= array@.subrange(i as int, end as int));
            assert(array@.subrange(n as int, n as int) =~= Seq::<T>::empty());
        } else {
            assert(rest.subrange(0, step as int) =~= array@.subrange(i as int, end as int));
            assert(rest.subrange(step as int, rest.len() as int) =~= array@.subrange(end as int, n as int));
        }
        assert(chunks_of(array@, step as nat) =~= out@.map_values(|c: Vec<T>| c@) + chunks_of(
            array@.subrange(end as int, n as int),
            step as nat,
        ));
        i = end;
    }
    assert(out@.map_values(|c: Vec<T>| c@) + chunks_of(array@.subrange(i as int, n as int), step as nat)
        =~= out@.map_values(|c: Vec<T>| c@));
    Ok(out)
}

/// Gets the function describing `chunk`.
pub fn descriptor() -> (r: Function)
    ensures
        r.signatures@.len() == 1,
        r.signatures@[0].text@ == "(Array[X], Int) -> Array[Array[X]]"@,
        r.signatures@[0].implementation == Implementation::Chunk,
{
    Function::single(Signature::new("(Array[X], Int) -> Array[Array[X]]", Implementation::Chunk))
}

} // verus!
