//! The `select_first` function.
use vstd::prelude::*;

use crate::stdlib::Function;
use crate::stdlib::Implementation;
use crate::stdlib::FunctionCallError;
use crate::stdlib::Signature;
use crate::diagnostics::Span;

verus! {

/// Selects the first (left-most) non-`None` value of `array`.
///
/// `default` is returned when every value is `None`; without it that is an
/// error. An empty array is an error in any case. Errors are labelled at
/// `array_span`, the span of the array argument.
pub fn select_first<T: Copy>(array: &Vec<Option<T>>, default: Option<T>, array_span: Span) -> (r: Result<T, FunctionCallError>)
    ensures
        array@.len() == 0 ==> (r matches Err(e) && e.function@ == "select_first"@ && e.reason@
            == "array is empty"@ && e.span == array_span),
        array@.len() > 0 ==> match r {
            Ok(v) => (exists|i: int|
                0 <= i < array@.len() && array@[i] == Some(v) && forall|j: int|
                    0 <= j < i ==> (#[trigger] array@[j]) is None) || ((forall|j: int|
                0 <= j < array@.len() ==> (#[trigger] array@[j]) is None) && default == Some(v)),
            Err(e) => (forall|j: int| 0 <= j < array@.len() ==> (#[trigger] array@[j]) is None)
                && default is None && e.function@ == "select_first"@ && e.reason@
                == "array contains only `None` values"@ && e.span == array_span,
        },
{
    if array.len() == 0 {
        return Err(FunctionCallError::new("select_first", "array is empty", array_span));
    }
    let mut i: usize = 0;
    while i < array.len()
        invariant
            i <= array@.len(),
            forall|j: int| 0 <= j < i ==> (#[trigger] array@[j]) is None,
        decreases array@.len() - i,
    {
        if let Some(v) = array[i] {
            return Ok(v);
        }
        i = i + 1;
    }
    match default {
        Some(d) => Ok(d),
        None => Err(FunctionCallError::new("select_first", "array contains only `None` values", array_span)),
    }
}

/// Gets the function describing `select_first`.
pub fn descriptor() -> (r: Function)
    ensures
        r.signatures@.len() == 1,
        r.signatures@[0].text@ == "(Array[X], <X>) -> X"@,
        r.signatures@[0].implementation == Implementation::SelectFirst,
{
    Function::single(Signature::new("(Array[X], <X>) -> X", Implementation::SelectFirst))
}

} // verus!
