//! What PDFium reports about form fields, read into what the interface
//! shows.

use vstd::prelude::*;

verus! {

/// The interface's name for PDFium's form field type code.
pub open spec fn field_kind(field_type: i32) -> Seq<char> {
    if field_type == 1 {
        "button"@
    } else if field_type == 2 {
        "checkbox"@
    } else if field_type == 3 {
        "radio"@
    } else if field_type == 4 {
        "combo"@
    } else if field_type == 5 {
        "list"@
    } else if field_type == 6 {
        "text"@
    } else if field_type == 7 {
        "signature"@
    } else {
        "other"@
    }
}

/// The kind of a form field, stable across PDFium versions as far as the
/// interface is concerned.
pub fn form_field_kind(field_type: i32) -> (r: &'static str)
    ensures
        r@ == field_kind(field_type),
{
    match field_type {
        1 => "button",
        2 => "checkbox",
        3 => "radio",
        4 => "combo",
        5 => "list",
        6 => "text",
        7 => "signature",
        _ => "other",
    }
}

/// What `String::from_utf16_lossy` makes of `units`: UTF-16 decoded, each
/// unpaired surrogate replaced by U+FFFD.
pub uninterp spec fn utf16_lossy(units: Seq<u16>) -> Seq<char>;

/// Calls `String::from_utf16_lossy`; the contract only names the result.
#[verifier::external_body]
fn decode_utf16_lossy(units: &[u16]) -> (r: String)
    ensures
        r@ == utf16_lossy(units@),
{
    String::from_utf16_lossy(units)
}

/// Where the text in `units` ends: at the first NUL, or at the end.
pub open spec fn text_end(units: Seq<u16>) -> int {
    if exists|i: int| 0 <= i < units.len() && units[i] == 0 {
        choose|i: int| 0 <= i < units.len() && units[i] == 0 && forall|j: int| 0 <= j < i ==> units[j] != 0
    } else {
        units.len() as int
    }
}

/// A string PDFium wrote as UTF-16 into a buffer: everything before its
/// terminating NUL, decoded.
pub fn decode_pdfium_utf16(units: &[u16]) -> (r: String)
    ensures
        r@ == utf16_lossy(units@.take(text_end(units@))),
{
    let mut end: usize = 0;
    while end < units.len() && units[end] != 0
        invariant
            end <= units@.len(),
            forall|j: int| 0 <= j < end ==> units@[j] != 0,
        decreases units@.len() - end,
    {
        end += 1;
    }
    proof {
        if end < units@.len() {
            assert(units@[end as int] == 0);
            let k = choose|i: int| 0 <= i < units@.len() && units@[i] == 0 && forall|j: int| 0 <= j < i ==> units@[j] != 0;
            assert(k == end) by {
                if k < end {
                    assert(units@[k] != 0);
                } else if k > end {
                    assert(units@[end as int] != 0);
                }
            }
        }
    }
    let text = vstd::slice::slice_subrange(units, 0, end);
    proof {
        assert(text@ =~= units@.take(end as int));
    }
    decode_utf16_lossy(text)
}

} // verus!
