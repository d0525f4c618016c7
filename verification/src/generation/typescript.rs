//! TypeScript lexical helpers shared by the TypeScript backends.

use vstd::prelude::*;

verus! {

use vstd::string::StrSliceExecFns;

/// A character that may start a bare TypeScript identifier.
pub open spec fn is_ident_start(c: char) -> bool {
    (65 <= c as u32 <= 90) || (97 <= c as u32 <= 122) || c == '_' || c == '$'
}

/// A character that may continue a bare TypeScript identifier.
pub open spec fn is_ident_continue(c: char) -> bool {
    is_ident_start(c) || (48 <= c as u32 <= 57)
}

/// Whether `s` is a bare TypeScript identifier: non-empty, an identifier
/// start character followed by identifier characters. A field name that is
/// not one must be quoted when emitted.
pub open spec fn is_ts_identifier_model(s: Seq<char>) -> bool {
    s.len() > 0 && is_ident_start(s[0]) && (forall|i: int|
        1 <= i < s.len() ==> is_ident_continue(#[trigger] s[i]))
}

/// Whether `s` is a bare TypeScript identifier.
pub fn is_ts_identifier(s: &str) -> (r: bool)
    ensures
        r == is_ts_identifier_model(s@),
{
    let n = s.unicode_len();
    if n == 0 {
        return false;
    }
    let first = s.get_char(0);
    let first_ok = (first as u32 >= 65 && first as u32 <= 90) || (first as u32 >= 97 && first
        as u32 <= 122) || first == '_' || first == '$';
    if !first_ok {
        return false;
    }
    let mut i: usize = 1;
    let mut ok = true;
    while ok && i < n
        invariant
            1 <= i <= n,
            n == s@.len(),
            is_ident_start(s@[0]),
            ok ==> forall|k: int| 1 <= k < i ==> is_ident_continue(#[trigger] s@[k]),
            !ok ==> i < n && !is_ident_continue(s@[i as int]),
        decreases n - i + (if ok { 1int } else { 0int }),
    {
        let c = s.get_char(i);
        let c_ok = (c as u32 >= 65 && c as u32 <= 90) || (c as u32 >= 97 && c as u32 <= 122) || c
            == '_' || c == '$' || (c as u32 >= 48 && c as u32 <= 57);
        if c_ok {
            i = i + 1;
        } else {
            ok = false;
        }
    }
    ok
}

} // verus!
