//! Finding the JSON object that a free text holds.

use crate::chars::to_chars;
use vstd::prelude::*;

verus! {

/// The first `{` of `s` stands at `i`.
pub open spec fn opens_at(s: Seq<char>, i: int) -> bool {
    &&& 0 <= i < s.len()
    &&& s[i] == '{'
    &&& forall|j: int| 0 <= j < i ==> s[j] != '{'
}

/// The last `}` of `s` stands at `i`.
pub open spec fn closes_at(s: Seq<char>, i: int) -> bool {
    &&& 0 <= i < s.len()
    &&& s[i] == '}'
    &&& forall|j: int| i < j < s.len() ==> s[j] != '}'
}

/// `s` holds an object from `a` to `b`: its first `{` stands at `a`, its last
/// `}` at `b`, and the `}` is not more than one place before the `{`. Where it
/// is just one place before, the object is the empty text.
pub open spec fn object_at(s: Seq<char>, a: int, b: int) -> bool {
    opens_at(s, a) && closes_at(s, b) && a <= b + 1
}

/// The part of `input` from its first `{` to its last `}`, both included, or
/// `None` where `input` holds no such part.
pub fn extract_json<'a>(input: &'a str) -> (r: Option<&'a str>)
    ensures
        r matches Some(t) ==> exists|a: int, b: int|
            object_at(input@, a, b) && t@ == input@.subrange(a, b + 1),
        r is None ==> forall|a: int, b: int| !object_at(input@, a, b),
{
    let chars = to_chars(input);
    let n: usize = chars.len();
    let mut first: usize = 0;
    while first < n && chars[first] != '{'
        invariant
            first <= n,
            n == chars.len(),
            forall|j: int| 0 <= j < first ==> chars@[j] != '{',
        decreases n - first,
    {
        first = first + 1;
    }
    if first == n {
        return None;
    }
    let mut last: usize = n;
    while last > 0 && chars[last - 1] != '}'
        invariant
            last <= n,
            n == chars.len(),
            forall|j: int| last <= j < n ==> chars@[j] != '}',
        decreases last,
    {
        last = last - 1;
    }
    if last == 0 {
        return None;
    }
    proof {
        assert(opens_at(input@, first as int));
        assert(closes_at(input@, last - 1));
        assert forall|a: int, b: int| object_at(input@, a, b) implies a == first && b == last
            - 1 by {
            if a < first {
            } else if a > first {
            }
            if b < last - 1 {
            } else if b > last - 1 {
            }
        }
    }
    if first > last {
        return None;
    }
    let found = input.substring_char(first, last);
    proof {
        assert(object_at(input@, first as int, last - 1));
    }
    Some(found)
}

} // verus!
