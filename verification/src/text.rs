//! `char`s as numbers, and the few string operations that the tree needs.

use vstd::prelude::*;
use vstd::string::{StrSliceExecFns, StringExecFns};

verus! {

/// Whether `k` is the number of a Unicode scalar value, that is, of a `char`.
pub open spec fn is_scalar(k: u32) -> bool {
    k <= 0xD7FF || 0xE000 <= k <= 0x10FFFF
}

/// The number of a `char`, under which a node keeps the child at the end of
/// the edge that the `char` labels.
pub open spec fn code(c: char) -> u32 {
    c as u32
}

/// The number of a `char` is that of a scalar value, and gives the `char`
/// back.
pub broadcast proof fn lemma_code(c: char)
    ensures
        is_scalar(#[trigger] code(c)),
        code(c) as char == c,
{
}

/// Whether `items` holds the strings of `strings`, all of them and each once.
pub open spec fn lists(items: Seq<String>, strings: Set<Seq<char>>) -> bool {
    &&& forall|i: int| 0 <= i < items.len() ==> strings.contains(#[trigger] items[i]@)
    &&& forall|s: Seq<char>|
        strings.contains(s) ==> exists|i: int| 0 <= i < items.len() && #[trigger] items[i]@ == s
    &&& forall|i: int, j: int|
        0 <= i < j < items.len() ==> #[trigger] items[i]@ != #[trigger] items[j]@
}

/// A list of strings with one more at its end that was not among them.
pub proof fn lemma_lists_push(items: Seq<String>, strings: Set<Seq<char>>, item: String)
    requires
        lists(items, strings),
        !strings.contains(item@),
    ensures
        lists(items.push(item), strings.insert(item@)),
{
    let longer = items.push(item);
    assert forall|s: Seq<char>| strings.insert(item@).contains(s) implies exists|i: int|
        0 <= i < longer.len() && #[trigger] longer[i]@ == s by {
        if s == item@ {
            assert(longer[items.len() as int]@ == s);
        } else {
            let i = choose|i: int| 0 <= i < items.len() && #[trigger] items[i]@ == s;
            assert(longer[i]@ == s);
        }
    }
    assert forall|i: int, j: int| 0 <= i < j < longer.len() implies #[trigger] longer[i]@
        != #[trigger] longer[j]@ by {
        assert(longer[i] == items[i]);
    }
}

/// `char::from_u32`: the `char` with the number `i`, or `None` when `i` is
/// the number of no `char` (a surrogate, or beyond the last code point).
pub assume_specification[ char::from_u32 ](i: u32) -> (c: Option<char>)
    ensures
        c == if is_scalar(i) {
            Some(i as char)
        } else {
            None::<char>
        },
;

/// `String::push`: the string is what it was, with `ch` added at its end.
pub assume_specification[ String::push ](s: &mut String, ch: char)
    ensures
        final(s)@ == old(s)@.push(ch),
;

/// The `char`s of `text`, in their order.
pub fn chars_of(text: &str) -> (chars: Vec<char>)
    ensures
        chars@ == text@,
{
    let mut chars: Vec<char> = Vec::new();
    for c in it: text.chars()
        invariant
            it.seq() == text@,
            chars@ == text@.take(it.index()),
    {
        chars.push(c);
        assert(text@.take(it.index() + 1) =~= text@.take(it.index()).push(c));
    }
    assert(text@.take(text@.len() as int) =~= text@);
    chars
}

/// `text` without its last `char`, if that is `last`; else `None`.
pub fn strip_last(text: &str, last: char) -> (stripped: Option<String>)
    ensures
        match stripped {
            Some(front) => text@ == front@.push(last),
            None => text@.len() == 0 || text@.last() != last,
        },
{
    let len = text.unicode_len();
    if len > 0 && text.get_char(len - 1) == last {
        let front = String::from_str(text.substring_char(0, len - 1));
        assert(text@ =~= front@.push(last));
        Some(front)
    } else {
        None
    }
}

/// `front` followed by `back`.
pub fn joined(front: &str, back: &str) -> (whole: String)
    ensures
        whole@ == front@ + back@,
{
    let mut whole = String::from_str(front);
    whole.append(back);
    whole
}

} // verus!
