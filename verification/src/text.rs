//! Strings, by way of their characters.
use vstd::prelude::*;

verus! {

/// `String::from_iter` over the characters of a vector: the string that is
/// made of them, in their order.
#[verifier::external_body]
pub(crate) fn string_of(chars: &Vec<char>) -> (text: String)
    ensures
        text@ == chars@,
{
    chars.iter().collect()
}

/// The characters of a string, in their order.
pub(crate) fn chars_of(text: &String) -> (chars: Vec<char>)
    ensures
        chars@ == text@,
{
    let slice = text.as_str();
    let count: usize = slice.unicode_len();
    let mut chars: Vec<char> = Vec::new();
    let mut i: usize = 0;
    while i < count
        invariant
            i <= count,
            count == slice@.len(),
            slice@ == text@,
            chars@ == slice@.take(i as int),
        decreases count - i,
    {
        chars.push(slice.get_char(i));
        proof {
            assert(slice@.take(i + 1) =~= slice@.take(i as int).push(slice@[i as int]));
        }
        i = i + 1;
    }
    proof {
        assert(slice@.take(count as int) =~= slice@);
    }
    chars
}

/// The items one after the other, with `separator` between each two.
pub open spec fn joined(items: Seq<Seq<char>>, separator: Seq<char>) -> Seq<char>
    decreases items.len(),
{
    if items.len() == 0 {
        Seq::empty()
    } else if items.len() == 1 {
        items[0]
    } else {
        joined(items.drop_last(), separator) + separator + items.last()
    }
}

/// Appends `chars` to `out`.
pub fn push_all(out: &mut Vec<char>, chars: &[char])
    ensures
        final(out)@ == old(out)@ + chars@,
{
    let ghost before = out@;
    let mut i: usize = 0;
    while i < chars.len()
        invariant
            i <= chars.len(),
            out@ == before + chars@.take(i as int),
        decreases chars.len() - i,
    {
        out.push(chars[i]);
        i = i + 1;
    }
}

/// What each vector of `items` holds.
pub open spec fn views(items: Seq<Vec<char>>) -> Seq<Seq<char>> {
    items.map_values(|item: Vec<char>| item@)
}

/// The items one after the other, with `separator` between each two.
pub fn join_chars(items: &Vec<Vec<char>>, separator: &[char]) -> (text: Vec<char>)
    ensures
        text@ == joined(views(items@), separator@),
{
    let mut text: Vec<char> = Vec::new();
    let mut i: usize = 0;
    while i < items.len()
        invariant
            i <= items.len(),
            text@ == joined(views(items@).take(i as int), separator@),
        decreases items.len() - i,
    {
        let ghost done = views(items@).take(i as int);
        let ghost next = views(items@).take(i + 1);
        proof {
            assert(next.drop_last() =~= done);
        }
        if i > 0 {
            push_all(&mut text, separator);
        }
        push_all(&mut text, items[i].as_slice());
        i = i + 1;
    }
    proof {
        assert(views(items@).take(items@.len() as int) =~= views(items@));
    }
    text
}

} // verus!
