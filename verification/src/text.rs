//! Building and reading text one character at a time.
use vstd::prelude::*;

verus! {

/// Appends `c` to `text`: `String::push` of the standard library, which
/// adds one character at the end.
#[verifier::external_body]
pub(crate) fn push_char(text: &mut String, c: char)
    ensures
        final(text)@ == old(text)@.push(c),
{
    text.push(c);
}

/// The characters of `text`, in order.
pub(crate) fn chars_of(text: &str) -> (chars: Vec<char>)
    ensures
        chars@ == text@,
{
    let n = text.unicode_len();
    let mut chars: Vec<char> = Vec::new();
    let mut i: usize = 0;
    while i < n
        invariant
            n == text@.len(),
            i <= n,
            chars@ == text@.subrange(0, i as int),
        decreases n - i,
    {
        chars.push(text.get_char(i));
        proof {
            assert(chars@ =~= text@.subrange(0, i + 1));
        }
        i += 1;
    }
    proof {
        assert(chars@ =~= text@);
    }
    chars
}

/// Appends the characters `tail[from..to]` to `text`.
pub(crate) fn push_range(text: &mut String, tail: &Vec<char>, from: usize, to: usize)
    requires
        from <= to <= tail@.len(),
    ensures
        final(text)@ == old(text)@ + tail@.subrange(from as int, to as int),
{
    let mut i: usize = from;
    while i < to
        invariant
            from <= i <= to <= tail@.len(),
            text@ == old(text)@ + tail@.subrange(from as int, i as int),
        decreases to - i,
    {
        push_char(text, tail[i]);
        proof {
            assert(text@ =~= old(text)@ + tail@.subrange(from as int, i + 1));
        }
        i += 1;
    }
}

/// Appends every character of `tail` to `text`.
pub(crate) fn push_text(text: &mut String, tail: &str)
    ensures
        final(text)@ == old(text)@ + tail@,
{
    let n = tail.unicode_len();
    let mut i: usize = 0;
    while i < n
        invariant
            n == tail@.len(),
            i <= n,
            text@ == old(text)@ + tail@.subrange(0, i as int),
        decreases n - i,
    {
        push_char(text, tail.get_char(i));
        proof {
            assert(text@ =~= old(text)@ + tail@.subrange(0, i + 1));
        }
        i += 1;
    }
    proof {
        assert(tail@.subrange(0, n as int) =~= tail@);
    }
}

} // verus!
