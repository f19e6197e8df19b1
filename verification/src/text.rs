//! Small building blocks for assembling `String`s in verified code.

use vstd::prelude::*;

verus! {

/// `String::push` appends the given character to the end of the string and
/// leaves the characters before it as they were.
pub assume_specification[ String::push ](s: &mut String, ch: char)
    ensures
        final(s)@ == old(s)@.push(ch),
;

/// `unit` written `n` times in a row.
pub open spec fn repeated(unit: Seq<char>, n: nat) -> Seq<char>
    decreases n,
{
    if n == 0 {
        Seq::empty()
    } else {
        repeated(unit, (n - 1) as nat) + unit
    }
}

/// The character `c` between two single quotes.
pub open spec fn quoted(c: char) -> Seq<char> {
    seq!['\'', c, '\'']
}

/// The characters of `chars`, each between single quotes, separated by a
/// comma and a space.
pub open spec fn quoted_list(chars: Seq<char>) -> Seq<char>
    decreases chars.len(),
{
    if chars.len() == 0 {
        Seq::empty()
    } else if chars.len() == 1 {
        quoted(chars[0])
    } else {
        quoted_list(chars.drop_last()) + seq![',', ' '] + quoted(chars.last())
    }
}

/// Appends to `out` the characters of `chars`, quoted and comma-separated.
pub fn push_quoted_list(out: &mut String, chars: &Vec<char>)
    ensures
        final(out)@ == old(out)@ + quoted_list(chars@),
{
    let mut i: usize = 0;
    while i < chars.len()
        invariant
            i <= chars.len(),
            out@ == old(out)@ + quoted_list(chars@.take(i as int)),
        decreases chars.len() - i,
    {
        let ghost before = chars@.take(i as int);
        let ghost after = chars@.take(i + 1);
        assert(after.drop_last() == before);
        if i > 0 {
            out.push(',');
            out.push(' ');
        }
        out.push('\'');
        out.push(chars[i]);
        out.push('\'');
        assert(out@ == old(out)@ + quoted_list(after));
        i += 1;
    }
    assert(chars@.take(i as int) == chars@);
}

} // verus!
