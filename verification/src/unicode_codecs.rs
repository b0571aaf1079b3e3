//! Escaping of text into decimal character references.

use vstd::prelude::*;
use vstd::string::*;

verus! {

/// Marker for the rewriting pass that escapes the text of a document.
pub struct UnicodeHtml;

/// The character that writes the digit `d`.
pub open spec fn digit(d: nat) -> char {
    ((48 + d) as u8) as char
}

/// The decimal digits of `n`, most significant first, without leading zeros.
pub open spec fn decimal(n: nat) -> Seq<char>
    decreases n,
{
    if n < 10 {
        seq![digit(n)]
    } else {
        decimal(n / 10).push(digit(n % 10))
    }
}

/// What one character becomes: itself up to code point 128, and above that
/// `&#`, its code point in decimal, and `;`.
pub open spec fn escaped(c: char) -> Seq<char> {
    if c as u32 > 128 {
        seq!['&', '#'] + decimal(c as u32 as nat) + seq![';']
    } else {
        seq![c]
    }
}

/// The escaped form of a whole text: the escaped characters, in order.
pub open spec fn encoded(s: Seq<char>) -> Seq<char>
    decreases s.len(),
{
    if s.len() == 0 {
        Seq::empty()
    } else {
        encoded(s.drop_last()) + escaped(s.last())
    }
}

/// `String::push` of std: the character is appended and nothing else changes.
#[verifier::external_body]
fn push_char(s: &mut String, c: char)
    ensures
        final(s)@ == old(s)@.push(c),
{
    s.push(c)
}

fn push_decimal(s: &mut String, n: u32)
    ensures
        final(s)@ == old(s)@ + decimal(n as nat),
    decreases n,
{
    if n >= 10 {
        push_decimal(s, n / 10);
    }
    let d: u8 = (48 + n % 10) as u8;
    push_char(s, d as char);
    proof {
        if n < 10 {
            assert(old(s)@.push(digit(n as nat)) =~= old(s)@ + decimal(n as nat));
        } else {
            assert((old(s)@ + decimal((n / 10) as nat)).push(digit((n % 10) as nat)) =~= old(s)@
                + decimal(n as nat));
        }
    }
}

fn push_escaped(s: &mut String, c: char)
    ensures
        final(s)@ == old(s)@ + escaped(c),
{
    if c as u32 > 128 {
        push_char(s, '&');
        push_char(s, '#');
        push_decimal(s, c as u32);
        push_char(s, ';');
        proof {
            assert(final(s)@ =~= old(s)@ + escaped(c));
        }
    } else {
        push_char(s, c);
        proof {
            assert(final(s)@ =~= old(s)@ + escaped(c));
        }
    }
}

/// Escapes every character above code point 128 as a decimal reference and
/// keeps the others.
pub fn unicode2dec(text: String) -> (res: String)
    ensures
        res@ == encoded(text@),
{
    let src = text.as_str();
    let n: usize = src.unicode_len();
    let mut out = String::new();
    let mut i: usize = 0;
    while i < n
        invariant
            i <= n,
            n == text@.len(),
            src@ == text@,
            out@ == encoded(text@.take(i as int)),
        decreases n - i,
    {
        let c = src.get_char(i);
        push_escaped(&mut out, c);
        proof {
            assert(text@.take(i + 1).drop_last() =~= text@.take(i as int));
        }
        i += 1;
    }
    proof {
        assert(text@.take(n as int) =~= text@);
    }
    out
}

impl UnicodeHtml {
    /// The new content of one text node: its escaped form.
    pub fn rewrite(content: String) -> (res: String)
        ensures
            res@ == encoded(content@),
    {
        unicode2dec(content)
    }
}

/// Escaping goes character by character: the form of a concatenation is the
/// concatenation of the forms.
pub proof fn lemma_encoded_concat(a: Seq<char>, b: Seq<char>)
    ensures
        encoded(a + b) == encoded(a) + encoded(b),
    decreases b.len(),
{
    if b.len() == 0 {
        assert(a + b =~= a);
        assert(encoded(a) + encoded(b) =~= encoded(a));
    } else {
        assert((a + b).drop_last() =~= a + b.drop_last());
        assert((a + b).last() == b.last());
        lemma_encoded_concat(a, b.drop_last());
        assert(encoded(a + b) =~= encoded(a) + encoded(b));
    }
}

} // verus!
