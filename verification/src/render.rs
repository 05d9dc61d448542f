//! The text of an answer: one line for each binding.

use vstd::prelude::*;
use crate::ast::{Binding, BindingView};
use crate::grammar::decimal;
use crate::scan::text;

verus! {

/// The decimal digits of `n`, without leading zeros.
pub open spec fn digits_of(n: nat) -> Seq<u8>
    decreases n,
{
    if n < 10 {
        seq![('0' as u8 + n) as u8]
    } else {
        digits_of(n / 10).push(('0' as u8 + n % 10) as u8)
    }
}

/// The line of one binding: `group(G) binding(B) DECLARATION;` and a line
/// feed.
pub open spec fn line_of(b: BindingView) -> Seq<u8> {
    text("group(") + digits_of(b.group as nat) + text(") binding(") + digits_of(b.binding as nat)
        + text(") ") + b.decl + text(";\n")
}

/// The lines of a list of bindings, in order.
pub open spec fn lines_of(list: Seq<BindingView>) -> Seq<u8>
    decreases list.len(),
{
    if list.len() == 0 {
        Seq::empty()
    } else {
        lines_of(list.drop_last()) + line_of(list.last())
    }
}

/// The digits written for a number are read back as that number.
pub proof fn lemma_digits_read_back(n: nat)
    ensures
        decimal(digits_of(n)) == n,
        digits_of(n).len() > 0,
        forall|i: int| 0 <= i < digits_of(n).len() ==> crate::scan::ByteClass::Digit.has(
            #[trigger] digits_of(n)[i],
        ),
    decreases n,
{
    if n < 10 {
        let d = digits_of(n);
        assert(d.drop_last() =~= Seq::<u8>::empty());
        assert(decimal(d.drop_last()) == 0);
    } else {
        lemma_digits_read_back(n / 10);
        let d = digits_of(n);
        assert(d.drop_last() =~= digits_of(n / 10));
    }
}

/// Appends the decimal digits of `n` to `out`.
pub fn push_decimal(out: &mut Vec<u8>, n: u32)
    ensures
        final(out)@ == old(out)@ + digits_of(n as nat),
    decreases n,
{
    if n >= 10 {
        push_decimal(out, n / 10);
    }
    out.push('0' as u8 + (n % 10) as u8);
    assert(out@ =~= old(out)@ + digits_of(n as nat));
}

/// Appends the bytes of `t` to `out`.
fn push_text(out: &mut Vec<u8>, t: &[u8])
    ensures
        final(out)@ == old(out)@ + t@,
{
    let mut i: usize = 0;
    while i < t.len()
        invariant
            i <= t@.len(),
            out@ == old(out)@ + t@.take(i as int),
        decreases t@.len() - i,
    {
        out.push(t[i]);
        assert(out@ =~= old(out)@ + t@.take(i + 1));
        i = i + 1;
    }
    assert(t@.take(i as int) =~= t@);
}

/// Appends the line of the binding `b` to `out`.
pub fn push_line(out: &mut Vec<u8>, b: &Binding)
    ensures
        final(out)@ == old(out)@ + line_of(b@),
{
    push_text(out, "group(".as_bytes());
    push_decimal(out, b.group);
    push_text(out, ") binding(".as_bytes());
    push_decimal(out, b.binding);
    push_text(out, ") ".as_bytes());
    push_text(out, b.decl.as_slice());
    push_text(out, ";\n".as_bytes());
    assert(out@ =~= old(out)@ + line_of(b@));
}

} // verus!
