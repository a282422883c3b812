//! Decimal text of numbers and labels of vertex identifiers.

use vstd::prelude::*;

use crate::models::NodeId;

verus! {

/// The character of a decimal digit.
pub open spec fn digit_char(d: nat) -> char {
    if d == 0 { '0' }
    else if d == 1 { '1' }
    else if d == 2 { '2' }
    else if d == 3 { '3' }
    else if d == 4 { '4' }
    else if d == 5 { '5' }
    else if d == 6 { '6' }
    else if d == 7 { '7' }
    else if d == 8 { '8' }
    else { '9' }
}

/// The decimal text of a number, without leading zeros.
pub open spec fn decimal(n: nat) -> Seq<char>
    decreases n,
{
    if n < 10 {
        seq![digit_char(n)]
    } else {
        decimal(n / 10) + seq![digit_char(n % 10)]
    }
}

/// The text of one decimal digit.
fn digit_str(d: u64) -> (r: &'static str)
    requires
        d < 10,
    ensures
        r@ == seq![digit_char(d as nat)],
{
    proof {
        reveal_strlit("0");
        reveal_strlit("1");
        reveal_strlit("2");
        reveal_strlit("3");
        reveal_strlit("4");
        reveal_strlit("5");
        reveal_strlit("6");
        reveal_strlit("7");
        reveal_strlit("8");
        reveal_strlit("9");
    }
    if d == 0 { "0" }
    else if d == 1 { "1" }
    else if d == 2 { "2" }
    else if d == 3 { "3" }
    else if d == 4 { "4" }
    else if d == 5 { "5" }
    else if d == 6 { "6" }
    else if d == 7 { "7" }
    else if d == 8 { "8" }
    else { "9" }
}

/// Appends the decimal text of `n` to `text`.
pub fn push_decimal(text: &mut String, n: u64)
    ensures
        final(text)@ == old(text)@ + decimal(n as nat),
    decreases n,
{
    if n < 10 {
        text.append(digit_str(n));
    } else {
        push_decimal(text, n / 10);
        text.append(digit_str(n % 10));
        assert(final(text)@ =~= old(text)@ + decimal(n as nat));
    }
}

/// `prefix` followed by the decimal text of `n`.
pub fn numbered(prefix: &str, n: u64) -> (r: String)
    ensures
        r@ == prefix@ + decimal(n as nat),
{
    let mut text = prefix.to_owned();
    push_decimal(&mut text, n);
    text
}

/// The label of a vertex identifier: its kind, a colon and its id.
pub open spec fn label_of(id: NodeId) -> Seq<char> {
    match id {
        NodeId::Client(k) => "cliente:"@ + decimal(k as nat),
        NodeId::Product(k) => "produto:"@ + decimal(k as nat),
        NodeId::Category(k) => "categoria:"@ + decimal(k as nat),
    }
}

impl NodeId {
    /// The label shown to users, such as `cliente:1`.
    pub fn label(&self) -> (r: String)
        ensures
            r@ == label_of(*self),
    {
        match self {
            NodeId::Client(k) => numbered("cliente:", *k),
            NodeId::Product(k) => numbered("produto:", *k),
            NodeId::Category(k) => numbered("categoria:", *k),
        }
    }
}

} // verus!
