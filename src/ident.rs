use vstd::prelude::*;
use vstd::string::StringExecFns;

verus! {

/// The decimal digit character for `d < 10`.
pub open spec fn digit_char(d: nat) -> char {
    if d == 0 { '0' } else if d == 1 { '1' } else if d == 2 { '2' } else if d == 3 { '3' }
    else if d == 4 { '4' } else if d == 5 { '5' } else if d == 6 { '6' } else if d == 7 { '7' }
    else if d == 8 { '8' } else { '9' }
}

/// The decimal representation of `n`, most significant digit first, without leading zeros.
pub open spec fn decimal(n: nat) -> Seq<char>
    decreases n,
{
    if n < 10 {
        seq![digit_char(n)]
    } else {
        decimal(n / 10) + seq![digit_char(n % 10)]
    }
}

/// The name of a chunk or of a group of chunks.
///
/// Names are hierarchical: a sub-name of `p` for `x` reads `p_x`.
#[derive(Clone, Debug, PartialEq, Eq, Hash)]
pub struct Ident(pub String);

impl View for Ident {
    type V = Seq<char>;

    open spec fn view(&self) -> Seq<char> {
        self.0@
    }
}

/// The sub-name of `parent` for the suffix `x`.
pub open spec fn sub_name(parent: Seq<char>, x: Seq<char>) -> Seq<char> {
    parent + seq!['_'] + x
}

impl Ident {
    /// Creates the sub-identifier `"{self}_{suffix}"` within this group.
    pub fn sub(&self, suffix: &str) -> (r: Ident)
        ensures
            r@ == sub_name(self@, suffix@),
    {
        let mut name = self.0.clone();
        proof {
            reveal_strlit("_");
        }
        name.append("_");
        name.append(suffix);
        Ident(name)
    }

    /// Creates the sub-identifier `"{self}_{n}"`, with `n` written in decimal.
    pub fn sub_index(&self, n: usize) -> (r: Ident)
        ensures
            r@ == sub_name(self@, decimal(n as nat)),
    {
        let digits = decimal_string(n);
        self.sub(digits.as_str())
    }
}

/// Relies on `usize::to_string` (`Display` for integers): the number in decimal, without sign
/// or leading zeros.
#[verifier::external_body]
fn decimal_string(n: usize) -> (r: String)
    ensures
        r@ == decimal(n as nat),
{
    n.to_string()
}

} // verus!
