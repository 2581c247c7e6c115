//! Identifiers unique across a cluster: a node's name, a hyphen, and a
//! per-node counter in decimal.
use vstd::prelude::*;

verus! {

/// The character of decimal digit `d`.
pub open spec fn digit_char(d: nat) -> char {
    seq!['0', '1', '2', '3', '4', '5', '6', '7', '8', '9'][d as int]
}

/// The decimal digits of `n`, most significant first, with no leading zero.
pub open spec fn decimal(n: nat) -> Seq<char>
    decreases n,
{
    if n < 10 {
        seq![digit_char(n)]
    } else {
        decimal(n / 10).push(digit_char(n % 10))
    }
}

/// The identifier that node `node` gives out at count `n`.
pub open spec fn id_text(node: Seq<char>, n: nat) -> Seq<char> {
    node + seq!['-'] + decimal(n)
}

/// Relies on std's `format!` with `{}` for a `&str` and a `u64`: the string,
/// then the hyphen, then the number in decimal digits.
#[verifier::external_body]
fn format_id(node: &str, n: u64) -> (r: String)
    ensures
        r@ == id_text(node@, n as nat),
{
    format!("{}-{}", node, n)
}

/// Hands out identifiers; `timestamp` is the count of those given so far.
pub struct GenerateIdNode {
    timestamp: u64,
}

impl View for GenerateIdNode {
    type V = nat;

    closed spec fn view(&self) -> nat {
        self.timestamp as nat
    }
}

impl GenerateIdNode {
    /// A generator that has given out nothing yet.
    pub fn from_init() -> (r: Self)
        ensures
            r@ == 0,
    {
        GenerateIdNode { timestamp: 0 }
    }

    /// The count of identifiers given out so far.
    pub fn timestamp(&self) -> (r: u64)
        ensures
            r == self@,
    {
        self.timestamp
    }

    /// The next identifier of node `node_id`.
    pub fn generate(&mut self, node_id: &String) -> (r: String)
        requires
            old(self)@ < u64::MAX,
        ensures
            r@ == id_text(node_id@, old(self)@),
            final(self)@ == old(self)@ + 1,
    {
        let r = format_id(node_id.as_str(), self.timestamp);
        self.timestamp = self.timestamp + 1;
        r
    }
}

proof fn lemma_decimal_len(n: nat)
    ensures
        decimal(n).len() >= 1,
        n >= 10 ==> decimal(n).len() >= 2,
    decreases n,
{
    if n >= 10 {
        lemma_decimal_len(n / 10);
    }
}

proof fn lemma_digit_injective(a: nat, b: nat)
    requires
        a < 10,
        b < 10,
        digit_char(a) == digit_char(b),
    ensures
        a == b,
{
}

/// Distinct counts have distinct decimal digits.
pub proof fn lemma_decimal_injective(a: nat, b: nat)
    requires
        decimal(a) == decimal(b),
    ensures
        a == b,
    decreases a,
{
    lemma_decimal_len(a);
    lemma_decimal_len(b);
    if a < 10 && b < 10 {
        assert(decimal(a)[0] == digit_char(a));
        assert(decimal(b)[0] == digit_char(b));
        lemma_digit_injective(a, b);
    } else if a >= 10 && b >= 10 {
        assert(decimal(a).drop_last() == decimal(b).drop_last());
        assert(decimal(a / 10) =~= decimal(a).drop_last());
        assert(decimal(b / 10) =~= decimal(b).drop_last());
        lemma_decimal_injective(a / 10, b / 10);
        assert(decimal(a).last() == digit_char(a % 10));
        assert(decimal(b).last() == digit_char(b % 10));
        lemma_digit_injective(a % 10, b % 10);
    }
}

/// One node never gives out the same identifier at two counts.
pub proof fn lemma_ids_unique(node: Seq<char>, a: nat, b: nat)
    requires
        a != b,
    ensures
        id_text(node, a) != id_text(node, b),
{
    if id_text(node, a) == id_text(node, b) {
        let k: int = node.len() as int + 1;
        assert(decimal(a) =~= id_text(node, a).skip(k));
        assert(decimal(b) =~= id_text(node, b).skip(k));
        lemma_decimal_injective(a, b);
    }
}

} // verus!
