//! Three-way comparison results and the byte-wise order on text.

use vstd::prelude::*;
use vstd::utf8::*;

verus! {

/// The outcome of a three-way comparison.
#[derive(Clone, Copy, Debug, PartialEq, Eq, Structural)]
pub enum Order {
    Less,
    Equal,
    Greater,
}

impl Order {
    /// The outcome of the same comparison with its operands exchanged.
    pub open spec fn flip(self) -> Order {
        match self {
            Order::Less => Order::Greater,
            Order::Equal => Order::Equal,
            Order::Greater => Order::Less,
        }
    }

    /// This outcome where it decides, else `next`.
    pub open spec fn or_else(self, next: Order) -> Order {
        match self {
            Order::Equal => next,
            _ => self,
        }
    }
}

/// The order on numbers.
pub open spec fn number_order(a: u64, b: u64) -> Order {
    if a < b {
        Order::Less
    } else if a > b {
        Order::Greater
    } else {
        Order::Equal
    }
}

/// Compares two numbers.
pub fn compare_numbers(a: u64, b: u64) -> (r: Order)
    ensures
        r == number_order(a, b),
{
    if a < b {
        Order::Less
    } else if a > b {
        Order::Greater
    } else {
        Order::Equal
    }
}

/// The text that an optional string holds.
pub open spec fn optional_text(text: Option<String>) -> Option<Seq<char>> {
    match text {
        Some(t) => Some(t@),
        None => None,
    }
}

/// The order on optional texts: no text comes before any text.
pub open spec fn optional_text_order(a: Option<Seq<char>>, b: Option<Seq<char>>) -> Order {
    match (a, b) {
        (None, None) => Order::Equal,
        (None, Some(_)) => Order::Less,
        (Some(_), None) => Order::Greater,
        (Some(x), Some(y)) => text_order(x, y),
    }
}

/// Compares two optional texts.
pub fn compare_optional_text(a: &Option<String>, b: &Option<String>) -> (r: Order)
    ensures
        r == optional_text_order(optional_text(*a), optional_text(*b)),
{
    match a {
        None => match b {
            None => Order::Equal,
            Some(_) => Order::Less,
        },
        Some(x) => match b {
            None => Order::Greater,
            Some(y) => compare_text(x.as_str(), y.as_str()),
        },
    }
}

/// Lexicographic order on byte sequences: the first differing byte decides,
/// and a proper prefix sorts before the longer sequence.
pub open spec fn bytes_order(a: Seq<u8>, b: Seq<u8>) -> Order
    decreases a.len(),
{
    if a.len() == 0 {
        if b.len() == 0 {
            Order::Equal
        } else {
            Order::Less
        }
    } else if b.len() == 0 {
        Order::Greater
    } else if a[0] < b[0] {
        Order::Less
    } else if a[0] > b[0] {
        Order::Greater
    } else {
        bytes_order(a.drop_first(), b.drop_first())
    }
}

/// The order on text: lexicographic on the UTF-8 encoding.
pub open spec fn text_order(a: Seq<char>, b: Seq<char>) -> Order {
    bytes_order(encode_utf8(a), encode_utf8(b))
}

/// Bytes that two sequences share at their start do not decide their
/// order.
pub proof fn lemma_bytes_order_skip(a: Seq<u8>, b: Seq<u8>, i: int)
    requires
        0 <= i <= a.len(),
        i <= b.len(),
        forall|k: int| 0 <= k < i ==> a[k] == b[k],
    ensures
        bytes_order(a, b) == bytes_order(a.skip(i), b.skip(i)),
    decreases i,
{
    if i == 0 {
        assert(a.skip(0) =~= a);
        assert(b.skip(0) =~= b);
    } else {
        lemma_bytes_order_skip(a.drop_first(), b.drop_first(), i - 1);
        assert(a.drop_first().skip(i - 1) =~= a.skip(i));
        assert(b.drop_first().skip(i - 1) =~= b.skip(i));
    }
}

/// Exchanging the operands of the order on bytes flips its outcome.
pub proof fn lemma_bytes_order_flip(a: Seq<u8>, b: Seq<u8>)
    ensures
        bytes_order(b, a) == bytes_order(a, b).flip(),
    decreases a.len(),
{
    if a.len() > 0 && b.len() > 0 && a[0] == b[0] {
        lemma_bytes_order_flip(a.drop_first(), b.drop_first());
    }
}

/// Two byte sequences compare equal exactly when they are the same.
pub proof fn lemma_bytes_order_equal(a: Seq<u8>, b: Seq<u8>)
    ensures
        bytes_order(a, b) == Order::Equal <==> a == b,
    decreases a.len(),
{
    if a.len() > 0 && b.len() > 0 && a[0] == b[0] {
        lemma_bytes_order_equal(a.drop_first(), b.drop_first());
        if a.drop_first() == b.drop_first() {
            assert(a =~= seq![a[0]] + a.drop_first());
            assert(b =~= seq![b[0]] + b.drop_first());
        }
    } else if a.len() == 0 && b.len() == 0 {
        assert(a =~= b);
    }
}

/// The order on bytes is transitive, and two sequences that compare equal
/// have nothing strictly between them.
pub proof fn lemma_bytes_order_transitive(a: Seq<u8>, b: Seq<u8>, c: Seq<u8>)
    requires
        bytes_order(a, b) != Order::Greater,
        bytes_order(b, c) != Order::Greater,
    ensures
        bytes_order(a, c) != Order::Greater,
        bytes_order(a, c) == Order::Equal ==> bytes_order(a, b) == Order::Equal && bytes_order(
            b,
            c,
        ) == Order::Equal,
    decreases a.len(),
{
    if a.len() > 0 && b.len() > 0 && c.len() > 0 && a[0] == b[0] && b[0] == c[0] {
        lemma_bytes_order_transitive(a.drop_first(), b.drop_first(), c.drop_first());
    }
}

/// Exchanging the operands of the order on text flips its outcome.
pub proof fn lemma_text_order_flip(a: Seq<char>, b: Seq<char>)
    ensures
        text_order(b, a) == text_order(a, b).flip(),
{
    lemma_bytes_order_flip(encode_utf8(a), encode_utf8(b));
}

/// Two texts compare equal exactly when they are the same text.
pub proof fn lemma_text_order_equal(a: Seq<char>, b: Seq<char>)
    ensures
        text_order(a, b) == Order::Equal <==> a == b,
{
    lemma_bytes_order_equal(encode_utf8(a), encode_utf8(b));
    encode_utf8_decode_utf8(a);
    encode_utf8_decode_utf8(b);
}

/// The order on text is transitive, and two texts that compare equal have
/// nothing strictly between them.
pub proof fn lemma_text_order_transitive(a: Seq<char>, b: Seq<char>, c: Seq<char>)
    requires
        text_order(a, b) != Order::Greater,
        text_order(b, c) != Order::Greater,
    ensures
        text_order(a, c) != Order::Greater,
        text_order(a, c) == Order::Equal ==> text_order(a, b) == Order::Equal && text_order(b, c)
            == Order::Equal,
{
    lemma_bytes_order_transitive(encode_utf8(a), encode_utf8(b), encode_utf8(c));
}

/// Compares two texts by their UTF-8 bytes.
pub fn compare_text(a: &str, b: &str) -> (r: Order)
    ensures
        r == text_order(a@, b@),
{
    let x = a.as_bytes();
    let y = b.as_bytes();
    let mut i: usize = 0;
    while i < x.len() && i < y.len()
        invariant
            i <= x@.len(),
            i <= y@.len(),
            x@ == encode_utf8(a@),
            y@ == encode_utf8(b@),
            forall|k: int| 0 <= k < i ==> x@[k] == y@[k],
        decreases x@.len() - i,
    {
        if x[i] < y[i] {
            proof {
                lemma_bytes_order_skip(x@, y@, i as int);
            }
            return Order::Less;
        }
        if x[i] > y[i] {
            proof {
                lemma_bytes_order_skip(x@, y@, i as int);
            }
            return Order::Greater;
        }
        i = i + 1;
    }
    proof {
        lemma_bytes_order_skip(x@, y@, i as int);
    }
    if i < y.len() {
        Order::Less
    } else if i < x.len() {
        Order::Greater
    } else {
        Order::Equal
    }
}

} // verus!
