use vstd::prelude::*;

verus! {

/// An address key as plain integers: (family, ip, port, flowinfo, scope id).
/// Family 0 is IPv4 and 1 is IPv6; an IPv4 address sits in the low 32 bits of
/// `ip` (in network order) and has flowinfo and scope id 0. Tuples compare
/// lexicographically, which is the order of socket addresses.
pub type AddrKey = (u8, u128, u16, u32, u32);

/// A socket address: its key, by which it is compared and ordered, and the
/// text by which it is shown.
pub struct SockAddr {
    pub key: AddrKey,
    pub text: String,
}

impl Clone for SockAddr {
    fn clone(&self) -> (res: Self)
        ensures
            res == *self,
    {
        SockAddr { key: self.key, text: self.text.clone() }
    }
}

/// Lexicographic order on address keys.
pub open spec fn key_lt(a: AddrKey, b: AddrKey) -> bool {
    ||| a.0 < b.0
    ||| a.0 == b.0 && a.1 < b.1
    ||| a.0 == b.0 && a.1 == b.1 && a.2 < b.2
    ||| a.0 == b.0 && a.1 == b.1 && a.2 == b.2 && a.3 < b.3
    ||| a.0 == b.0 && a.1 == b.1 && a.2 == b.2 && a.3 == b.3 && a.4 < b.4
}

/// Whether two address keys are the same address.
pub fn key_eq(a: &AddrKey, b: &AddrKey) -> (res: bool)
    ensures
        res == (*a == *b),
{
    a.0 == b.0 && a.1 == b.1 && a.2 == b.2 && a.3 == b.3 && a.4 == b.4
}

/// Whether `a` comes strictly before `b`.
pub fn key_less(a: &AddrKey, b: &AddrKey) -> (res: bool)
    ensures
        res == key_lt(*a, *b),
{
    if a.0 != b.0 {
        a.0 < b.0
    } else if a.1 != b.1 {
        a.1 < b.1
    } else if a.2 != b.2 {
        a.2 < b.2
    } else if a.3 != b.3 {
        a.3 < b.3
    } else {
        a.4 < b.4
    }
}

/// The order on keys is a strict total order.
pub proof fn lemma_key_order(a: AddrKey, b: AddrKey, c: AddrKey)
    ensures
        !key_lt(a, a),
        key_lt(a, b) ==> !key_lt(b, a),
        key_lt(a, b) && key_lt(b, c) ==> key_lt(a, c),
        a == b || key_lt(a, b) || key_lt(b, a),
{
}

} // verus!
