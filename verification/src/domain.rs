//! Syntactic validation of recipient addresses.
//!
//! The delivery executor never hands the transport an address that fails
//! this check, and a queued task whose address fails it is resolved as a
//! permanent skip without a transport call.

use vstd::prelude::*;

verus! {

/// A byte a recipient address may contain: printable ASCII, space excluded.
pub open spec fn allowed_byte(b: u8) -> bool {
    32 < b < 127
}

/// `i` is the position of the sole `@` in `s`, with a nonempty local part
/// before it and a nonempty domain after it.
pub open spec fn at_position(s: Seq<u8>, i: int) -> bool {
    &&& 0 < i < s.len() - 1
    &&& s[i] == 64
    &&& forall|j: int| 0 <= j < s.len() && j != i ==> s[j] != 64
}

/// Syntactic validity of a recipient address: printable ASCII bytes with
/// exactly one `@` separating a nonempty local part from a nonempty domain.
pub open spec fn is_valid_email(s: Seq<u8>) -> bool {
    &&& forall|j: int| 0 <= j < s.len() ==> allowed_byte(s[j])
    &&& exists|i: int| at_position(s, i)
}

/// Decides `is_valid_email` for the given bytes.
pub fn is_valid(s: &Vec<u8>) -> (r: bool)
    ensures
        r == is_valid_email(s@),
{
    let n = s.len();
    let mut i: usize = 0;
    let mut at: Option<usize> = None;
    while i < n
        invariant
            n == s@.len(),
            i <= n,
            forall|j: int| 0 <= j < i ==> allowed_byte(s@[j]),
            match at {
                Option::None => forall|j: int| 0 <= j < i ==> s@[j] != 64,
                Option::Some(k) => {
                    &&& k < i
                    &&& s@[k as int] == 64
                    &&& forall|j: int| 0 <= j < i && j != k ==> s@[j] != 64
                },
            },
        decreases n - i,
    {
        let b = s[i];
        if !(b > 32 && b < 127) {
            proof {
                assert(!allowed_byte(s@[i as int]));
            }
            return false;
        }
        if b == 64 {
            match at {
                Option::None => {
                    at = Some(i);
                }
                Option::Some(k) => {
                    proof {
                        assert forall|p: int| !at_position(s@, p) by {
                            if at_position(s@, p) {
                                if p == k {
                                    assert(s@[i as int] != 64);
                                } else {
                                    assert(s@[k as int] != 64);
                                }
                            }
                        }
                    }
                    return false;
                }
            }
        }
        i += 1;
    }
    match at {
        Option::None => {
            proof {
                assert forall|p: int| !at_position(s@, p) by {
                    if at_position(s@, p) {
                        assert(s@[p] != 64);
                    }
                }
            }
            false
        }
        Option::Some(k) => {
            if k == 0 || k + 1 == n {
                proof {
                    assert forall|p: int| !at_position(s@, p) by {
                        if at_position(s@, p) && p != k {
                            assert(s@[k as int] != 64);
                        }
                    }
                }
                false
            } else {
                proof {
                    assert(at_position(s@, k as int));
                }
                true
            }
        }
    }
}

/// A syntactically valid recipient address.
pub struct SubscriberEmail {
    bytes: Vec<u8>,
}

/// Rejection of a recipient address that is not syntactically valid.
#[derive(Debug, PartialEq, Eq)]
pub struct EmailAddressError;

impl View for SubscriberEmail {
    type V = Seq<u8>;

    closed spec fn view(&self) -> Seq<u8> {
        self.bytes@
    }
}

impl SubscriberEmail {
    /// Accepts exactly the syntactically valid addresses and keeps the
    /// accepted bytes unchanged.
    pub fn parse(s: Vec<u8>) -> (r: Result<SubscriberEmail, EmailAddressError>)
        ensures
            r is Ok <==> is_valid_email(s@),
            r matches Ok(e) ==> e@ == s@,
    {
        if is_valid(&s) {
            Ok(SubscriberEmail { bytes: s })
        } else {
            Err(EmailAddressError)
        }
    }

    /// The address bytes.
    pub fn as_bytes(&self) -> (r: &Vec<u8>)
        ensures
            r@ == self@,
    {
        &self.bytes
    }

    /// Every value of this type satisfies the validity predicate.
    pub fn valid(&self) -> (r: bool)
        ensures
            r == is_valid_email(self@),
    {
        is_valid(&self.bytes)
    }
}

/// Whether two byte vectors hold the same bytes.
pub(crate) fn bytes_eq(a: &Vec<u8>, b: &Vec<u8>) -> (r: bool)
    ensures
        r == (a@ == b@),
{
    if a.len() != b.len() {
        return false;
    }
    let mut i: usize = 0;
    while i < a.len()
        invariant
            a@.len() == b@.len(),
            i <= a@.len(),
            forall|j: int| 0 <= j < i ==> a@[j] == b@[j],
        decreases a@.len() - i,
    {
        if a[i] != b[i] {
            return false;
        }
        i += 1;
    }
    proof {
        assert(a@ =~= b@);
    }
    true
}

/// A fresh vector holding the same bytes.
pub(crate) fn copy_bytes(v: &Vec<u8>) -> (r: Vec<u8>)
    ensures
        r@ == v@,
{
    let mut out: Vec<u8> = Vec::new();
    let mut i: usize = 0;
    while i < v.len()
        invariant
            i <= v@.len(),
            out@ == v@.take(i as int),
        decreases v@.len() - i,
    {
        out.push(v[i]);
        proof {
            assert(out@ =~= v@.take(i + 1 as int));
        }
        i += 1;
    }
    proof {
        assert(out@ =~= v@);
    }
    out
}

} // verus!
