use vstd::prelude::*;

use vstd::slice::slice_to_vec;
use vstd::string::StringSliceAdditionalSpecFns;

verus! {

/// A byte that is a lowercase hexadecimal digit: `0`-`9` (ASCII 48-57)
/// or `a`-`f` (ASCII 97-102).
pub open spec fn is_hex_digit(b: u8) -> bool {
    (48 <= b && b <= 57) || (97 <= b && b <= 102)
}

/// A valid identifier is exactly 32 lowercase hexadecimal digits.
pub open spec fn is_valid_guid(s: Seq<u8>) -> bool {
    s.len() == 32 && (forall|i: int| 0 <= i < s.len() ==> is_hex_digit(#[trigger] s[i]))
}

/// Strict lexicographic order on byte sequences; a proper prefix sorts
/// before every extension of it.
pub open spec fn lex_lt(a: Seq<u8>, b: Seq<u8>) -> bool
    decreases a.len(),
{
    if b.len() == 0 {
        false
    } else if a.len() == 0 {
        true
    } else if a[0] < b[0] {
        true
    } else if b[0] < a[0] {
        false
    } else {
        lex_lt(a.drop_first(), b.drop_first())
    }
}

pub proof fn lemma_lex_lt_irrefl(a: Seq<u8>)
    ensures
        !lex_lt(a, a),
    decreases a.len(),
{
    if a.len() > 0 {
        lemma_lex_lt_irrefl(a.drop_first());
    }
}

pub proof fn lemma_lex_lt_trans(a: Seq<u8>, b: Seq<u8>, c: Seq<u8>)
    requires
        lex_lt(a, b),
        lex_lt(b, c),
    ensures
        lex_lt(a, c),
    decreases a.len(),
{
    if a.len() > 0 && b.len() > 0 && c.len() > 0 && a[0] == b[0] && b[0] == c[0] {
        lemma_lex_lt_trans(a.drop_first(), b.drop_first(), c.drop_first());
    }
}

pub proof fn lemma_lex_lt_connected(a: Seq<u8>, b: Seq<u8>)
    requires
        a != b,
    ensures
        lex_lt(a, b) || lex_lt(b, a),
    decreases a.len(),
{
    if a.len() == 0 && b.len() == 0 {
        assert(a =~= b);
    } else if a.len() > 0 && b.len() > 0 && a[0] == b[0] {
        if a.drop_first() == b.drop_first() {
            assert(a.drop_first().len() == b.drop_first().len());
            assert(a.len() == b.len());
            assert forall|i: int| 0 <= i < a.len() implies a[i] == b[i] by {
                if i > 0 {
                    assert(a[i] == a.drop_first()[i - 1]);
                    assert(b[i] == b.drop_first()[i - 1]);
                }
            }
            assert(a =~= b);
        } else {
            lemma_lex_lt_connected(a.drop_first(), b.drop_first());
        }
    }
}

/// Dropping an equal prefix on both sides does not change the order.
pub proof fn lemma_lex_lt_common_prefix(a: Seq<u8>, b: Seq<u8>, i: int)
    requires
        0 <= i <= a.len(),
        i <= b.len(),
        forall|j: int| 0 <= j < i ==> a[j] == b[j],
    ensures
        lex_lt(a, b) == lex_lt(a.skip(i), b.skip(i)),
    decreases i,
{
    if i > 0 {
        assert(a[0] == b[0]);
        assert forall|j: int| 0 <= j < i - 1 implies a.drop_first()[j] == b.drop_first()[j] by {
            assert(a.drop_first()[j] == a[j + 1]);
            assert(b.drop_first()[j] == b[j + 1]);
        }
        lemma_lex_lt_common_prefix(a.drop_first(), b.drop_first(), i - 1);
        assert(a.drop_first().skip(i - 1) =~= a.skip(i));
        assert(b.drop_first().skip(i - 1) =~= b.skip(i));
    } else {
        assert(a.skip(0) =~= a);
        assert(b.skip(0) =~= b);
    }
}

/// A validated content identifier: exactly 32 lowercase hexadecimal bytes.
/// Equality and ordering are byte-wise.
#[derive(Debug, PartialEq, Eq)]
pub struct GUID {
    bytes: Vec<u8>,
}

impl View for GUID {
    type V = Seq<u8>;

    closed spec fn view(&self) -> Seq<u8> {
        self.bytes@
    }
}

impl GUID {
    /// Every identifier in existence satisfies the validation rule: a value
    /// that is not exactly 32 lowercase hex digits is rejected at construction.
    #[verifier::type_invariant]
    spec fn inv(self) -> bool {
        is_valid_guid(self.bytes@)
    }

    /// Validates `s` as an identifier: accepted exactly when it is
    /// 32 lowercase hexadecimal bytes, and kept byte-for-byte.
    pub fn from_bytes(s: &[u8]) -> (r: Result<GUID, ()>)
        ensures
            match r {
                Ok(g) => is_valid_guid(s@) && g@ == s@,
                Err(_) => !is_valid_guid(s@),
            },
    {
        if s.len() != 32 {
            return Err(());
        }
        let mut i: usize = 0;
        while i < 32
            invariant
                0 <= i <= 32,
                s@.len() == 32,
                forall|j: int| 0 <= j < i ==> is_hex_digit(#[trigger] s@[j]),
            decreases 32 - i,
        {
            let b = s[i];
            if !((48 <= b && b <= 57) || (97 <= b && b <= 102)) {
                return Err(());
            }
            i += 1;
        }
        Ok(GUID { bytes: slice_to_vec(s) })
    }

    /// Validates the text of `s`, byte-wise, as an identifier.
    pub fn from_str(s: &str) -> (r: Result<GUID, ()>)
        ensures
            match r {
                Ok(g) => is_valid_guid(s.spec_bytes()) && g@ == s.spec_bytes(),
                Err(_) => !is_valid_guid(s.spec_bytes()),
            },
    {
        GUID::from_bytes(s.as_bytes())
    }

    /// The identifier's 32 bytes, in order.
    pub fn bytes(&self) -> (r: &Vec<u8>)
        ensures
            r@ == self@,
    {
        &self.bytes
    }

    /// True when `self` sorts strictly before `other`.
    pub fn precedes(&self, other: &GUID) -> (r: bool)
        ensures
            r == lex_lt(self@, other@),
    {
        proof {
            use_type_invariant(self);
            use_type_invariant(other);
        }
        let mut i: usize = 0;
        while i < 32
            invariant
                0 <= i <= 32,
                self@.len() == 32,
                other@.len() == 32,
                forall|j: int| 0 <= j < i ==> self@[j] == other@[j],
            decreases 32 - i,
        {
            let x = self.bytes[i];
            let y = other.bytes[i];
            if x != y {
                proof {
                    lemma_lex_lt_common_prefix(self@, other@, i as int);
                    assert(self@.skip(i as int)[0] == self@[i as int]);
                    assert(other@.skip(i as int)[0] == other@[i as int]);
                }
                return x < y;
            }
            i += 1;
        }
        proof {
            assert(self@ =~= other@);
            lemma_lex_lt_irrefl(self@);
        }
        false
    }

    /// True when the two identifiers hold the same bytes.
    pub fn equals(&self, other: &GUID) -> (r: bool)
        ensures
            r == (self@ == other@),
    {
        proof {
            use_type_invariant(self);
            use_type_invariant(other);
        }
        let mut i: usize = 0;
        while i < 32
            invariant
                0 <= i <= 32,
                self@.len() == 32,
                other@.len() == 32,
                forall|j: int| 0 <= j < i ==> self@[j] == other@[j],
            decreases 32 - i,
        {
            if self.bytes[i] != other.bytes[i] {
                return false;
            }
            i += 1;
        }
        proof {
            assert(self@ =~= other@);
        }
        true
    }
}

} // verus!
