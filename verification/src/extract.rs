use vstd::prelude::*;

use vstd::slice::slice_subrange;

use crate::guid::{GUID, is_valid_guid};

verus! {

/// Why extraction of an identifier from one metadata file failed.
#[derive(Clone, Copy, Debug, PartialEq, Eq, Structural)]
pub enum ExtractError {
    /// No line of the file begins with the identifier marker.
    MissingField,
    /// The identifier text is not exactly 32 lowercase hexadecimal digits.
    Format,
}

/// The field marker `guid:`, as bytes.
pub open spec fn guid_marker() -> Seq<u8> {
    seq![103u8, 117u8, 105u8, 100u8, 58u8]
}

/// `p` is a prefix of `s`.
pub open spec fn starts_with(s: Seq<u8>, p: Seq<u8>) -> bool {
    p.len() <= s.len() && s.subrange(0, p.len() as int) == p
}

/// The bytes of `s` before its first line feed; all of `s` if there is none.
pub open spec fn first_line(s: Seq<u8>) -> Seq<u8>
    decreases s.len(),
{
    if s.len() == 0 {
        Seq::<u8>::empty()
    } else if s[0] == 10 {
        Seq::<u8>::empty()
    } else {
        seq![s[0]] + first_line(s.drop_first())
    }
}

/// The bytes of `s` after its first line feed; empty if there is none.
pub open spec fn skip_first_line(s: Seq<u8>) -> Seq<u8>
    decreases s.len(),
{
    if s.len() == 0 {
        s
    } else if s[0] == 10 {
        s.drop_first()
    } else {
        skip_first_line(s.drop_first())
    }
}

proof fn lemma_skip_first_line_len(s: Seq<u8>)
    ensures
        skip_first_line(s).len() <= s.len(),
        s.len() > 0 ==> skip_first_line(s).len() < s.len(),
    decreases s.len(),
{
    if s.len() > 0 && s[0] != 10 {
        lemma_skip_first_line_len(s.drop_first());
    }
}

/// The first line of `s` that begins with the `guid:` marker, if any.
pub open spec fn spec_guid_line(s: Seq<u8>) -> Option<Seq<u8>>
    decreases s.len(),
    via spec_guid_line_decreases
{
    if s.len() == 0 {
        None
    } else if starts_with(first_line(s), guid_marker()) {
        Some(first_line(s))
    } else {
        spec_guid_line(skip_first_line(s))
    }
}

#[via_fn]
proof fn spec_guid_line_decreases(s: Seq<u8>) {
    lemma_skip_first_line_len(s);
}

/// The identifier text of a marker line's remainder: one leading space, then
/// one trailing carriage return, each stripped if present.
pub open spec fn clean_value(v: Seq<u8>) -> Seq<u8> {
    let v1 = if v.len() > 0 && v[0] == 32 {
        v.drop_first()
    } else {
        v
    };
    if v1.len() > 0 && v1.last() == 13 {
        v1.drop_last()
    } else {
        v1
    }
}

/// What identifier extraction yields on the text of one metadata file: the
/// cleaned remainder of the first `guid:` line when it passes validation,
/// and otherwise which of the two failures occurred.
pub open spec fn spec_extract(s: Seq<u8>) -> Result<Seq<u8>, ExtractError> {
    match spec_guid_line(s) {
        None => Err(ExtractError::MissingField),
        Some(line) => {
            let v = clean_value(line.subrange(guid_marker().len() as int, line.len() as int));
            if is_valid_guid(v) {
                Ok(v)
            } else {
                Err(ExtractError::Format)
            }
        },
    }
}

/// A scan that stopped at `j` - the first line feed, or the end - splits `s`
/// into its first line and the rest.
proof fn lemma_line_split(s: Seq<u8>, j: int)
    requires
        0 <= j <= s.len(),
        forall|k: int| 0 <= k < j ==> s[k] != 10,
        j < s.len() ==> s[j] == 10,
    ensures
        first_line(s) == s.subrange(0, j),
        skip_first_line(s) == if j == s.len() {
            Seq::<u8>::empty()
        } else {
            s.skip(j + 1)
        },
    decreases j,
{
    if j == 0 {
        if s.len() == 0 {
            assert(first_line(s) =~= s.subrange(0, 0));
            assert(skip_first_line(s) =~= Seq::<u8>::empty());
        } else {
            assert(s[0] == 10);
            assert(first_line(s) =~= s.subrange(0, 0));
            assert(s.drop_first() =~= s.skip(1));
        }
    } else {
        let t = s.drop_first();
        assert forall|k: int| 0 <= k < j - 1 implies t[k] != 10 by {
            assert(t[k] == s[k + 1]);
        }
        assert(j - 1 < t.len() ==> t[j - 1] == 10) by {
            if j - 1 < t.len() {
                assert(t[j - 1] == s[j]);
            }
        }
        lemma_line_split(t, j - 1);
        assert(seq![s[0]] + t.subrange(0, j - 1) =~= s.subrange(0, j));
        if j < s.len() {
            assert(t.skip(j) =~= s.skip(j + 1));
        }
    }
}

/// Finds the first line of `content` that begins with `guid:`, takes the
/// remainder after the colon, strips one leading space and one trailing
/// carriage return, and validates the result as an identifier. Fails with
/// `MissingField` when no line carries the marker, and with `Format` when
/// the remainder is not a valid identifier.
pub fn extract_guid(content: &[u8]) -> (r: Result<GUID, ExtractError>)
    ensures
        match r {
            Ok(g) => spec_extract(content@) == Ok::<Seq<u8>, ExtractError>(g@),
            Err(e) => spec_extract(content@) == Err::<Seq<u8>, ExtractError>(e),
        },
{
    let n = content.len();
    let mut pos: usize = 0;
    proof {
        assert(content@.skip(0) =~= content@);
    }
    loop
        invariant
            0 <= pos <= n,
            n == content@.len(),
            spec_guid_line(content@) == spec_guid_line(content@.skip(pos as int)),
        decreases n - pos,
    {
        let ghost tail = content@.skip(pos as int);
        let mut j = pos;
        while j < n && content[j] != 10
            invariant
                pos <= j <= n,
                n == content@.len(),
                forall|k: int| pos <= k < j ==> content@[k] != 10,
            decreases n - j,
        {
            j += 1;
        }
        proof {
            assert forall|k: int| 0 <= k < j - pos implies tail[k] != 10 by {
                assert(tail[k] == content@[pos + k]);
            }
            assert(j - pos < tail.len() ==> tail[j - pos] == 10) by {
                if j < n {
                    assert(tail[j - pos] == content@[j as int]);
                }
            }
            lemma_line_split(tail, j - pos);
            assert(tail.subrange(0, j - pos) =~= content@.subrange(pos as int, j as int));
        }
        let ghost line = content@.subrange(pos as int, j as int);
        let has_marker = j - pos >= 5 && content[pos] == 103 && content[pos + 1] == 117
            && content[pos + 2] == 105 && content[pos + 3] == 100 && content[pos + 4] == 58;
        proof {
            if has_marker {
                assert(line.subrange(0, 5) =~= guid_marker());
                assert(starts_with(line, guid_marker()));
            } else if starts_with(line, guid_marker()) {
                assert(line.len() >= 5);
                assert forall|k: int| 0 <= k < 5 implies line[k] == guid_marker()[k] by {
                    assert(line.subrange(0, 5)[k] == line[k]);
                }
                assert(line[0] == content@[pos as int]);
                assert(line[1] == content@[pos as int + 1]);
                assert(line[2] == content@[pos as int + 2]);
                assert(line[3] == content@[pos as int + 3]);
                assert(line[4] == content@[pos as int + 4]);
                assert(false);
            }
        }
        if has_marker {
            let ghost a0 = pos as int + 5;
            let mut a = pos + 5;
            let mut bend = j;
            if a < bend && content[a] == 32 {
                a += 1;
            }
            if a < bend && content[bend - 1] == 13 {
                bend -= 1;
            }
            proof {
                let v = line.subrange(5, line.len() as int);
                assert(v =~= content@.subrange(a0, j as int));
                let v1 = if v.len() > 0 && v[0] == 32 {
                    v.drop_first()
                } else {
                    v
                };
                assert(v[0] == content@[a0] || v.len() == 0);
                assert(v1 =~= content@.subrange(a as int, j as int));
                let v2 = if v1.len() > 0 && v1.last() == 13 {
                    v1.drop_last()
                } else {
                    v1
                };
                assert(v1.len() == 0 || v1.last() == content@[j - 1]);
                assert(v2 =~= content@.subrange(a as int, bend as int));
                assert(clean_value(v) == v2);
                assert(spec_guid_line(content@) == Some(line));
            }
            let value = slice_subrange(content, a, bend);
            match GUID::from_bytes(value) {
                Ok(g) => {
                    return Ok(g);
                },
                Err(_) => {
                    return Err(ExtractError::Format);
                },
            }
        }
        if j == n {
            proof {
                assert(spec_guid_line(Seq::<u8>::empty()) is None);
                if tail.len() > 0 {
                    assert(skip_first_line(tail) =~= Seq::<u8>::empty());
                }
            }
            return Err(ExtractError::MissingField);
        }
        proof {
            assert(skip_first_line(tail) =~= content@.skip(j + 1));
            assert(tail.len() > 0);
        }
        pos = j + 1;
    }
}

} // verus!
