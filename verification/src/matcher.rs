use vstd::prelude::*;

use crate::hex_codec::{hex_of, hex_to_bytes, lemma_hex_round_trip, to_hex};

verus! {

/// The key occurs in the dictionary as a contiguous run starting at `p`.
pub open spec fn is_match_at(dict: Seq<char>, key: Seq<char>, p: int) -> bool {
    &&& 0 <= p
    &&& p + key.len() <= dict.len()
    &&& dict.subrange(p, p + key.len() as int) == key
}

/// The leftmost position at or after `p` where the key occurs in the
/// dictionary, if any.
pub open spec fn first_match_from(dict: Seq<char>, key: Seq<char>, p: int) -> Option<int>
    decreases dict.len() - p,
{
    if p < 0 || p + key.len() > dict.len() {
        None
    } else if dict.subrange(p, p + key.len() as int) =~= key {
        Some(p)
    } else {
        first_match_from(dict, key, p + 1)
    }
}

/// The leftmost position where the key occurs in the dictionary, if any.
pub open spec fn find_spec(dict: Seq<char>, key: Seq<char>) -> Option<int> {
    first_match_from(dict, key, 0)
}

/// `first_match_from` returns the leftmost match position at or after `p`,
/// and `None` exactly when no position at or after `p` matches.
pub proof fn lemma_first_match_from(dict: Seq<char>, key: Seq<char>, p: int)
    requires
        0 <= p,
    ensures
        (match first_match_from(dict, key, p) {
            Some(q) => {
                &&& p <= q
                &&& is_match_at(dict, key, q)
                &&& forall|r: int| p <= r < q ==> !is_match_at(dict, key, r)
            },
            None => forall|r: int| p <= r ==> !is_match_at(dict, key, r),
        }),
    decreases dict.len() - p,
{
    if p + key.len() > dict.len() {
        assert forall|r: int| p <= r implies !is_match_at(dict, key, r) by {}
    } else if dict.subrange(p, p + key.len() as int) =~= key {
    } else {
        lemma_first_match_from(dict, key, p + 1);
    }
}

/// The leftmost occurrence overall, phrased over `find_spec`.
pub proof fn lemma_find_spec(dict: Seq<char>, key: Seq<char>)
    ensures
        (match find_spec(dict, key) {
            Some(q) => {
                &&& is_match_at(dict, key, q)
                &&& forall|r: int| r < q ==> !is_match_at(dict, key, r)
            },
            None => forall|r: int| !is_match_at(dict, key, r),
        }),
{
    lemma_first_match_from(dict, key, 0);
}

/// Finds the leftmost occurrence of `key` as a contiguous substring of
/// `dict`, by character.
fn find_first(dict: &str, key: &str) -> (r: Option<usize>)
    ensures
        (match r {
            Some(p) => find_spec(dict@, key@) == Some(p as int),
            None => find_spec(dict@, key@) is None,
        }),
{
    let n = dict.unicode_len();
    let m = key.unicode_len();
    if m > n {
        return None;
    }
    if m == 0 {
        proof {
            assert(dict@.subrange(0, 0) =~= key@);
        }
        return Some(0);
    }
    let mut p: usize = 0;
    while p <= n - m
        invariant
            1 <= m <= n,
            n == dict@.len(),
            m == key@.len(),
            p <= n - m + 1,
            first_match_from(dict@, key@, 0) == first_match_from(dict@, key@, p as int),
        decreases n - m + 1 - p,
    {
        let mut k: usize = 0;
        let mut agree = true;
        while k < m && agree
            invariant
                m <= n,
                n == dict@.len(),
                m == key@.len(),
                p + m <= n,
                k <= m,
                agree ==> dict@.subrange(p as int, p + k as int) == key@.subrange(0, k as int),
                !agree ==> dict@.subrange(p as int, p + m as int) != key@,
            decreases m - k + (if agree { 1int } else { 0int }),
        {
            if dict.get_char(p + k) == key.get_char(k) {
                proof {
                    assert(dict@.subrange(p as int, p + k + 1 as int) =~= key@.subrange(
                        0,
                        k as int + 1,
                    ));
                }
                k += 1;
            } else {
                proof {
                    assert(dict@.subrange(p as int, p + m as int)[k as int] != key@[k as int]);
                }
                agree = false;
            }
        }
        if agree {
            proof {
                assert(key@.subrange(0, m as int) =~= key@);
                assert(dict@.subrange(p as int, p + m as int) == key@);
            }
            return Some(p);
        }
        p += 1;
    }
    proof {
        assert(first_match_from(dict@, key@, p as int) is None);
    }
    None
}

/// Looks up the hexadecimal rendering of `slice` in the dictionary and, on
/// success, returns the leftmost position of the occurrence together with its
/// length in dictionary characters. The occurrence is re-decoded and compared
/// against `slice` before it is reported.
pub fn find_verified_match(slice: &[u8], dict: &str) -> (r: Option<(usize, usize)>)
    ensures
        (match r {
            Some(found) => {
                &&& found.1 == 2 * slice@.len()
                &&& find_spec(dict@, hex_of(slice@)) == Some(found.0 as int)
            },
            None => find_spec(dict@, hex_of(slice@)) is None,
        }),
{
    let key = to_hex(slice);
    let hex_len = key.as_str().unicode_len();
    proof {
        lemma_hex_round_trip(slice@);
    }
    match find_first(dict, key.as_str()) {
        None => None,
        Some(p) => {
            let n = dict.unicode_len();
            proof {
                lemma_find_spec(dict@, key@);
                assert(p + hex_len <= n);
            }
            // The invariant re-check called for by the design: decode the
            // occurrence and confirm it reproduces the candidate bytes.
            let sub = dict.substring_char(p, p + hex_len);
            match hex_to_bytes(sub) {
                Ok(decoded) => {
                    if bytes_eq(decoded.as_slice(), slice) {
                        Some((p, hex_len))
                    } else {
                        // Unreachable: an exact occurrence of the key decodes
                        // to the bytes the key was built from.
                        None
                    }
                },
                Err(_) => None,
            }
        },
    }
}

/// Compares two byte slices for equality, element by element.
fn bytes_eq(a: &[u8], b: &[u8]) -> (r: bool)
    ensures
        r <==> a@ == b@,
{
    if a.len() != b.len() {
        proof {
            assert(a@ != b@);
        }
        return false;
    }
    let mut k: usize = 0;
    while k < a.len()
        invariant
            a@.len() == b@.len(),
            k <= a@.len(),
            forall|j: int| 0 <= j < k ==> a@[j] == b@[j],
        decreases a@.len() - k,
    {
        if a[k] != b[k] {
            return false;
        }
        k += 1;
    }
    proof {
        assert(a@ =~= b@);
    }
    true
}

} // verus!
