use vstd::prelude::*;

use crate::hex_codec::{hex_decode_spec, hex_of, hex_to_bytes};
use crate::matcher::{find_spec, find_verified_match};
use vstd::slice::slice_subrange;

verus! {

/// One unit of the compressed representation: a back-reference into the
/// dictionary, or bytes kept literally.
#[derive(Debug, PartialEq, Eq)]
pub enum Segment {
    /// `len` input bytes whose hexadecimal rendering occupies the `2 * len`
    /// dictionary characters starting at `pos`.
    Match { pos: usize, len: usize },
    /// Bytes stored as they are.
    Raw(Vec<u8>),
}

/// The mathematical shape of a segment.
pub enum SegmentModel {
    Match { pos: int, len: int },
    Raw(Seq<u8>),
}

impl View for Segment {
    type V = SegmentModel;

    open spec fn view(&self) -> SegmentModel {
        match self {
            Segment::Match { pos, len } => SegmentModel::Match {
                pos: *pos as int,
                len: *len as int,
            },
            Segment::Raw(bytes) => SegmentModel::Raw(bytes@),
        }
    }
}

/// The models of a run of segments.
pub open spec fn seg_views(segs: Seq<Segment>) -> Seq<SegmentModel> {
    segs.map_values(|seg: Segment| seg@)
}

/// Why replaying a segment run failed.
#[derive(Debug, Clone, Copy, PartialEq, Eq, Structural)]
pub enum DecompressError {
    /// A Match segment reaches past the end of the dictionary.
    OutOfBounds,
    /// The referenced dictionary characters do not decode as hex.
    InvalidHex,
    /// The decoded byte count disagrees with the recorded length.
    LengthMismatch,
}

/// The longest length `l` in `1..=cap` such that the hexadecimal rendering of
/// `input[i..i+l]` occurs in the dictionary, or `0` when none does.
pub open spec fn longest_match_len(dict: Seq<char>, input: Seq<u8>, i: int, cap: int) -> int
    decreases cap,
{
    if cap <= 0 {
        0
    } else if find_spec(dict, hex_of(input.subrange(i, i + cap))) is Some {
        cap
    } else {
        longest_match_len(dict, input, i, cap - 1)
    }
}

/// `longest_match_len` stays within `0..=cap`, names a length whose key
/// occurs when it is positive, and no greater length's key occurs.
pub proof fn lemma_longest_match_len(dict: Seq<char>, input: Seq<u8>, i: int, cap: int)
    ensures
        0 <= longest_match_len(dict, input, i, cap),
        longest_match_len(dict, input, i, cap) <= cap || cap < 0,
        ({
            let l = longest_match_len(dict, input, i, cap);
            &&& l > 0 ==> find_spec(dict, hex_of(input.subrange(i, i + l))) is Some
            &&& forall|l2: int|
                l < l2 <= cap ==> find_spec(
                    dict,
                    hex_of(#[trigger] input.subrange(i, i + l2)),
                ) is None
        }),
    decreases cap,
{
    if cap > 0 && find_spec(dict, hex_of(input.subrange(i, i + cap))) is None {
        lemma_longest_match_len(dict, input, i, cap - 1);
    }
}

/// Pins `longest_match_len` to a concrete value: a length (or zero) above
/// which no key occurs, and whose own key occurs when positive.
pub proof fn lemma_longest_match_len_is(
    dict: Seq<char>,
    input: Seq<u8>,
    i: int,
    cap: int,
    l: int,
)
    requires
        0 <= l <= cap,
        l > 0 ==> find_spec(dict, hex_of(input.subrange(i, i + l))) is Some,
        forall|l2: int|
            l < l2 <= cap ==> find_spec(dict, hex_of(#[trigger] input.subrange(i, i + l2))) is None,
    ensures
        longest_match_len(dict, input, i, cap) == l,
    decreases cap,
{
    if cap > l {
        lemma_longest_match_len_is(dict, input, i, cap - 1, l);
    }
}

/// The greedy segment run for the input suffix that starts at `i`: at each
/// cursor the longest match (leftmost occurrence) is taken, and a single
/// literal byte where no length matches.
pub open spec fn compress_from(dict: Seq<char>, input: Seq<u8>, i: int) -> Seq<SegmentModel>
    decreases input.len() - i,
{
    if i < 0 || i >= input.len() {
        Seq::empty()
    } else {
        let l = longest_match_len(dict, input, i, input.len() - i);
        if l > 0 {
            proof {
                lemma_longest_match_len(dict, input, i, input.len() - i);
            }
            let key = hex_of(input.subrange(i, i + l));
            let pos = find_spec(dict, key)->0;
            seq![SegmentModel::Match { pos: pos, len: l }] + compress_from(dict, input, i + l)
        } else {
            seq![SegmentModel::Raw(seq![input[i]])] + compress_from(dict, input, i + 1)
        }
    }
}

/// The segment run that compression yields for the whole input.
pub open spec fn compress_spec(dict: Seq<char>, input: Seq<u8>) -> Seq<SegmentModel> {
    compress_from(dict, input, 0)
}

/// What replaying one segment against the dictionary yields: the bytes it
/// stands for, or the first applicable error (bounds, then hex validity,
/// then the recorded length).
pub open spec fn seg_expand(dict: Seq<char>, seg: SegmentModel) -> Result<Seq<u8>, DecompressError> {
    match seg {
        SegmentModel::Match { pos, len } => {
            if pos < 0 || len < 0 || pos + 2 * len > dict.len() {
                Err(DecompressError::OutOfBounds)
            } else {
                match hex_decode_spec(dict.subrange(pos, pos + 2 * len)) {
                    Ok(bytes) => {
                        if bytes.len() == len {
                            Ok(bytes)
                        } else {
                            Err(DecompressError::LengthMismatch)
                        }
                    },
                    Err(_) => Err(DecompressError::InvalidHex),
                }
            }
        },
        SegmentModel::Raw(bytes) => Ok(bytes),
    }
}

/// What replaying a segment run yields: the concatenation of every segment's
/// bytes, or the leftmost segment's error.
pub open spec fn decompress_spec(dict: Seq<char>, segs: Seq<SegmentModel>) -> Result<
    Seq<u8>,
    DecompressError,
>
    decreases segs.len(),
{
    if segs.len() == 0 {
        Ok(Seq::empty())
    } else {
        match seg_expand(dict, segs[0]) {
            Ok(bytes) => match decompress_spec(dict, segs.drop_first()) {
                Ok(rest) => Ok(bytes + rest),
                Err(e) => Err(e),
            },
            Err(e) => Err(e),
        }
    }
}

/// Greedily compresses `input` against the dictionary `pi`: at each cursor
/// position the longest byte run whose hexadecimal rendering occurs in the
/// dictionary becomes a Match segment (leftmost occurrence), and a position
/// where no run of any length matches becomes a single literal byte.
pub fn compress(input: &[u8], pi: &str) -> (out: Vec<Segment>)
    ensures
        seg_views(out@) == compress_spec(pi@, input@),
{
    let mut out: Vec<Segment> = Vec::new();
    let mut i: usize = 0;
    proof {
        assert(seg_views(out@) + compress_from(pi@, input@, 0) =~= compress_spec(pi@, input@));
    }
    while i < input.len()
        invariant
            i <= input.len(),
            seg_views(out@) + compress_from(pi@, input@, i as int) == compress_spec(pi@, input@),
        decreases input.len() - i,
    {
        let ghost prev_out = out@;
        let mut j = input.len();
        let mut matched: Option<(usize, usize)> = None;
        while j > i && matched.is_none()
            invariant
                i <= j,
                j <= input.len(),
                i < input.len(),
                forall|l2: int|
                    j - i < l2 <= input.len() - i ==> find_spec(
                        pi@,
                        hex_of(#[trigger] input@.subrange(i as int, i + l2)),
                    ) is None,
                (matched matches Some(found) ==> {
                    &&& i < j
                    &&& found.1 == 2 * (j - i)
                    &&& find_spec(pi@, hex_of(input@.subrange(i as int, j as int))) == Some(
                        found.0 as int,
                    )
                }),
            decreases j + (if matched is None { 1int } else { 0int }),
        {
            let sub = slice_subrange(input, i, j);
            matched = find_verified_match(sub, pi);
            if matched.is_none() {
                proof {
                    assert(input@.subrange(i as int, i + (j - i)) =~= input@.subrange(
                        i as int,
                        j as int,
                    ));
                }
                j -= 1;
            }
        }
        match matched {
            Some(found) => {
                proof {
                    lemma_longest_match_len_is(
                        pi@,
                        input@,
                        i as int,
                        input@.len() - i,
                        j - i,
                    );
                    let l = j - i;
                    assert(compress_from(pi@, input@, i as int) == seq![
                        SegmentModel::Match { pos: found.0 as int, len: l },
                    ] + compress_from(pi@, input@, i + l));
                }
                out.push(Segment::Match { pos: found.0, len: j - i });
                proof {
                    assert(seg_views(out@) =~= seg_views(prev_out).push(
                        SegmentModel::Match { pos: found.0 as int, len: j - i },
                    ));
                    assert(seg_views(prev_out).push(
                        SegmentModel::Match { pos: found.0 as int, len: j - i },
                    ) + compress_from(pi@, input@, j as int) =~= seg_views(prev_out)
                        + compress_from(pi@, input@, i as int));
                }
                i = j;
            },
            None => {
                proof {
                    lemma_longest_match_len_is(pi@, input@, i as int, input@.len() - i, 0);
                    assert(compress_from(pi@, input@, i as int) == seq![
                        SegmentModel::Raw(seq![input@[i as int]]),
                    ] + compress_from(pi@, input@, i + 1));
                }
                let mut raw: Vec<u8> = Vec::new();
                raw.push(input[i]);
                proof {
                    assert(raw@ =~= seq![input@[i as int]]);
                }
                out.push(Segment::Raw(raw));
                proof {
                    assert(seg_views(out@) =~= seg_views(prev_out).push(
                        SegmentModel::Raw(seq![input@[i as int]]),
                    ));
                    assert(seg_views(prev_out).push(SegmentModel::Raw(seq![input@[i as int]]))
                        + compress_from(pi@, input@, i + 1) =~= seg_views(prev_out)
                        + compress_from(pi@, input@, i as int));
                }
                i += 1;
            },
        }
    }
    proof {
        assert(compress_from(pi@, input@, i as int) =~= Seq::<SegmentModel>::empty());
        assert(seg_views(out@) =~= compress_spec(pi@, input@));
    }
    out
}

/// Replays a segment run against the dictionary `pi`, reconstructing the
/// bytes the run stands for. Each Match segment is bounds-checked, decoded
/// from the dictionary's characters, and checked against its recorded length;
/// Raw segments are copied as they are.
pub fn decompress(segments: &[Segment], pi: &str) -> (r: Result<Vec<u8>, DecompressError>)
    ensures
        (match r {
            Ok(v) => decompress_spec(pi@, seg_views(segments@)) == Ok::<
                Seq<u8>,
                DecompressError,
            >(v@),
            Err(e) => decompress_spec(pi@, seg_views(segments@)) == Err::<
                Seq<u8>,
                DecompressError,
            >(e),
        }),
{
    let n = pi.unicode_len();
    let mut buf: Vec<u8> = Vec::new();
    let mut k: usize = 0;
    proof {
        assert(segments@.skip(0) =~= segments@);
        let whole = decompress_spec(pi@, seg_views(segments@));
        if whole is Ok {
            assert(buf@ + whole->Ok_0 =~= whole->Ok_0);
        }
    }
    while k < segments.len()
        invariant
            k <= segments@.len(),
            n == pi@.len(),
            (match decompress_spec(pi@, seg_views(segments@.skip(k as int))) {
                Ok(rest) => decompress_spec(pi@, seg_views(segments@)) == Ok::<
                    Seq<u8>,
                    DecompressError,
                >(buf@ + rest),
                Err(e) => decompress_spec(pi@, seg_views(segments@)) == Err::<
                    Seq<u8>,
                    DecompressError,
                >(e),
            }),
        decreases segments@.len() - k,
    {
        let ghost buf0 = buf@;
        let ghost views = seg_views(segments@.skip(k as int));
        proof {
            assert(views[0] == segments@[k as int]@);
            assert(seg_views(segments@.skip(k as int)).drop_first() =~= seg_views(
                segments@.skip(k as int + 1),
            ));
        }
        match &segments[k] {
            Segment::Match { pos, len } => {
                let pos = *pos;
                let len = *len;
                if pos > n || len > (n - pos) / 2 {
                    proof {
                        assert(seg_expand(pi@, views[0]) == Err::<
                            Seq<u8>,
                            DecompressError,
                        >(DecompressError::OutOfBounds));
                    }
                    return Err(DecompressError::OutOfBounds);
                }
                proof {
                    assert(pos + 2 * len <= n);
                }
                let sub = pi.substring_char(pos, pos + 2 * len);
                match hex_to_bytes(sub) {
                    Ok(decoded) => {
                        if decoded.len() != len {
                            proof {
                                assert(seg_expand(pi@, views[0]) == Err::<
                                    Seq<u8>,
                                    DecompressError,
                                >(DecompressError::LengthMismatch));
                            }
                            return Err(DecompressError::LengthMismatch);
                        }
                        let mut idx: usize = 0;
                        proof {
                            assert(buf@ =~= buf0 + decoded@.subrange(0, 0));
                        }
                        while idx < decoded.len()
                            invariant
                                idx <= decoded@.len(),
                                buf@ == buf0 + decoded@.subrange(0, idx as int),
                            decreases decoded@.len() - idx,
                        {
                            buf.push(decoded[idx]);
                            proof {
                                assert(buf@ =~= buf0 + decoded@.subrange(0, idx as int + 1));
                            }
                            idx += 1;
                        }
                        proof {
                            assert(decoded@.subrange(0, decoded@.len() as int) =~= decoded@);
                            assert(seg_expand(pi@, views[0]) == Ok::<
                                Seq<u8>,
                                DecompressError,
                            >(decoded@));
                            let rest_r = decompress_spec(pi@, seg_views(segments@.skip(k + 1)));
                            if rest_r is Ok {
                                assert((buf0 + decoded@) + rest_r->Ok_0 =~= buf0 + (decoded@
                                    + rest_r->Ok_0));
                            }
                        }
                    },
                    Err(_) => {
                        proof {
                            assert(seg_expand(pi@, views[0]) == Err::<
                                Seq<u8>,
                                DecompressError,
                            >(DecompressError::InvalidHex));
                        }
                        return Err(DecompressError::InvalidHex);
                    },
                }
            },
            Segment::Raw(bytes) => {
                let mut idx: usize = 0;
                proof {
                    assert(buf@ =~= buf0 + bytes@.subrange(0, 0));
                }
                while idx < bytes.len()
                    invariant
                        idx <= bytes@.len(),
                        buf@ == buf0 + bytes@.subrange(0, idx as int),
                    decreases bytes@.len() - idx,
                {
                    buf.push(bytes[idx]);
                    proof {
                        assert(buf@ =~= buf0 + bytes@.subrange(0, idx as int + 1));
                    }
                    idx += 1;
                }
                proof {
                    assert(bytes@.subrange(0, bytes@.len() as int) =~= bytes@);
                    assert(seg_expand(pi@, views[0]) == Ok::<Seq<u8>, DecompressError>(bytes@));
                    let rest_r = decompress_spec(pi@, seg_views(segments@.skip(k + 1)));
                    if rest_r is Ok {
                        assert((buf0 + bytes@) + rest_r->Ok_0 =~= buf0 + (bytes@
                            + rest_r->Ok_0));
                    }
                }
            },
        }
        k += 1;
    }
    proof {
        assert(segments@.skip(k as int) =~= Seq::<Segment>::empty());
        assert(seg_views(segments@.skip(k as int)) =~= Seq::<SegmentModel>::empty());
        assert(buf@ + Seq::<u8>::empty() =~= buf@);
    }
    Ok(buf)
}

} // verus!
