use vstd::prelude::*;

use crate::codec::{
    compress_from, compress_spec, decompress_spec, lemma_longest_match_len, longest_match_len,
    seg_expand, DecompressError, SegmentModel,
};
use crate::hex_codec::lemma_hex_round_trip;
use crate::hex_codec::hex_of;
use crate::matcher::{find_spec, is_match_at, lemma_find_spec};

verus! {

/// The count of input bytes one segment stands for.
pub open spec fn seg_byte_len(seg: SegmentModel) -> int {
    match seg {
        SegmentModel::Match { len, .. } => len,
        SegmentModel::Raw(bytes) => bytes.len() as int,
    }
}

/// The input offset at which segment `k` of a run begins: the sum of the
/// byte counts of the segments before it.
pub open spec fn offset_of(segs: Seq<SegmentModel>, k: int) -> int
    decreases k,
{
    if k <= 0 {
        0
    } else {
        offset_of(segs, k - 1) + seg_byte_len(segs[k - 1])
    }
}

proof fn lemma_offset_cons(seg: SegmentModel, rest: Seq<SegmentModel>, k: int)
    requires
        0 <= k <= rest.len(),
    ensures
        offset_of(seq![seg] + rest, k + 1) == seg_byte_len(seg) + offset_of(rest, k),
    decreases k,
{
    let cons = seq![seg] + rest;
    assert(offset_of(cons, k + 1) == offset_of(cons, k) + seg_byte_len(cons[k]));
    if k > 0 {
        lemma_offset_cons(seg, rest, k - 1);
        assert(cons[k] == rest[k - 1]);
        assert(offset_of(rest, k) == offset_of(rest, k - 1) + seg_byte_len(rest[k - 1]));
    } else {
        assert(cons[0] == seg);
    }
}

/// What the greedy scan guarantees of each segment it emits, at the input
/// offset where that segment begins: a Match consumes a run of the greatest
/// matchable length and reports the leftmost occurrence of its key; a Raw
/// segment holds exactly the one byte at an offset where no run of any
/// length matches.
pub proof fn lemma_compress_from_segment(dict: Seq<char>, input: Seq<u8>, i: int, k: int)
    requires
        0 <= i <= input.len(),
        0 <= k < compress_from(dict, input, i).len(),
    ensures
        ({
            let segs = compress_from(dict, input, i);
            let p = i + offset_of(segs, k);
            &&& i <= p < input.len()
            &&& (segs[k] matches SegmentModel::Match { pos, len } ==> {
                &&& 1 <= len <= input.len() - p
                &&& is_match_at(dict, hex_of(input.subrange(p, p + len)), pos)
                &&& (forall|q: int|
                    q < pos ==> !(#[trigger] is_match_at(
                        dict,
                        hex_of(input.subrange(p, p + len)),
                        q,
                    )))
                &&& (forall|l2: int, q: int|
                    len < l2 <= input.len() - p ==> !(#[trigger] is_match_at(
                        dict,
                        hex_of(input.subrange(p, p + l2)),
                        q,
                    )))
            })
            &&& (segs[k] matches SegmentModel::Raw(bytes) ==> {
                &&& bytes == seq![input[p]]
                &&& (forall|l2: int, q: int|
                    1 <= l2 <= input.len() - p ==> !(#[trigger] is_match_at(
                        dict,
                        hex_of(input.subrange(p, p + l2)),
                        q,
                    )))
            })
        }),
    decreases input.len() - i,
{
    let segs = compress_from(dict, input, i);
    let cap = input.len() - i;
    let l = longest_match_len(dict, input, i, cap);
    lemma_longest_match_len(dict, input, i, cap);
    let rest = if l > 0 {
        compress_from(dict, input, i + l)
    } else {
        compress_from(dict, input, i + 1)
    };
    if k == 0 {
        if l > 0 {
            let key = hex_of(input.subrange(i, i + l));
            lemma_find_spec(dict, key);
            assert(segs[0] == SegmentModel::Match { pos: find_spec(dict, key)->0, len: l });
            assert forall|l2: int, q: int| l < l2 <= input.len() - i implies !(
            #[trigger] is_match_at(dict, hex_of(input.subrange(i, i + l2)), q)) by {
                lemma_find_spec(dict, hex_of(input.subrange(i, i + l2)));
            }
        } else {
            assert(segs[0] == SegmentModel::Raw(seq![input[i]]));
            assert forall|l2: int, q: int| 1 <= l2 <= input.len() - i implies !(
            #[trigger] is_match_at(dict, hex_of(input.subrange(i, i + l2)), q)) by {
                lemma_find_spec(dict, hex_of(input.subrange(i, i + l2)));
            }
        }
    } else {
        let step: int = if l > 0 {
            l
        } else {
            1
        };
        let seg0 = segs[0];
        assert(segs == seq![seg0] + rest);
        assert(segs[k] == rest[k - 1]);
        assert(seg_byte_len(seg0) == step);
        lemma_offset_cons(seg0, rest, k - 1);
        lemma_compress_from_segment(dict, input, i + step, k - 1);
    }
}

/// Round trip, segment by segment: decompressing the greedy run for the
/// input suffix that starts at `i` reconstructs exactly that suffix.
#[verifier::rlimit(50)]
proof fn lemma_round_trip_from(dict: Seq<char>, input: Seq<u8>, i: int)
    requires
        0 <= i <= input.len(),
    ensures
        decompress_spec(dict, compress_from(dict, input, i)) == Ok::<Seq<u8>, DecompressError>(
            input.subrange(i, input.len() as int),
        ),
    decreases input.len() - i,
{
    let end = input.len() as int;
    if i == end {
        assert(input.subrange(i, end) =~= Seq::<u8>::empty());
    } else {
        let cap = input.len() - i;
        let l = longest_match_len(dict, input, i, cap);
        lemma_longest_match_len(dict, input, i, cap);
        let segs = compress_from(dict, input, i);
        if l > 0 {
            let slice = input.subrange(i, i + l);
            let key = hex_of(slice);
            lemma_find_spec(dict, key);
            lemma_hex_round_trip(slice);
            let pos = find_spec(dict, key)->0;
            let rest = compress_from(dict, input, i + l);
            assert(segs[0] == SegmentModel::Match { pos: pos, len: l });
            assert(segs.drop_first() =~= rest);
            assert(dict.subrange(pos, pos + 2 * l) == key);
            assert(seg_expand(dict, segs[0]) == Ok::<Seq<u8>, DecompressError>(slice));
            lemma_round_trip_from(dict, input, i + l);
            assert(slice + input.subrange(i + l, end) =~= input.subrange(i, end));
        } else {
            let rest = compress_from(dict, input, i + 1);
            assert(segs[0] == SegmentModel::Raw(seq![input[i]]));
            assert(segs.drop_first() =~= rest);
            assert(seg_expand(dict, segs[0]) == Ok::<Seq<u8>, DecompressError>(seq![input[i]]));
            lemma_round_trip_from(dict, input, i + 1);
            assert(seq![input[i]] + input.subrange(i + 1, end) =~= input.subrange(i, end));
        }
    }
}

/// Round trip: decompressing what compression produced reconstructs the
/// input exactly, for every input and every dictionary.
pub proof fn lemma_round_trip(dict: Seq<char>, input: Seq<u8>)
    ensures
        decompress_spec(dict, compress_spec(dict, input)) == Ok::<Seq<u8>, DecompressError>(input),
{
    lemma_round_trip_from(dict, input, 0);
    assert(input.subrange(0, input.len() as int) =~= input);
}

/// Bounds invariant: every Match segment of a compression run lies inside
/// the dictionary — its position plus its hex length never passes the end.
pub proof fn lemma_bounds_invariant(dict: Seq<char>, input: Seq<u8>, k: int)
    requires
        0 <= k < compress_spec(dict, input).len(),
        compress_spec(dict, input)[k] is Match,
    ensures
        0 <= compress_spec(dict, input)[k]->pos,
        compress_spec(dict, input)[k]->pos + 2 * compress_spec(dict, input)[k]->len <= dict.len(),
{
    lemma_compress_from_segment(dict, input, 0, k);
}

/// Greedy maximality: where a Match segment begins, no byte run longer than
/// the one it consumed has a hexadecimal rendering that occurs anywhere in
/// the dictionary.
pub proof fn lemma_greedy_maximality(dict: Seq<char>, input: Seq<u8>, k: int, l2: int)
    requires
        0 <= k < compress_spec(dict, input).len(),
        compress_spec(dict, input)[k] is Match,
        compress_spec(dict, input)[k]->len < l2 <= input.len() - offset_of(
            compress_spec(dict, input),
            k,
        ),
    ensures
        forall|q: int|
            !(#[trigger] is_match_at(
                dict,
                hex_of(
                    input.subrange(
                        offset_of(compress_spec(dict, input), k),
                        offset_of(compress_spec(dict, input), k) + l2,
                    ),
                ),
                q,
            )),
{
    lemma_compress_from_segment(dict, input, 0, k);
}

/// Leftmost tie-break: a Match segment reports the leftmost dictionary
/// position at which its key occurs; every earlier position fails to match.
pub proof fn lemma_leftmost_tie_break(dict: Seq<char>, input: Seq<u8>, k: int)
    requires
        0 <= k < compress_spec(dict, input).len(),
        compress_spec(dict, input)[k] is Match,
    ensures
        ({
            let segs = compress_spec(dict, input);
            let p = offset_of(segs, k);
            let key = hex_of(input.subrange(p, p + segs[k]->len));
            &&& is_match_at(dict, key, segs[k]->pos)
            &&& forall|q: int| q < segs[k]->pos ==> !(#[trigger] is_match_at(dict, key, q))
        }),
{
    lemma_compress_from_segment(dict, input, 0, k);
}

/// Determinism: the segment run that compression yields is a function of
/// the input and the dictionary alone, so two runs over the same arguments
/// are identical.
pub proof fn lemma_compress_deterministic(
    dict: Seq<char>,
    input: Seq<u8>,
    r1: Seq<SegmentModel>,
    r2: Seq<SegmentModel>,
)
    requires
        r1 == compress_spec(dict, input),
        r2 == compress_spec(dict, input),
    ensures
        r1 == r2,
{
}

} // verus!
