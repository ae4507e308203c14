//! The streams-info sections of the 7z metadata: pack info, the folders
//! with their coder graphs, and the per-substream sizes; and the resolver
//! for a header that is itself stored compressed.
use vstd::prelude::*;

use crate::bitset::{index_set_elems, IndexSet};
use crate::buffer::Buffer;
use crate::decode;
use crate::error::{ArchiveError, ErrorKind, Feature, Section};
use crate::nid::{nid_at, read_nid, NID};
use crate::read_utils::{
    all_or_bits_at, dyn64_at, dyn64_seq_at, lemma_dyn64_seq_at_split, lemma_u32_seq_at_split,
    read_all_or_bits, read_dyn_uint64, read_uint32, to_usize, u32_at, u32_seq_at,
};

verus! {

/// One compression/transform stage of a folder.
#[derive(Debug)]
pub struct CoderOptions {
    pub decompression_method_id: Vec<u8>,
    pub properties: Vec<u8>,
}

#[derive(Debug)]
pub struct Coder {
    pub coder_options: CoderOptions,
    pub num_in_streams: u64,
    pub num_out_streams: u64,
}

/// An edge of the coder graph: output stream `out_index` feeds input
/// stream `in_index`.
#[derive(Debug)]
pub struct BindPair {
    pub in_index: u64,
    pub out_index: u64,
}

/// A coder graph producing output streams from packed input streams.
#[derive(Debug)]
pub struct Folder {
    pub coders: Vec<Coder>,
    pub bind_pairs: Vec<BindPair>,
    pub total_input_streams: u64,
    pub total_output_streams: u64,
    pub packed_streams: Vec<u64>,
    pub unpack_sizes: Vec<u64>,
    pub has_crc: bool,
    pub crc: u32,
    pub num_unpack_substreams: u64,
}

/// The sum of a sequence of `u64` values, as an unbounded natural.
pub open spec fn sum_u64(s: Seq<u64>) -> nat
    decreases s.len(),
{
    if s.len() == 0 {
        0
    } else {
        sum_u64(s.drop_last()) + s.last() as nat
    }
}

/// The sum of the coders' input stream counts.
pub open spec fn sum_in_streams(cs: Seq<Coder>) -> nat
    decreases cs.len(),
{
    if cs.len() == 0 {
        0
    } else {
        sum_in_streams(cs.drop_last()) + cs.last().num_in_streams as nat
    }
}

/// The sum of the coders' output stream counts.
pub open spec fn sum_out_streams(cs: Seq<Coder>) -> nat
    decreases cs.len(),
{
    if cs.len() == 0 {
        0
    } else {
        sum_out_streams(cs.drop_last()) + cs.last().num_out_streams as nat
    }
}

/// Whether some bind pair's input side is `index`.
pub open spec fn has_bind_pair_in(pairs: Seq<BindPair>, index: u64) -> bool {
    exists|j: int| 0 <= j < pairs.len() && pairs[j].in_index == index
}

/// Whether some bind pair's output side is `index`.
pub open spec fn has_bind_pair_out(pairs: Seq<BindPair>, index: u64) -> bool {
    exists|j: int| 0 <= j < pairs.len() && pairs[j].out_index == index
}

/// The structural invariant of a parsed folder: the recorded totals are
/// the true sums, at least one output stream exists, there is one bind
/// pair less than there are output streams, and the packed streams are
/// the inputs left over after binding.
pub open spec fn folder_wf(f: Folder) -> bool {
    &&& f.total_input_streams == sum_in_streams(f.coders@)
    &&& f.total_output_streams == sum_out_streams(f.coders@)
    &&& f.total_output_streams >= 1
    &&& f.bind_pairs@.len() == f.total_output_streams - 1
    &&& f.total_input_streams >= f.bind_pairs@.len()
    &&& f.packed_streams@.len() == f.total_input_streams - f.bind_pairs@.len()
    &&& f.packed_streams@.len() >= 1
}

/// Whether the folder's unpack sizes have been filled in: one per output
/// stream.
pub open spec fn folder_sized(f: Folder) -> bool {
    f.unpack_sizes@.len() == f.total_output_streams
}

/// The folder's final output size: the unpack size of the highest output
/// stream that no bind pair consumes.
pub open spec fn unpack_size_rec(f: Folder, i: int) -> u64
    decreases i + 1,
{
    if i < 0 {
        0
    } else if !has_bind_pair_out(f.bind_pairs@, i as u64) {
        f.unpack_sizes@[i]
    } else {
        unpack_size_rec(f, i - 1)
    }
}

pub open spec fn spec_unpack_size(f: Folder) -> u64 {
    unpack_size_rec(f, f.total_output_streams as int - 1)
}

/// The fields of one coder as the bytes give them: the mathematical
/// counterpart of `Coder` for the byte-level parser description.
pub ghost struct GCoder {
    pub id: Seq<u8>,
    pub props: Seq<u8>,
    pub num_in: u64,
    pub num_out: u64,
}

pub open spec fn coder_view(c: Coder) -> GCoder {
    GCoder {
        id: c.coder_options.decompression_method_id@,
        props: c.coder_options.properties@,
        num_in: c.num_in_streams,
        num_out: c.num_out_streams,
    }
}

pub open spec fn coder_views(cs: Seq<Coder>) -> Seq<GCoder> {
    cs.map_values(|c: Coder| coder_view(c))
}

/// The mathematical counterpart of a freshly parsed `Folder`.
pub ghost struct GFolder {
    pub coders: Seq<GCoder>,
    pub bind_pairs: Seq<BindPair>,
    pub total_in: u64,
    pub total_out: u64,
    pub packed_streams: Seq<u64>,
    pub unpack_sizes: Seq<u64>,
    pub has_crc: bool,
    pub crc: u32,
    pub substreams: u64,
}

pub open spec fn folder_view(f: Folder) -> GFolder {
    GFolder {
        coders: coder_views(f.coders@),
        bind_pairs: f.bind_pairs@,
        total_in: f.total_input_streams,
        total_out: f.total_output_streams,
        packed_streams: f.packed_streams@,
        unpack_sizes: f.unpack_sizes@,
        has_crc: f.has_crc,
        crc: f.crc,
        substreams: f.num_unpack_substreams,
    }
}

/// One coder record at `p`: the flags byte (low four bits the id length,
/// bit 4 the separate stream counts, bit 5 a properties blob, bit 7 the
/// rejected alternative-methods list), the id bytes, the optional counts
/// and properties; `None` on truncation, an unindexable length, or the
/// alternative-methods bit.
#[verifier::opaque]
pub open spec fn coder_at(s: Seq<u8>, p: int) -> Result<(GCoder, int), ErrorKind> {
    if !(0 <= p < s.len()) {
        Err(ErrorKind::Truncated)
    } else {
        let flags = s[p];
        let id_end = p + 1 + (flags & 0xf) as int;
        if id_end > s.len() {
            Err(ErrorKind::Truncated)
        } else {
            let counts: Option<((u64, u64), int)> = if flags & 0x10 == 0 {
                Some(((1u64, 1u64), id_end))
            } else {
                match dyn64_at(s, id_end) {
                    Some((nin, q)) => match dyn64_at(s, q) {
                        Some((nout, q2)) => Some(((nin, nout), q2)),
                        None => None,
                    },
                    None => None,
                }
            };
            match counts {
                None => Err(ErrorKind::Truncated),
                Some(((nin, nout), q2)) => {
                    let props: Option<(Seq<u8>, int)> = if flags & 0x20 != 0 {
                        match dyn64_at(s, q2) {
                            Some((psz, q3)) => if psz <= usize::MAX && q3 + psz <= s.len() {
                                Some((s.subrange(q3, q3 + psz as int), q3 + psz as int))
                            } else {
                                None
                            },
                            None => None,
                        }
                    } else {
                        Some((Seq::<u8>::empty(), q2))
                    };
                    match props {
                        None => Err(ErrorKind::Truncated),
                        Some((pr, q4)) => if flags & 0x80 != 0 {
                            Err(ErrorKind::UnsupportedFeature(Feature::AlternativeMethods))
                        } else {
                            Ok(
                                (
                                    GCoder {
                                        id: s.subrange(p + 1, id_end),
                                        props: pr,
                                        num_in: nin,
                                        num_out: nout,
                                    },
                                    q4,
                                ),
                            )
                        },
                    }
                },
            }
        }
    }
}

/// A run of `n` coder records starting at `p`.
pub open spec fn coders_at(s: Seq<u8>, p: int, n: int) -> Result<(Seq<GCoder>, int), ErrorKind>
    decreases n,
{
    if n <= 0 {
        Ok((Seq::empty(), p))
    } else {
        match coder_at(s, p) {
            Ok((c, p2)) => match coders_at(s, p2, n - 1) {
                Ok((rest, p3)) => Ok((seq![c] + rest, p3)),
                Err(k) => Err(k),
            },
            Err(k) => Err(k),
        }
    }
}

/// Splitting a run of coder records, as for the integer runs.
proof fn lemma_coders_at_split(s: Seq<u8>, p: int, a: int, b: int)
    requires
        0 <= a,
        0 <= b,
    ensures
        match coders_at(s, p, a) {
            Ok((v, q)) => match coders_at(s, q, b) {
                Ok((w, r)) => coders_at(s, p, a + b) == Ok::<(Seq<GCoder>, int), ErrorKind>(
                    (v + w, r),
                ),
                Err(k) => coders_at(s, p, a + b) == Err::<(Seq<GCoder>, int), ErrorKind>(k),
            },
            Err(k) => coders_at(s, p, a + b) == Err::<(Seq<GCoder>, int), ErrorKind>(k),
        },
    decreases a,
{
    if a == 0 {
        match coders_at(s, p, b) {
            Ok((w, r)) => {
                assert(Seq::<GCoder>::empty() + w =~= w);
            },
            Err(k) => {},
        }
    } else {
        match coder_at(s, p) {
            Ok((c0, p2)) => {
                lemma_coders_at_split(s, p2, a - 1, b);
                match coders_at(s, p2, a - 1) {
                    Ok((v1, q)) => {
                        match coders_at(s, q, b) {
                            Ok((w, r)) => {
                                assert((seq![c0] + v1) + w =~= seq![c0] + (v1 + w));
                            },
                            Err(k) => {},
                        }
                    },
                    Err(k) => {},
                }
            },
            Err(k) => {},
        }
    }
}

/// One bind pair at `p`: two variable-length integers.
pub open spec fn bind_pair_at(s: Seq<u8>, p: int) -> Option<(BindPair, int)> {
    match dyn64_at(s, p) {
        Some((i, p2)) => match dyn64_at(s, p2) {
            Some((o, p3)) => Some((BindPair { in_index: i, out_index: o }, p3)),
            None => None,
        },
        None => None,
    }
}

/// A run of `n` bind pairs starting at `p`.
pub open spec fn bind_pairs_at(s: Seq<u8>, p: int, n: int) -> Option<(Seq<BindPair>, int)>
    decreases n,
{
    if n <= 0 {
        Some((Seq::empty(), p))
    } else {
        match bind_pair_at(s, p) {
            Some((bp, p2)) => match bind_pairs_at(s, p2, n - 1) {
                Some((rest, p3)) => Some((seq![bp] + rest, p3)),
                None => None,
            },
            None => None,
        }
    }
}

/// Splitting a run of bind pairs, as for the integer runs.
proof fn lemma_bind_pairs_at_split(s: Seq<u8>, p: int, a: int, b: int)
    requires
        0 <= a,
        0 <= b,
    ensures
        match bind_pairs_at(s, p, a) {
            Some((v, q)) => match bind_pairs_at(s, q, b) {
                Some((w, r)) => bind_pairs_at(s, p, a + b) == Some::<(Seq<BindPair>, int)>(
                    (v + w, r),
                ),
                None => bind_pairs_at(s, p, a + b) is None,
            },
            None => bind_pairs_at(s, p, a + b) is None,
        },
    decreases a,
{
    if a == 0 {
        match bind_pairs_at(s, p, b) {
            Some((w, r)) => {
                assert(Seq::<BindPair>::empty() + w =~= w);
            },
            None => {},
        }
    } else {
        match bind_pair_at(s, p) {
            Some((bp, p2)) => {
                lemma_bind_pairs_at_split(s, p2, a - 1, b);
                match bind_pairs_at(s, p2, a - 1) {
                    Some((v1, q)) => {
                        match bind_pairs_at(s, q, b) {
                            Some((w, r)) => {
                                assert((seq![bp] + v1) + w =~= seq![bp] + (v1 + w));
                            },
                            None => {},
                        }
                    },
                    None => {},
                }
            },
            None => {},
        }
    }
}

/// The sum of the input stream counts of a coder view sequence.
pub open spec fn g_sum_in(cs: Seq<GCoder>) -> nat
    decreases cs.len(),
{
    if cs.len() == 0 {
        0
    } else {
        g_sum_in(cs.drop_last()) + cs.last().num_in as nat
    }
}

/// The sum of the output stream counts of a coder view sequence.
pub open spec fn g_sum_out(cs: Seq<GCoder>) -> nat
    decreases cs.len(),
{
    if cs.len() == 0 {
        0
    } else {
        g_sum_out(cs.drop_last()) + cs.last().num_out as nat
    }
}

/// The sums over a coder view sequence are the sums over the coders.
proof fn lemma_coder_views_sums(cs: Seq<Coder>)
    ensures
        g_sum_in(coder_views(cs)) == sum_in_streams(cs),
        g_sum_out(coder_views(cs)) == sum_out_streams(cs),
    decreases cs.len(),
{
    if cs.len() > 0 {
        lemma_coder_views_sums(cs.drop_last());
        assert(coder_views(cs).drop_last() =~= coder_views(cs.drop_last()));
        assert(coder_views(cs).last() == coder_view(cs.last()));
    }
}

/// Prefix sums of the stream counts never exceed the whole sums.
proof fn lemma_sum_streams_prefix(cs: Seq<Coder>, a: int)
    requires
        0 <= a <= cs.len(),
    ensures
        sum_in_streams(cs.subrange(0, a)) <= sum_in_streams(cs),
        sum_out_streams(cs.subrange(0, a)) <= sum_out_streams(cs),
    decreases cs.len() - a,
{
    if a == cs.len() {
        assert(cs.subrange(0, a) =~= cs);
    } else {
        lemma_sum_streams_prefix(cs, a + 1);
        assert(cs.subrange(0, a + 1).drop_last() =~= cs.subrange(0, a));
        assert(cs.subrange(0, a + 1).last() == cs[a]);
    }
}

/// The least input index at or after `idx` that no bind pair consumes,
/// scanning up to `total`.
pub open spec fn first_unbound_in(pairs: Seq<BindPair>, idx: u64, total: u64) -> Option<u64>
    decreases total - idx,
    when idx <= total
{
    if idx >= total {
        None
    } else if !has_bind_pair_in(pairs, idx) {
        Some(idx)
    } else {
        first_unbound_in(pairs, (idx + 1) as u64, total)
    }
}

/// A freshly parsed folder view: sizes, checksum and substream count not
/// yet filled in.
pub open spec fn folder_of(
    coders: Seq<GCoder>,
    pairs: Seq<BindPair>,
    tin: u64,
    tout: u64,
    packed: Seq<u64>,
) -> GFolder {
    GFolder {
        coders,
        bind_pairs: pairs,
        total_in: tin,
        total_out: tout,
        packed_streams: packed,
        unpack_sizes: Seq::empty(),
        has_crc: false,
        crc: 0,
        substreams: 0,
    }
}

/// One folder record at `p`, exactly as `read_folder` consumes it: the
/// coder count, the coders, the bind pairs, and the packed-stream
/// indices (read from the bytes when more than one, derived from the
/// bind pairs when exactly one). `None` on truncation, on a count this
/// machine cannot index, on stream-count sums past `u64`, on a folder
/// with no output stream, fewer inputs than bind pairs or no packed
/// stream, and when the single packed stream cannot be derived.
#[verifier::opaque]
pub open spec fn folder_at(s: Seq<u8>, p: int) -> Result<(GFolder, int), ErrorKind> {
    match dyn64_at(s, p) {
        None => Err(ErrorKind::Truncated),
        Some((nc, p1)) => if nc > usize::MAX {
            Err(ErrorKind::Truncated)
        } else {
            match coders_at(s, p1, nc as int) {
                Err(k) => Err(k),
                Ok((coders, p2)) => if g_sum_in(coders) > u64::MAX || g_sum_out(coders)
                    > u64::MAX {
                    Err(ErrorKind::InvalidFolderTopology)
                } else {
                    let tin = g_sum_in(coders) as u64;
                    let tout = g_sum_out(coders) as u64;
                    if tout == 0 {
                        Err(ErrorKind::InvalidFolderTopology)
                    } else if tout - 1 > usize::MAX {
                        Err(ErrorKind::Truncated)
                    } else {
                        match bind_pairs_at(s, p2, tout - 1) {
                            None => Err(ErrorKind::Truncated),
                            Some((pairs, p3)) => if tin <= tout - 1 {
                                Err(ErrorKind::InvalidFolderTopology)
                            } else if tin - (tout - 1) == 1 {
                                match first_unbound_in(pairs, 0, tin) {
                                    Some(i) => Ok((folder_of(coders, pairs, tin, tout, seq![i]), p3)),
                                    None => Err(ErrorKind::NoPackedStream),
                                }
                            } else if tin - (tout - 1) > usize::MAX {
                                Err(ErrorKind::Truncated)
                            } else {
                                match dyn64_seq_at(s, p3, tin - (tout - 1)) {
                                    Some((ps, p4)) => Ok(
                                        (folder_of(coders, pairs, tin, tout, ps), p4),
                                    ),
                                    None => Err(ErrorKind::Truncated),
                                }
                            },
                        }
                    }
                },
            }
        },
    }
}

/// The first bind pair whose input side is `index`, scanning in order.
pub(crate) fn find_bind_pair_for_in_stream(bind_pairs: &Vec<BindPair>, index: u64) -> (r: Option<
    usize,
>)
    ensures
        match r {
            Some(i) => {
                &&& i < bind_pairs@.len()
                &&& bind_pairs@[i as int].in_index == index
                &&& forall|j: int| 0 <= j < i ==> bind_pairs@[j].in_index != index
            },
            None => !has_bind_pair_in(bind_pairs@, index),
        },
{
    let n: usize = bind_pairs.len();
    for i in 0..n
        invariant
            n == bind_pairs@.len(),
            forall|j: int| 0 <= j < i ==> bind_pairs@[j].in_index != index,
    {
        if bind_pairs[i].in_index == index {
            return Some(i);
        }
    }
    None
}

/// The first bind pair whose output side is `index`, scanning in order.
pub(crate) fn find_bind_pair_for_out_stream(bind_pairs: &Vec<BindPair>, index: u64) -> (r: Option<
    usize,
>)
    ensures
        match r {
            Some(i) => {
                &&& i < bind_pairs@.len()
                &&& bind_pairs@[i as int].out_index == index
                &&& forall|j: int| 0 <= j < i ==> bind_pairs@[j].out_index != index
            },
            None => !has_bind_pair_out(bind_pairs@, index),
        },
{
    let n: usize = bind_pairs.len();
    for i in 0..n
        invariant
            n == bind_pairs@.len(),
            forall|j: int| 0 <= j < i ==> bind_pairs@[j].out_index != index,
    {
        if bind_pairs[i].out_index == index {
            return Some(i);
        }
    }
    None
}

/// Parses one coder record, exactly as `coder_at` reads it.
#[verifier::loop_isolation(false)]
fn read_coder(buf: &mut Buffer) -> (r: Result<Coder, ArchiveError>)
    ensures
        final(buf).bytes() == old(buf).bytes(),
        match r {
            Ok(c) => coder_at(old(buf).bytes(), old(buf).pos() as int) == Ok::<
                (GCoder, int),
                ErrorKind,
            >((coder_view(c), final(buf).pos() as int)),
            Err(e) => coder_at(old(buf).bytes(), old(buf).pos() as int) == Err::<
                (GCoder, int),
                ErrorKind,
            >(e.kind),
        },
{
    proof {
        reveal(coder_at);
    }
    let bits = buf.read()?;
    let id_size: usize = (bits & 0xf) as usize;
    let is_simple: bool = (bits & 0x10) == 0;
    let has_attributes: bool = (bits & 0x20) != 0;
    let more_alternative_methods: bool = (bits & 0x80) != 0;

    let decompression_method_id = buf.read_multi(id_size)?;

    let num_in_streams: u64 = if is_simple {
        1
    } else {
        read_dyn_uint64(buf)?
    };
    let num_out_streams: u64 = if is_simple {
        1
    } else {
        read_dyn_uint64(buf)?
    };

    let properties: Vec<u8> = if has_attributes {
        let properties_size = read_dyn_uint64(buf)?;
        let psize = to_usize(properties_size)?;
        buf.read_multi(psize)?
    } else {
        Vec::new()
    };

    if more_alternative_methods {
        return Err(ArchiveError::new(ErrorKind::UnsupportedFeature(Feature::AlternativeMethods)));
    }

    let coder = Coder {
        coder_options: CoderOptions { decompression_method_id, properties },
        num_in_streams,
        num_out_streams,
    };
    proof {
        if !has_attributes {
            assert(coder.coder_options.properties@ =~= Seq::<u8>::empty());
        }
    }
    Ok(coder)
}

/// Parses one folder: its coders, bind pairs and packed-stream indices,
/// exactly as `folder_at` reads them from the bytes at the cursor; it
/// fails exactly when `folder_at` has no answer there. A parsed folder
/// satisfies the structural invariant; its unpack sizes and substream
/// count arrive in later sections and start empty.
#[verifier::loop_isolation(false)]
#[verifier::rlimit(100)]
pub(crate) fn read_folder(buf: &mut Buffer) -> (r: Result<Folder, ArchiveError>)
    ensures
        final(buf).bytes() == old(buf).bytes(),
        match r {
            Ok(f) => {
                &&& folder_at(old(buf).bytes(), old(buf).pos() as int) == Ok::<
                    (GFolder, int),
                    ErrorKind,
                >((folder_view(f), final(buf).pos() as int))
                &&& folder_wf(f)
                &&& f.unpack_sizes@.len() == 0
                &&& f.num_unpack_substreams == 0
                &&& f.has_crc == false
                &&& f.crc == 0
            },
            Err(e) => folder_at(old(buf).bytes(), old(buf).pos() as int) == Err::<
                (GFolder, int),
                ErrorKind,
            >(e.kind),
        },
{
    proof {
        reveal(folder_at);
    }
    let ghost s = old(buf).bytes();
    let ghost p0 = old(buf).pos() as int;
    let num_coders64 = read_dyn_uint64(buf)?;
    let num_coders = to_usize(num_coders64)?;
    let ghost p1 = buf.pos() as int;

    let mut coders: Vec<Coder> = Vec::new();
    proof {
        assert(coder_views(coders@) =~= Seq::<GCoder>::empty());
    }
    let mut c: usize = 0;
    while c < num_coders
        invariant
            coders@.len() == c,
            c <= num_coders,
            num_coders == num_coders64,
            buf.bytes() == s,
            s == old(buf).bytes(),
            p0 == old(buf).pos(),
            dyn64_at(s, p0) == Some((num_coders64, p1)),
            coders_at(s, p1, c as int) == Ok::<(Seq<GCoder>, int), ErrorKind>(
                (coder_views(coders@), buf.pos() as int),
            ),
        decreases num_coders - c,
    {
        let ghost q = buf.pos() as int;
        let ghost views_before = coder_views(coders@);
        let coder = match read_coder(buf) {
            Ok(cd) => cd,
            Err(e) => {
                proof {
                    assert(coders_at(s, q, num_coders as int - c) == Err::<
                        (Seq<GCoder>, int),
                        ErrorKind,
                    >(e.kind));
                    lemma_coders_at_split(s, p1, c as int, num_coders as int - c);
                }
                return Err(e);
            },
        };
        coders.push(coder);
        proof {
            lemma_coders_at_split(s, p1, c as int, 1);
            reveal_with_fuel(coders_at, 2);
            assert(coders_at(s, q, 1) == Ok::<(Seq<GCoder>, int), ErrorKind>(
                (seq![coder_view(coder)] + Seq::<GCoder>::empty(), buf.pos() as int),
            ));
            assert(seq![coder_view(coder)] + Seq::<GCoder>::empty() =~= seq![coder_view(coder)]);
            assert(coder_views(coders@) =~= views_before + seq![coder_view(coder)]);
        }
        c = c + 1;
    }
    let ghost p2 = buf.pos() as int;
    let ghost views = coder_views(coders@);
    proof {
        lemma_coder_views_sums(coders@);
    }

    let mut total_input_streams: u64 = 0;
    let mut total_output_streams: u64 = 0;
    let n_coders: usize = coders.len();
    let mut c2: usize = 0;
    while c2 < n_coders
        invariant
            c2 <= n_coders,
            n_coders == coders@.len(),
            buf.bytes() == s,
            total_input_streams == sum_in_streams(coders@.subrange(0, c2 as int)),
            total_output_streams == sum_out_streams(coders@.subrange(0, c2 as int)),
        decreases n_coders - c2,
    {
        let ghost pre = coders@.subrange(0, c2 as int);
        total_input_streams = match total_input_streams.checked_add(coders[c2].num_in_streams) {
            Some(v) => v,
            None => {
                proof {
                    lemma_sum_streams_prefix(coders@, c2 as int + 1);
                    assert(coders@.subrange(0, c2 as int + 1).drop_last() =~= pre);
                    assert(coders@.subrange(0, c2 as int + 1).last() == coders@[c2 as int]);
                }
                return Err(
                    ArchiveError::with_message(
                        ErrorKind::InvalidFolderTopology,
                        "Total input stream count overflows",
                    ),
                );
            },
        };
        total_output_streams = match total_output_streams.checked_add(coders[c2].num_out_streams) {
            Some(v) => v,
            None => {
                proof {
                    lemma_sum_streams_prefix(coders@, c2 as int + 1);
                    assert(coders@.subrange(0, c2 as int + 1).drop_last() =~= pre);
                    assert(coders@.subrange(0, c2 as int + 1).last() == coders@[c2 as int]);
                }
                return Err(
                    ArchiveError::with_message(
                        ErrorKind::InvalidFolderTopology,
                        "Total output stream count overflows",
                    ),
                );
            },
        };
        c2 = c2 + 1;
        proof {
            let cur = coders@.subrange(0, c2 as int);
            assert(cur.drop_last() =~= pre);
            assert(cur.last() == coders@[c2 - 1]);
        }
    }
    proof {
        assert(coders@.subrange(0, coders@.len() as int) =~= coders@);
    }

    if total_output_streams == 0 {
        return Err(
            ArchiveError::with_message(
                ErrorKind::InvalidFolderTopology,
                "Total output streams can't be 0",
            ),
        );
    }

    let num_bind_pairs: u64 = total_output_streams - 1;
    let nbp = to_usize(num_bind_pairs)?;
    let mut bind_pairs: Vec<BindPair> = Vec::new();
    let mut p: usize = 0;
    while p < nbp
        invariant
            p <= nbp,
            nbp == num_bind_pairs,
            bind_pairs@.len() == p,
            buf.bytes() == s,
            bind_pairs_at(s, p2, p as int) == Some((bind_pairs@, buf.pos() as int)),
        decreases nbp - p,
    {
        let ghost q = buf.pos() as int;
        let ghost pairs_before = bind_pairs@;
        let pair = match read_bind_pair(buf) {
            Ok(bp) => bp,
            Err(e) => {
                proof {
                    assert(bind_pairs_at(s, q, nbp as int - p) is None);
                    lemma_bind_pairs_at_split(s, p2, p as int, nbp as int - p);
                }
                return Err(e);
            },
        };
        bind_pairs.push(pair);
        proof {
            lemma_bind_pairs_at_split(s, p2, p as int, 1);
            reveal_with_fuel(bind_pairs_at, 2);
            assert(bind_pairs_at(s, q, 1) == Some::<(Seq<BindPair>, int)>(
                (seq![pair] + Seq::<BindPair>::empty(), buf.pos() as int),
            ));
            assert(seq![pair] + Seq::<BindPair>::empty() =~= seq![pair]);
            assert(bind_pairs@ =~= pairs_before + seq![pair]);
        }
        p = p + 1;
    }
    let ghost p3 = buf.pos() as int;

    if total_input_streams < num_bind_pairs {
        return Err(
            ArchiveError::with_message(
                ErrorKind::InvalidFolderTopology,
                "Total input streams can't be less than the number of bind pairs",
            ),
        );
    }

    let num_packed_streams: u64 = total_input_streams - num_bind_pairs;
    if num_packed_streams == 0 {
        return Err(
            ArchiveError::with_message(
                ErrorKind::InvalidFolderTopology,
                "A folder needs at least one packed stream",
            ),
        );
    }
    let mut packed_streams: Vec<u64> = Vec::new();
    if num_packed_streams == 1 {
        let mut found: Option<u64> = None;
        let mut idx: u64 = 0;
        while idx < total_input_streams && found.is_none()
            invariant
                idx <= total_input_streams,
                match found {
                    Some(i) => first_unbound_in(bind_pairs@, 0, total_input_streams) == Some(i),
                    None => first_unbound_in(bind_pairs@, 0, total_input_streams)
                        == first_unbound_in(bind_pairs@, idx, total_input_streams),
                },
            decreases
                    total_input_streams - idx,
                    (if found is None {
                        1int
                    } else {
                        0int
                    }),
        {
            match find_bind_pair_for_in_stream(&bind_pairs, idx) {
                None => {
                    found = Some(idx);
                    proof {
                        assert(first_unbound_in(bind_pairs@, idx, total_input_streams) == Some(
                            idx,
                        ));
                    }
                },
                Some(w) => {
                    proof {
                        assert(has_bind_pair_in(bind_pairs@, idx));
                        assert(first_unbound_in(bind_pairs@, idx, total_input_streams)
                            == first_unbound_in(
                            bind_pairs@,
                            (idx + 1) as u64,
                            total_input_streams,
                        ));
                    }
                    idx = idx + 1;
                },
            }
        }
        match found {
            Some(i) => {
                packed_streams.push(i);
                proof {
                    assert(packed_streams@ =~= seq![i]);
                }
            },
            None => {
                proof {
                    assert(first_unbound_in(bind_pairs@, idx, total_input_streams) is None);
                }
                return Err(ArchiveError::new(ErrorKind::NoPackedStream));
            },
        }
    } else {
        let nps = to_usize(num_packed_streams)?;
        let mut q: usize = 0;
        while q < nps
            invariant
                q <= nps,
                nps == num_packed_streams,
                packed_streams@.len() == q,
                buf.bytes() == s,
                dyn64_seq_at(s, p3, q as int) == Some((packed_streams@, buf.pos() as int)),
            decreases nps - q,
        {
            let ghost qq = buf.pos() as int;
            let ghost packed_before = packed_streams@;
            let v = match read_dyn_uint64(buf) {
                Ok(v) => v,
                Err(e) => {
                    proof {
                        assert(dyn64_at(s, qq) is None);
                        assert(dyn64_seq_at(s, qq, nps as int - q) is None);
                        lemma_dyn64_seq_at_split(s, p3, q as int, nps as int - q);
                    }
                    return Err(e);
                },
            };
            packed_streams.push(v);
            proof {
                lemma_dyn64_seq_at_split(s, p3, q as int, 1);
                reveal_with_fuel(dyn64_seq_at, 2);
                assert(dyn64_seq_at(s, qq, 1) == Some::<(Seq<u64>, int)>(
                    (seq![v] + Seq::<u64>::empty(), buf.pos() as int),
                ));
                assert(seq![v] + Seq::<u64>::empty() =~= seq![v]);
                assert(packed_streams@ =~= packed_before + seq![v]);
            }
            q = q + 1;
        }
    }

    let folder = Folder {
        coders,
        bind_pairs,
        total_input_streams,
        total_output_streams,
        packed_streams,
        unpack_sizes: Vec::new(),
        has_crc: false,
        crc: 0,
        num_unpack_substreams: 0,
    };
    proof {
        assert(folder.unpack_sizes@ =~= Seq::<u64>::empty());
        assert(folder_view(folder) == folder_of(
            views,
            folder.bind_pairs@,
            total_input_streams,
            total_output_streams,
            folder.packed_streams@,
        ));
    }
    Ok(folder)
}

/// Parses one bind pair, exactly as `bind_pair_at` reads it.
fn read_bind_pair(buf: &mut Buffer) -> (r: Result<BindPair, ArchiveError>)
    ensures
        final(buf).bytes() == old(buf).bytes(),
        match r {
            Ok(bp) => bind_pair_at(old(buf).bytes(), old(buf).pos() as int) == Some(
                (bp, final(buf).pos() as int),
            ),
            Err(e) => bind_pair_at(old(buf).bytes(), old(buf).pos() as int) is None && e.kind
                == ErrorKind::Truncated,
        },
{
    let in_index = read_dyn_uint64(buf)?;
    let out_index = read_dyn_uint64(buf)?;
    Ok(BindPair { in_index, out_index })
}

impl Folder {
    /// The folder's final output size, as `spec_unpack_size` defines it.
    pub fn get_unpack_size(&self) -> (r: u64)
        requires
            folder_sized(*self),
        ensures
            r == spec_unpack_size(*self),
    {
        if self.total_output_streams == 0 {
            return 0;
        }
        let n: usize = self.unpack_sizes.len();
        let mut i: usize = n;
        while i > 0
            invariant
                i <= n,
                n == self.unpack_sizes@.len(),
                folder_sized(*self),
                spec_unpack_size(*self) == unpack_size_rec(*self, i as int - 1),
            decreases i,
        {
            i = i - 1;
            if find_bind_pair_for_out_stream(&self.bind_pairs, i as u64).is_none() {
                return self.unpack_sizes[i];
            }
        }
        0
    }

    /// The coders in decode order: from the coder fed by the first packed
    /// stream, along the bind pairs that chain each output to the next
    /// input. Stops after one step per coder, so a malformed cyclic graph
    /// yields a truncated chain rather than no answer.
    pub fn get_ordered_coders(&self) -> (r: Vec<&Coder>)
        requires
            self.packed_streams@.len() >= 1,
            self.packed_streams@[0] < self.coders@.len(),
            forall|j: int|
                0 <= j < self.bind_pairs@.len() ==> (#[trigger] self.bind_pairs@[j]).in_index
                    < self.coders@.len(),
        ensures
            r@.len() >= 1,
            *r@[0] == self.coders@[self.packed_streams@[0] as int],
            forall|j: int|
                0 <= j < r@.len() ==> exists|c: int|
                    0 <= c < self.coders@.len() && *(#[trigger] r@[j]) == self.coders@[c],
    {
        let mut coders: Vec<&Coder> = Vec::new();
        let mut current: u64 = self.packed_streams[0];
        let mut steps: usize = 0;
        let limit: usize = self.coders.len();
        loop
            invariant
                steps < limit,
                limit == self.coders@.len(),
                current < self.coders@.len(),
                coders@.len() == steps,
                steps > 0 ==> *coders@[0] == self.coders@[self.packed_streams@[0] as int],
                steps == 0 ==> current == self.packed_streams@[0],
                forall|j: int|
                    0 <= j < coders@.len() ==> exists|c: int|
                        0 <= c < self.coders@.len() && *(#[trigger] coders@[j])
                            == self.coders@[c],
                forall|j: int|
                    0 <= j < self.bind_pairs@.len() ==> (#[trigger] self.bind_pairs@[j]).in_index
                        < self.coders@.len(),
            decreases limit - steps,
        {
            coders.push(&self.coders[current as usize]);
            steps = steps + 1;
            match find_bind_pair_for_out_stream(&self.bind_pairs, current) {
                Some(pair) => {
                    current = self.bind_pairs[pair].in_index;
                },
                None => {
                    return coders;
                },
            }
            if steps >= limit {
                return coders;
            }
        }
    }
}


/// The pack-stream section: where the packed bytes sit in the body and
/// how long each pack stream is.
#[derive(Debug)]
pub struct PackInfo {
    pub pack_pos: u64,
    pub pack_sizes: Vec<u64>,
    pub pack_crcs_defined: IndexSet,
    pub pack_crcs: Vec<u32>,
}

/// The per-substream sizes of the logical files packed inside folders.
#[derive(Debug)]
pub struct SubstreamsInfo {
    pub unpack_sizes: Vec<u64>,
}

/// The aggregate the `StreamsInfo` section carries.
#[derive(Debug)]
pub struct StreamsInfo {
    pub pack_info: PackInfo,
    pub substreams_info: Option<SubstreamsInfo>,
    pub folders: Vec<Folder>,
}

/// How many entries of the flat substream size list folder `f` owns:
/// none when it has no substreams; one per substream when the sizes were
/// spelled out; otherwise the single implied entry.
pub open spec fn substream_count(f: Folder, has_size: bool) -> nat {
    if f.num_unpack_substreams == 0 {
        0
    } else if has_size {
        f.num_unpack_substreams as nat
    } else {
        1
    }
}

/// Where folder `i`'s entries start inside the flat substream size list.
pub open spec fn substream_start(folders: Seq<Folder>, has_size: bool, i: int) -> nat
    decreases i + 1,
{
    if i <= 0 {
        0
    } else {
        substream_start(folders, has_size, i - 1) + substream_count(folders[i - 1], has_size)
    }
}

/// The flat substream size list is exactly the folders' slices laid end
/// to end, and each folder's slice sums to that folder's unpack size.
pub open spec fn substream_layout(folders: Seq<Folder>, has_size: bool, sizes: Seq<u64>) -> bool {
    &&& sizes.len() == substream_start(folders, has_size, folders.len() as int)
    &&& forall|i: int|
        0 <= i < folders.len() && substream_count(#[trigger] folders[i], has_size) > 0 ==> sum_u64(
            sizes.subrange(
                substream_start(folders, has_size, i) as int,
                substream_start(folders, has_size, i) as int + substream_count(
                    folders[i],
                    has_size,
                ) as int,
            ),
        ) == spec_unpack_size(folders[i])
}

/// The mathematical counterpart of a parsed `PackInfo`.
pub ghost struct GPackInfo {
    pub pack_pos: u64,
    pub pack_sizes: Seq<u64>,
    pub crcs_defined: Set<int>,
    pub crcs: Seq<u32>,
}

pub open spec fn pack_info_view(pi: PackInfo) -> GPackInfo {
    GPackInfo {
        pack_pos: pi.pack_pos,
        pack_sizes: pi.pack_sizes@,
        crcs_defined: index_set_elems(pi.pack_crcs_defined),
        crcs: pi.pack_crcs@,
    }
}

/// The pack-info section at `p`: the pack position and stream count, the
/// optional `Size` and `Crc` blocks, and the closing `End` tag; `None`
/// on truncation, an unknown tag, an unindexable count, or a terminator
/// other than `End`.
#[verifier::opaque]
pub open spec fn pack_info_at(s: Seq<u8>, p: int) -> Result<(GPackInfo, int), ErrorKind> {
    match dyn64_at(s, p) {
        None => Err(ErrorKind::Truncated),
        Some((pack_pos, p1)) => match dyn64_at(s, p1) {
            None => Err(ErrorKind::Truncated),
            Some((nps, p2)) => if nps > usize::MAX {
                Err(ErrorKind::Truncated)
            } else {
                match nid_at(s, p2) {
                    Err(k) => Err(k),
                    Ok((n0, p3)) => {
                        let after_sizes: Result<(Seq<u64>, NID, int), ErrorKind> = if n0
                            == NID::Size {
                            match dyn64_seq_at(s, p3, nps as int) {
                                Some((sizes, p4)) => match nid_at(s, p4) {
                                    Ok((n1, p5)) => Ok((sizes, n1, p5)),
                                    Err(k) => Err(k),
                                },
                                None => Err(ErrorKind::Truncated),
                            }
                        } else {
                            Ok((Seq::empty(), n0, p3))
                        };
                        match after_sizes {
                            Err(k) => Err(k),
                            Ok((sizes, n1, p5)) => {
                                let after_crcs: Result<(Set<int>, Seq<u32>, NID, int), ErrorKind> =
                                    if n1 == NID::Crc {
                                    match all_or_bits_at(s, p5, nps as int) {
                                        Some((d, p6)) => match u32_seq_at(s, p6, nps as int) {
                                            Some((crcs, p7)) => match nid_at(s, p7) {
                                                Ok((n2, p8)) => Ok((d, crcs, n2, p8)),
                                                Err(k) => Err(k),
                                            },
                                            None => Err(ErrorKind::Truncated),
                                        },
                                        None => Err(ErrorKind::Truncated),
                                    }
                                } else {
                                    Ok((Set::empty(), Seq::empty(), n1, p5))
                                };
                                match after_crcs {
                                    Err(k) => Err(k),
                                    Ok((d, crcs, n2, p8)) => if n2 == NID::End {
                                        Ok(
                                            (
                                                GPackInfo {
                                                    pack_pos,
                                                    pack_sizes: sizes,
                                                    crcs_defined: d,
                                                    crcs,
                                                },
                                                p8,
                                            ),
                                        )
                                    } else {
                                        Err(ErrorKind::BadlyTerminated(Section::PackInfo, n2))
                                    },
                                }
                            },
                        }
                    },
                }
            },
        },
    }
}

/// Parses the pack-stream section, exactly as `pack_info_at` reads it
/// from the bytes at the cursor; it fails exactly when `pack_info_at`
/// has no answer there.
#[verifier::loop_isolation(false)]
pub(crate) fn read_pack_info(buf: &mut Buffer) -> (r: Result<PackInfo, ArchiveError>)
    ensures
        final(buf).bytes() == old(buf).bytes(),
        match r {
            Ok(pi) => pack_info_at(old(buf).bytes(), old(buf).pos() as int) == Ok::<
                (GPackInfo, int),
                ErrorKind,
            >((pack_info_view(pi), final(buf).pos() as int)),
            Err(e) => pack_info_at(old(buf).bytes(), old(buf).pos() as int) == Err::<
                (GPackInfo, int),
                ErrorKind,
            >(e.kind),
        },
{
    proof {
        reveal(pack_info_at);
    }
    let ghost s = old(buf).bytes();
    let pack_pos = read_dyn_uint64(buf)?;
    let num_pack_streams = read_dyn_uint64(buf)?;
    let nps = to_usize(num_pack_streams)?;
    let mut nid = read_nid(buf)?;

    let mut pack_sizes: Vec<u64> = Vec::new();
    if nid == NID::Size {
        let ghost p3 = buf.pos() as int;
        let mut i: usize = 0;
        while i < nps
            invariant
                i <= nps,
                nps == num_pack_streams,
                pack_sizes@.len() == i,
                buf.bytes() == s,
                dyn64_seq_at(s, p3, i as int) == Some((pack_sizes@, buf.pos() as int)),
            decreases nps - i,
        {
            let ghost qq = buf.pos() as int;
            let ghost before = pack_sizes@;
            let v = match read_dyn_uint64(buf) {
                Ok(v) => v,
                Err(e) => {
                    proof {
                        assert(dyn64_seq_at(s, qq, nps as int - i) is None);
                        lemma_dyn64_seq_at_split(s, p3, i as int, nps as int - i);
                    }
                    return Err(e);
                },
            };
            pack_sizes.push(v);
            proof {
                lemma_dyn64_seq_at_split(s, p3, i as int, 1);
                reveal_with_fuel(dyn64_seq_at, 2);
                assert(dyn64_seq_at(s, qq, 1) == Some::<(Seq<u64>, int)>(
                    (seq![v] + Seq::<u64>::empty(), buf.pos() as int),
                ));
                assert(seq![v] + Seq::<u64>::empty() =~= seq![v]);
                assert(pack_sizes@ =~= before + seq![v]);
            }
            i = i + 1;
        }
        nid = read_nid(buf)?;
    }

    let mut pack_crcs_defined = IndexSet::new();
    let mut pack_crcs: Vec<u32> = Vec::new();
    if nid == NID::Crc {
        pack_crcs_defined = read_all_or_bits(buf, num_pack_streams)?;
        let ghost p6 = buf.pos() as int;
        let mut i: usize = 0;
        while i < nps
            invariant
                i <= nps,
                nps == num_pack_streams,
                pack_crcs@.len() == i,
                buf.bytes() == s,
                u32_seq_at(s, p6, i as int) == Some((pack_crcs@, buf.pos() as int)),
            decreases nps - i,
        {
            let ghost qq = buf.pos() as int;
            let ghost before = pack_crcs@;
            let v = match read_uint32(buf) {
                Ok(v) => v,
                Err(e) => {
                    proof {
                        assert(u32_seq_at(s, qq, nps as int - i) is None);
                        lemma_u32_seq_at_split(s, p6, i as int, nps as int - i);
                    }
                    return Err(e);
                },
            };
            pack_crcs.push(v);
            proof {
                lemma_u32_seq_at_split(s, p6, i as int, 1);
                reveal_with_fuel(u32_seq_at, 2);
                assert(u32_at(s, qq) == Some::<(u32, int)>((v, buf.pos() as int)));
                assert(u32_seq_at(s, qq, 1) == Some::<(Seq<u32>, int)>(
                    (seq![v] + Seq::<u32>::empty(), buf.pos() as int),
                ));
                assert(seq![v] + Seq::<u32>::empty() =~= seq![v]);
                assert(pack_crcs@ =~= before + seq![v]);
            }
            i = i + 1;
        }
        nid = read_nid(buf)?;
    }

    if nid != NID::End {
        return Err(ArchiveError::new(ErrorKind::BadlyTerminated(Section::PackInfo, nid)));
    }

    let pi = PackInfo { pack_pos, pack_sizes, pack_crcs_defined, pack_crcs };
    proof {
        assert(pi.pack_sizes@.len() == 0 ==> pi.pack_sizes@ =~= Seq::<u64>::empty());
        assert(pi.pack_crcs@.len() == 0 ==> pi.pack_crcs@ =~= Seq::<u32>::empty());
    }
    Ok(pi)
}

pub open spec fn folder_views(fs: Seq<Folder>) -> Seq<GFolder> {
    fs.map_values(|f: Folder| folder_view(f))
}

/// A run of `n` folder records starting at `p`.
pub open spec fn folders_at(s: Seq<u8>, p: int, n: int) -> Result<(Seq<GFolder>, int), ErrorKind>
    decreases n,
{
    if n <= 0 {
        Ok((Seq::empty(), p))
    } else {
        match folder_at(s, p) {
            Ok((f, p2)) => match folders_at(s, p2, n - 1) {
                Ok((rest, p3)) => Ok((seq![f] + rest, p3)),
                Err(k) => Err(k),
            },
            Err(k) => Err(k),
        }
    }
}

/// Splitting a run of folder records, as for the integer runs.
#[verifier::rlimit(100)]
proof fn lemma_folders_at_split(s: Seq<u8>, p: int, a: int, b: int)
    requires
        0 <= a,
        0 <= b,
    ensures
        match folders_at(s, p, a) {
            Ok((v, q)) => match folders_at(s, q, b) {
                Ok((w, r)) => folders_at(s, p, a + b) == Ok::<(Seq<GFolder>, int), ErrorKind>(
                    (v + w, r),
                ),
                Err(k) => folders_at(s, p, a + b) == Err::<(Seq<GFolder>, int), ErrorKind>(k),
            },
            Err(k) => folders_at(s, p, a + b) == Err::<(Seq<GFolder>, int), ErrorKind>(k),
        },
    decreases a,
{
    if a == 0 {
        match folders_at(s, p, b) {
            Ok((w, r)) => {
                assert(Seq::<GFolder>::empty() + w =~= w);
            },
            Err(k) => {},
        }
    } else {
        match folder_at(s, p) {
            Ok((f0, p2)) => {
                lemma_folders_at_split(s, p2, a - 1, b);
                match folders_at(s, p2, a - 1) {
                    Ok((v1, q)) => {
                        match folders_at(s, q, b) {
                            Ok((w, r)) => {
                                assert((seq![f0] + v1) + w =~= seq![f0] + (v1 + w));
                            },
                            Err(k) => {},
                        }
                    },
                    Err(k) => {},
                }
            },
            Err(k) => {},
        }
    }
}

/// A folder view with its unpack sizes filled in.
pub open spec fn with_sizes(f: GFolder, sizes: Seq<u64>) -> GFolder {
    GFolder {
        coders: f.coders,
        bind_pairs: f.bind_pairs,
        total_in: f.total_in,
        total_out: f.total_out,
        packed_streams: f.packed_streams,
        unpack_sizes: sizes,
        has_crc: f.has_crc,
        crc: f.crc,
        substreams: f.substreams,
    }
}

/// A folder view with its checksum filled in.
pub open spec fn with_crc(f: GFolder, has_crc: bool, crc: u32) -> GFolder {
    GFolder {
        coders: f.coders,
        bind_pairs: f.bind_pairs,
        total_in: f.total_in,
        total_out: f.total_out,
        packed_streams: f.packed_streams,
        unpack_sizes: f.unpack_sizes,
        has_crc,
        crc,
        substreams: f.substreams,
    }
}

/// The per-folder unpack sizes starting at `p`: for each folder in turn,
/// one variable-length integer per output stream.
pub open spec fn folder_sizes_at(s: Seq<u8>, p: int, folders: Seq<GFolder>) -> Option<
    (Seq<GFolder>, int),
>
    decreases folders.len(),
{
    if folders.len() == 0 {
        Some((Seq::empty(), p))
    } else {
        let f0 = folders[0];
        if f0.total_out > usize::MAX {
            None
        } else {
            match dyn64_seq_at(s, p, f0.total_out as int) {
                Some((sz, p2)) => match folder_sizes_at(
                    s,
                    p2,
                    folders.subrange(1, folders.len() as int),
                ) {
                    Some((rest, p3)) => Some((seq![with_sizes(f0, sz)] + rest, p3)),
                    None => None,
                },
                None => None,
            }
        }
    }
}

/// The per-folder checksums starting at `p`: folder `base + i` takes the
/// next four-byte word when its bit is in `d`, and no checksum otherwise.
pub open spec fn folder_crcs_at(
    s: Seq<u8>,
    p: int,
    d: Set<int>,
    base: int,
    folders: Seq<GFolder>,
) -> Option<(Seq<GFolder>, int)>
    decreases folders.len(),
{
    if folders.len() == 0 {
        Some((Seq::empty(), p))
    } else {
        let f0 = folders[0];
        if d.contains(base) {
            match u32_at(s, p) {
                Some((v, p2)) => match folder_crcs_at(
                    s,
                    p2,
                    d,
                    base + 1,
                    folders.subrange(1, folders.len() as int),
                ) {
                    Some((rest, p3)) => Some((seq![with_crc(f0, true, v)] + rest, p3)),
                    None => None,
                },
                None => None,
            }
        } else {
            match folder_crcs_at(s, p, d, base + 1, folders.subrange(1, folders.len() as int)) {
                Some((rest, p2)) => Some((seq![with_crc(f0, false, f0.crc)] + rest, p2)),
                None => None,
            }
        }
    }
}

/// The unpack-info section at `p`: the `Folder` tag, the folder count and
/// zero external marker, the folder records, the `CodersUnpackSize` tag
/// and per-folder sizes, the optional `Crc` block, and the closing `End`
/// tag; `None` on truncation, a wrong or unknown tag, a non-zero
/// external marker, an unindexable count, or a bad folder record.
#[verifier::opaque]
pub open spec fn unpack_info_at(s: Seq<u8>, p: int) -> Result<(Seq<GFolder>, int), ErrorKind> {
    match nid_at(s, p) {
        Err(k) => Err(k),
        Ok((n0, p1)) => if n0 != NID::Folder {
            Err(ErrorKind::UnexpectedNid(NID::Folder, n0))
        } else {
            match dyn64_at(s, p1) {
                None => Err(ErrorKind::Truncated),
                Some((nf, p2)) => if nf > usize::MAX {
                    Err(ErrorKind::Truncated)
                } else if !(p2 < s.len()) {
                    Err(ErrorKind::Truncated)
                } else if s[p2] != 0 {
                    Err(ErrorKind::UnsupportedExternal)
                } else {
                    match folders_at(s, p2 + 1, nf as int) {
                        Err(k) => Err(k),
                        Ok((folders, p3)) => match nid_at(s, p3) {
                            Err(k) => Err(k),
                            Ok((n1, p4)) => if n1 != NID::CodersUnpackSize {
                                Err(ErrorKind::UnexpectedNid(NID::CodersUnpackSize, n1))
                            } else {
                                match folder_sizes_at(s, p4, folders) {
                                    None => Err(ErrorKind::Truncated),
                                    Some((sized, p5)) => match nid_at(s, p5) {
                                        Err(k) => Err(k),
                                        Ok((n2, p6)) => {
                                            let after_crc: Result<
                                                (Seq<GFolder>, NID, int),
                                                ErrorKind,
                                            > = if n2 == NID::Crc {
                                                match all_or_bits_at(s, p6, nf as int) {
                                                    Some((d, p7)) => match folder_crcs_at(
                                                        s,
                                                        p7,
                                                        d,
                                                        0,
                                                        sized,
                                                    ) {
                                                        Some((crcd, p8)) => match nid_at(s, p8) {
                                                            Ok((n3, p9)) => Ok((crcd, n3, p9)),
                                                            Err(k) => Err(k),
                                                        },
                                                        None => Err(ErrorKind::Truncated),
                                                    },
                                                    None => Err(ErrorKind::Truncated),
                                                }
                                            } else {
                                                Ok((sized, n2, p6))
                                            };
                                            match after_crc {
                                                Err(k) => Err(k),
                                                Ok((out, nlast, plast)) => if nlast == NID::End {
                                                    Ok((out, plast))
                                                } else {
                                                    Err(
                                                        ErrorKind::BadlyTerminated(
                                                            Section::UnpackInfo,
                                                            nlast,
                                                        ),
                                                    )
                                                },
                                            }
                                        },
                                    },
                                }
                            },
                        },
                    }
                },
            }
        },
    }
}

/// Parses the unpack-info section, exactly as `unpack_info_at` reads it
/// from the bytes at the cursor, and fails exactly when that has no
/// answer there: the folders and, for each, one unpack size per output
/// stream, so that every returned folder is sized.
#[verifier::loop_isolation(false)]
#[verifier::rlimit(100)]
pub(crate) fn read_unpack_info(buf: &mut Buffer) -> (r: Result<Vec<Folder>, ArchiveError>)
    ensures
        final(buf).bytes() == old(buf).bytes(),
        match r {
            Ok(folders) => {
                &&& unpack_info_at(old(buf).bytes(), old(buf).pos() as int) == Ok::<
                    (Seq<GFolder>, int),
                    ErrorKind,
                >((folder_views(folders@), final(buf).pos() as int))
                &&& forall|i: int|
                    0 <= i < folders@.len() ==> {
                        &&& folder_wf(#[trigger] folders@[i])
                        &&& folder_sized(folders@[i])
                        &&& folders@[i].num_unpack_substreams == 0
                    }
            },
            Err(e) => unpack_info_at(old(buf).bytes(), old(buf).pos() as int) == Err::<
                (Seq<GFolder>, int),
                ErrorKind,
            >(e.kind),
        },
{
    proof {
        reveal(unpack_info_at);
    }
    let ghost s = old(buf).bytes();
    let nid0 = read_nid(buf)?;
    if nid0 != NID::Folder {
        return Err(ArchiveError::new(ErrorKind::UnexpectedNid(NID::Folder, nid0)));
    }
    let num_folders = read_dyn_uint64(buf)?;
    let nf = to_usize(num_folders)?;
    let external = buf.read()?;
    if external != 0 {
        return Err(ArchiveError::new(ErrorKind::UnsupportedExternal));
    }

    let ghost pf = buf.pos() as int;
    let mut folders: Vec<Folder> = Vec::new();
    proof {
        assert(folder_views(folders@) =~= Seq::<GFolder>::empty());
    }
    let mut i: usize = 0;
    while i < nf
        invariant
            i <= nf,
            folders@.len() == i,
            buf.bytes() == s,
            folders_at(s, pf, i as int) == Ok::<(Seq<GFolder>, int), ErrorKind>(
                (folder_views(folders@), buf.pos() as int),
            ),
            forall|j: int|
                0 <= j < folders@.len() ==> {
                    &&& folder_wf(#[trigger] folders@[j])
                    &&& folders@[j].unpack_sizes@.len() == 0
                    &&& folders@[j].num_unpack_substreams == 0
                },
        decreases nf - i,
    {
        let ghost q = buf.pos() as int;
        let ghost views_before = folder_views(folders@);
        let folder = match read_folder(buf) {
            Ok(f) => f,
            Err(e) => {
                proof {
                    assert(folders_at(s, q, nf as int - i) == Err::<
                        (Seq<GFolder>, int),
                        ErrorKind,
                    >(e.kind));
                    lemma_folders_at_split(s, pf, i as int, nf as int - i);
                }
                return Err(e);
            },
        };
        folders.push(folder);
        proof {
            lemma_folders_at_split(s, pf, i as int, 1);
            reveal_with_fuel(folders_at, 2);
            assert(folders_at(s, q, 1) == Ok::<(Seq<GFolder>, int), ErrorKind>(
                (seq![folder_view(folder)] + Seq::<GFolder>::empty(), buf.pos() as int),
            ));
            assert(seq![folder_view(folder)] + Seq::<GFolder>::empty() =~= seq![
                folder_view(folder),
            ]);
            assert(folder_views(folders@) =~= views_before + seq![folder_view(folder)]);
        }
        i = i + 1;
    }

    let nid1 = read_nid(buf)?;
    if nid1 != NID::CodersUnpackSize {
        return Err(ArchiveError::new(ErrorKind::UnexpectedNid(NID::CodersUnpackSize, nid1)));
    }

    let ghost p4 = buf.pos() as int;
    let ghost orig = folder_views(folders@);
    proof {
        assert(orig.skip(0) =~= orig);
        assert(folder_views(folders@.subrange(0, 0)) =~= Seq::<GFolder>::empty());
        match folder_sizes_at(s, p4, orig) {
            Some((rest, pe)) => {
                assert(Seq::<GFolder>::empty() + rest =~= rest);
            },
            None => {},
        }
    }
    let nfolders: usize = folders.len();
    let mut f: usize = 0;
    while f < nfolders
        invariant
            f <= nfolders,
            nfolders == folders@.len(),
            buf.bytes() == s,
            orig.len() == nfolders,
            forall|j: int| f <= j < nfolders ==> folder_view(folders@[j]) == orig[j],
            match folder_sizes_at(s, buf.pos() as int, orig.skip(f as int)) {
                Some((rest, pe)) => folder_sizes_at(s, p4, orig) == Some::<(Seq<GFolder>, int)>(
                    (folder_views(folders@.subrange(0, f as int)) + rest, pe),
                ),
                None => folder_sizes_at(s, p4, orig) is None,
            },
            forall|j: int|
                0 <= j < folders@.len() ==> {
                    &&& folder_wf(#[trigger] folders@[j])
                    &&& folders@[j].num_unpack_substreams == 0
                },
            forall|j: int| 0 <= j < f ==> folder_sized(#[trigger] folders@[j]),
        decreases nfolders - f,
    {
        let ghost qf = buf.pos() as int;
        let ghost tail = orig.skip(f as int);
        proof {
            assert(tail[0] == orig[f as int]);
            assert(tail.subrange(1, tail.len() as int) =~= orig.skip(f as int + 1));
        }
        let total = folders[f].total_output_streams;
        let t = to_usize(total)?;
        let mut sizes: Vec<u64> = Vec::new();
        let mut k: usize = 0;
        while k < t
            invariant
                k <= t,
                t == total,
                sizes@.len() == k,
                buf.bytes() == s,
                dyn64_seq_at(s, qf, k as int) == Some((sizes@, buf.pos() as int)),
            decreases t - k,
        {
            let ghost qq = buf.pos() as int;
            let ghost sizes_before = sizes@;
            let v = match read_dyn_uint64(buf) {
                Ok(v) => v,
                Err(e) => {
                    proof {
                        assert(dyn64_seq_at(s, qq, t as int - k) is None);
                        lemma_dyn64_seq_at_split(s, qf, k as int, t as int - k);
                    }
                    return Err(e);
                },
            };
            sizes.push(v);
            proof {
                lemma_dyn64_seq_at_split(s, qf, k as int, 1);
                reveal_with_fuel(dyn64_seq_at, 2);
                assert(dyn64_seq_at(s, qq, 1) == Some::<(Seq<u64>, int)>(
                    (seq![v] + Seq::<u64>::empty(), buf.pos() as int),
                ));
                assert(seq![v] + Seq::<u64>::empty() =~= seq![v]);
                assert(sizes@ =~= sizes_before + seq![v]);
            }
            k = k + 1;
        }
        let ghost before = folders@;
        folders[f].unpack_sizes = sizes;
        proof {
            assert(folders@[f as int].coders@ == before[f as int].coders@);
            assert(forall|j: int|
                0 <= j < folders@.len() && j != f ==> folders@[j] == before[j]);
            assert(folder_view(folders@[f as int]) == with_sizes(orig[f as int], sizes@));
            assert(folder_views(folders@.subrange(0, f as int + 1)) =~= folder_views(
                before.subrange(0, f as int),
            ) + seq![with_sizes(orig[f as int], sizes@)]);
            assert(folder_views(before.subrange(0, f as int)) =~= folder_views(
                folders@.subrange(0, f as int),
            ));
            match folder_sizes_at(s, buf.pos() as int, orig.skip(f as int + 1)) {
                Some((rest, pe)) => {
                    assert((folder_views(folders@.subrange(0, f as int)) + (seq![
                        with_sizes(orig[f as int], sizes@),
                    ] + rest)) =~= (folder_views(folders@.subrange(0, f as int + 1)) + rest));
                },
                None => {},
            }
        }
        f = f + 1;
    }
    proof {
        assert(orig.skip(nfolders as int) =~= Seq::<GFolder>::empty());
        assert(folders@.subrange(0, nfolders as int) =~= folders@);
        assert(folder_views(folders@) + Seq::<GFolder>::empty() =~= folder_views(folders@));
    }
    let ghost sized = folder_views(folders@);

    let mut nid2 = read_nid(buf)?;

    if nid2 == NID::Crc {
        let crcs_defined = read_all_or_bits(buf, num_folders)?;
        let ghost d = index_set_elems(crcs_defined);
        let ghost p7 = buf.pos() as int;
        proof {
            assert(sized.skip(0) =~= sized);
            assert(folder_views(folders@.subrange(0, 0)) =~= Seq::<GFolder>::empty());
            match folder_crcs_at(s, p7, d, 0, sized) {
                Some((rest, pe)) => {
                    assert(Seq::<GFolder>::empty() + rest =~= rest);
                },
                None => {},
            }
        }
        let mut f2: usize = 0;
        while f2 < nfolders
            invariant
                f2 <= nfolders,
                nfolders == folders@.len(),
                buf.bytes() == s,
                sized.len() == nfolders,
                forall|j: int| f2 <= j < nfolders ==> folder_view(folders@[j]) == sized[j],
                match folder_crcs_at(s, buf.pos() as int, d, f2 as int, sized.skip(f2 as int)) {
                    Some((rest, pe)) => folder_crcs_at(s, p7, d, 0, sized) == Some::<
                        (Seq<GFolder>, int),
                    >((folder_views(folders@.subrange(0, f2 as int)) + rest, pe)),
                    None => folder_crcs_at(s, p7, d, 0, sized) is None,
                },
                forall|j: int|
                    0 <= j < folders@.len() ==> {
                        &&& folder_wf(#[trigger] folders@[j])
                        &&& folder_sized(folders@[j])
                        &&& folders@[j].num_unpack_substreams == 0
                    },
            decreases nfolders - f2,
        {
            let ghost qf = buf.pos() as int;
            let ghost tail = sized.skip(f2 as int);
            proof {
                assert(tail[0] == sized[f2 as int]);
                assert(tail.subrange(1, tail.len() as int) =~= sized.skip(f2 as int + 1));
            }
            let ghost before = folders@;
            if crcs_defined.contains(f2) {
                let crc = match read_uint32(buf) {
                    Ok(v) => v,
                    Err(e) => {
                        return Err(e);
                    },
                };
                folders[f2].has_crc = true;
                folders[f2].crc = crc;
            } else {
                folders[f2].has_crc = false;
            }
            let ghost applied = folder_view(folders@[f2 as int]);
            proof {
                if d.contains(f2 as int) {
                    assert(applied == with_crc(sized[f2 as int], true, folders@[f2 as int].crc));
                } else {
                    assert(applied == with_crc(sized[f2 as int], false, sized[f2 as int].crc));
                }
                assert(folders@[f2 as int].coders@ == before[f2 as int].coders@);
                assert(folders@[f2 as int].unpack_sizes@ == before[f2 as int].unpack_sizes@);
                assert(forall|j: int|
                    0 <= j < folders@.len() && j != f2 ==> folders@[j] == before[j]);
                assert(folder_view(folders@[f2 as int]) == applied);
                assert(folder_views(folders@.subrange(0, f2 as int + 1)) =~= folder_views(
                    before.subrange(0, f2 as int),
                ) + seq![applied]);
                assert(folder_views(before.subrange(0, f2 as int)) =~= folder_views(
                    folders@.subrange(0, f2 as int),
                ));
                match folder_crcs_at(s, buf.pos() as int, d, f2 as int + 1, sized.skip(
                    f2 as int + 1,
                )) {
                    Some((rest, pe)) => {
                        assert((folder_views(folders@.subrange(0, f2 as int)) + (seq![applied]
                            + rest)) =~= (folder_views(folders@.subrange(0, f2 as int + 1))
                            + rest));
                    },
                    None => {},
                }
            }
            f2 = f2 + 1;
        }
        proof {
            assert(sized.skip(nfolders as int) =~= Seq::<GFolder>::empty());
            assert(folders@.subrange(0, nfolders as int) =~= folders@);
            assert(folder_views(folders@) + Seq::<GFolder>::empty() =~= folder_views(folders@));
        }
        nid2 = read_nid(buf)?;
    }

    if nid2 != NID::End {
        return Err(ArchiveError::new(ErrorKind::BadlyTerminated(Section::UnpackInfo, nid2)));
    }

    Ok(folders)
}


/// A folder view with its substream count filled in.
pub open spec fn with_substreams(f: GFolder, k: u64) -> GFolder {
    GFolder {
        coders: f.coders,
        bind_pairs: f.bind_pairs,
        total_in: f.total_in,
        total_out: f.total_out,
        packed_streams: f.packed_streams,
        unpack_sizes: f.unpack_sizes,
        has_crc: f.has_crc,
        crc: f.crc,
        substreams: k,
    }
}

/// The folder's final output size, over the view; it matches
/// `spec_unpack_size` of the folder it views.
pub open spec fn g_unpack_size_rec(f: GFolder, i: int) -> u64
    decreases i + 1,
{
    if i < 0 {
        0
    } else if !has_bind_pair_out(f.bind_pairs, i as u64) {
        f.unpack_sizes[i]
    } else {
        g_unpack_size_rec(f, i - 1)
    }
}

pub open spec fn g_unpack_size(f: GFolder) -> u64 {
    g_unpack_size_rec(f, f.total_out as int - 1)
}

proof fn lemma_g_unpack_size_rec(f: Folder, i: int)
    ensures
        g_unpack_size_rec(folder_view(f), i) == unpack_size_rec(f, i),
    decreases i + 1,
{
    if i >= 0 && has_bind_pair_out(f.bind_pairs@, i as u64) {
        lemma_g_unpack_size_rec(f, i - 1);
    }
}

/// Prefix sums of a `u64` list never exceed the whole sum.
proof fn lemma_sum_u64_prefix(s: Seq<u64>, a: int)
    requires
        0 <= a <= s.len(),
    ensures
        sum_u64(s.subrange(0, a)) <= sum_u64(s),
    decreases s.len() - a,
{
    if a == s.len() {
        assert(s.subrange(0, a) =~= s);
    } else {
        lemma_sum_u64_prefix(s, a + 1);
        assert(s.subrange(0, a + 1).drop_last() =~= s.subrange(0, a));
        assert(s.subrange(0, a + 1).last() == s[a]);
    }
}

/// The sum of a concatenation is the sum of the parts.
proof fn lemma_sum_u64_concat(a: Seq<u64>, b: Seq<u64>)
    ensures
        sum_u64(a + b) == sum_u64(a) + sum_u64(b),
    decreases b.len(),
{
    if b.len() == 0 {
        assert(a + b =~= a);
    } else {
        lemma_sum_u64_concat(a, b.drop_last());
        assert((a + b).drop_last() =~= a + b.drop_last());
        assert((a + b).last() == b.last());
    }
}

/// The sum of a one-element list is its element.
proof fn lemma_sum_u64_one(x: u64)
    ensures
        sum_u64(seq![x]) == x,
{
    reveal_with_fuel(sum_u64, 2);
    assert(seq![x].drop_last() =~= Seq::<u64>::empty());
    assert(seq![x].last() == x);
}

/// One folder's slice of the flat substream sizes at `p`: nothing for a
/// folder with no substreams; with the `Size` block its first `k - 1`
/// sizes read from the bytes and the last the remainder of its unpack
/// size; without it the whole unpack size.
#[verifier::opaque]
pub open spec fn folder_sub_sizes_at(s: Seq<u8>, p: int, f0: GFolder, has_size: bool) -> Result<
    (Seq<u64>, int),
    ErrorKind,
> {
    if f0.substreams == 0 {
        Ok((Seq::empty(), p))
    } else if has_size {
        if f0.substreams > usize::MAX {
            Err(ErrorKind::Truncated)
        } else {
            match dyn64_seq_at(s, p, f0.substreams as int - 1) {
                Some((sz, p2)) => if sum_u64(sz) > u64::MAX || sum_u64(sz) > g_unpack_size(f0) {
                    Err(ErrorKind::InvalidFolderTopology)
                } else {
                    Ok((sz + seq![(g_unpack_size(f0) - sum_u64(sz)) as u64], p2))
                },
                None => Err(ErrorKind::Truncated),
            }
        }
    } else {
        Ok((seq![g_unpack_size(f0)], p))
    }
}

/// The flat substream sizes starting at `p`: the folders' slices laid
/// end to end.
pub open spec fn sub_sizes_at(s: Seq<u8>, p: int, folders: Seq<GFolder>, has_size: bool) -> Result<
    (Seq<u64>, int),
    ErrorKind,
>
    decreases folders.len(),
{
    if folders.len() == 0 {
        Ok((Seq::empty(), p))
    } else {
        match folder_sub_sizes_at(s, p, folders[0], has_size) {
            Ok((head, p2)) => match sub_sizes_at(
                s,
                p2,
                folders.subrange(1, folders.len() as int),
                has_size,
            ) {
                Ok((rest, p3)) => Ok((head + rest, p3)),
                Err(k) => Err(k),
            },
            Err(k) => Err(k),
        }
    }
}

/// How many substream digests the `Crc` block of the substreams section
/// covers: every substream of a folder that has more than one, or whose
/// folder carries no checksum of its own.
pub open spec fn g_digests(folders: Seq<GFolder>) -> nat
    decreases folders.len(),
{
    if folders.len() == 0 {
        0
    } else {
        g_digests(folders.drop_last()) + (if folders.last().substreams != 1
            || !folders.last().has_crc {
            folders.last().substreams as nat
        } else {
            0
        })
    }
}

/// Prefix counts of the digests never exceed the whole count.
proof fn lemma_g_digests_prefix(s: Seq<GFolder>, a: int)
    requires
        0 <= a <= s.len(),
    ensures
        g_digests(s.subrange(0, a)) <= g_digests(s),
    decreases s.len() - a,
{
    if a == s.len() {
        assert(s.subrange(0, a) =~= s);
    } else {
        lemma_g_digests_prefix(s, a + 1);
        assert(s.subrange(0, a + 1).drop_last() =~= s.subrange(0, a));
        assert(s.subrange(0, a + 1).last() == s[a]);
    }
}

/// The end position of the substream digest words at `p`: one four-byte
/// word for each index of `i..n` in `d`.
pub open spec fn digest_crcs_at(s: Seq<u8>, p: int, d: Set<int>, i: int, n: int) -> Option<int>
    decreases n - i,
    when i <= n
{
    if i >= n {
        Some(p)
    } else if d.contains(i) {
        match u32_at(s, p) {
            Some((v, p2)) => digest_crcs_at(s, p2, d, i + 1, n),
            None => None,
        }
    } else {
        digest_crcs_at(s, p, d, i + 1, n)
    }
}

/// The substreams-info section at `p`, applied to the folder views as
/// they stand after unpack-info: the optional per-folder counts
/// (defaulting to one), the flat sizes, the optional digest block, and
/// the closing `End` tag. Yields the updated folder views and the sizes.
#[verifier::opaque]
pub open spec fn substreams_at(s: Seq<u8>, p: int, folders: Seq<GFolder>) -> Result<
    ((Seq<GFolder>, Seq<u64>), int),
    ErrorKind,
> {
    match nid_at(s, p) {
        Err(k) => Err(k),
        Ok((n0, p1)) => {
            let counted: Result<(Seq<GFolder>, NID, int), ErrorKind> = if n0
                == NID::NumUnpackStream {
                match dyn64_seq_at(s, p1, folders.len() as int) {
                    Some((counts, p2)) => match nid_at(s, p2) {
                        Ok((n1, p3)) => Ok(
                            (
                                Seq::new(
                                    folders.len(),
                                    |i: int| with_substreams(folders[i], counts[i]),
                                ),
                                n1,
                                p3,
                            ),
                        ),
                        Err(k) => Err(k),
                    },
                    None => Err(ErrorKind::Truncated),
                }
            } else {
                Ok((folders.map_values(|f: GFolder| with_substreams(f, 1)), n0, p1))
            };
            match counted {
                Err(k) => Err(k),
                Ok((fs, n1, p3)) => {
                    let has_size = n1 == NID::Size;
                    match sub_sizes_at(s, p3, fs, has_size) {
                        Err(k) => Err(k),
                        Ok((sizes, p4)) => {
                            let after_size_nid: Result<(NID, int), ErrorKind> = if has_size {
                                nid_at(s, p4)
                            } else {
                                Ok((n1, p4))
                            };
                            match after_size_nid {
                                Err(k) => Err(k),
                                Ok((n2, p5)) => if g_digests(fs) > u64::MAX {
                                    Err(ErrorKind::InvalidFolderTopology)
                                } else {
                                    let after_crc: Result<(NID, int), ErrorKind> = if n2
                                        == NID::Crc {
                                        match all_or_bits_at(s, p5, g_digests(fs) as int) {
                                            Some((d, p6)) => match digest_crcs_at(
                                                s,
                                                p6,
                                                d,
                                                0,
                                                g_digests(fs) as int,
                                            ) {
                                                Some(p7) => nid_at(s, p7),
                                                None => Err(ErrorKind::Truncated),
                                            },
                                            None => Err(ErrorKind::Truncated),
                                        }
                                    } else {
                                        Ok((n2, p5))
                                    };
                                    match after_crc {
                                        Err(k) => Err(k),
                                        Ok((n3, p8)) => if n3 == NID::End {
                                            Ok(((fs, sizes), p8))
                                        } else {
                                            Err(
                                                ErrorKind::BadlyTerminated(
                                                    Section::SubStreamsInfo,
                                                    n3,
                                                ),
                                            )
                                        },
                                    }
                                },
                            }
                        },
                    }
                },
            }
        },
    }
}

/// Reads one folder's slice of the flat substream sizes, exactly as
/// `folder_sub_sizes_at` gives it; the slice sums to the folder's unpack
/// size.
#[verifier::loop_isolation(false)]
#[verifier::rlimit(100)]
fn read_folder_sub_sizes(buf: &mut Buffer, folder: &Folder, has_size: bool) -> (r: Result<
    Vec<u64>,
    ArchiveError,
>)
    requires
        folder_wf(*folder),
        folder_sized(*folder),
    ensures
        final(buf).bytes() == old(buf).bytes(),
        match r {
            Ok(v) => {
                &&& folder_sub_sizes_at(
                    old(buf).bytes(),
                    old(buf).pos() as int,
                    folder_view(*folder),
                    has_size,
                ) == Ok::<(Seq<u64>, int), ErrorKind>((v@, final(buf).pos() as int))
                &&& v@.len() == substream_count(*folder, has_size)
                &&& folder.num_unpack_substreams > 0 ==> sum_u64(v@) == spec_unpack_size(*folder)
            },
            Err(e) => folder_sub_sizes_at(
                old(buf).bytes(),
                old(buf).pos() as int,
                folder_view(*folder),
                has_size,
            ) == Err::<(Seq<u64>, int), ErrorKind>(e.kind),
        },
{
    proof {
        reveal(folder_sub_sizes_at);
    }
    let ghost s = old(buf).bytes();
    let ghost qf = old(buf).pos() as int;
    let ghost gf = folder_view(*folder);
    let k: u64 = folder.num_unpack_substreams;
    let mut out: Vec<u64> = Vec::new();
    if k == 0 {
        proof {
            assert(out@ =~= Seq::<u64>::empty());
        }
        return Ok(out);
    }
    let mut sum: u64 = 0;
    if has_size {
        let kk = to_usize(k)?;
        let mut j: usize = 0;
        while j < kk - 1
            invariant
                kk >= 1,
                kk == k,
                j <= kk - 1,
                buf.bytes() == s,
                out@.len() == j,
                dyn64_seq_at(s, qf, j as int) == Some((out@, buf.pos() as int)),
            decreases kk - 1 - j,
        {
            let ghost qq = buf.pos() as int;
            let ghost cur = out@;
            let size = match read_dyn_uint64(buf) {
                Ok(v) => v,
                Err(e) => {
                    proof {
                        assert(dyn64_seq_at(s, qq, kk as int - 1 - j) is None);
                        lemma_dyn64_seq_at_split(s, qf, j as int, kk as int - 1 - j);
                    }
                    return Err(e);
                },
            };
            proof {
                lemma_dyn64_seq_at_split(s, qf, j as int, 1);
                reveal_with_fuel(dyn64_seq_at, 2);
                assert(dyn64_seq_at(s, qq, 1) == Some::<(Seq<u64>, int)>(
                    (seq![size] + Seq::<u64>::empty(), buf.pos() as int),
                ));
                assert(seq![size] + Seq::<u64>::empty() =~= seq![size]);
            }
            out.push(size);
            proof {
                assert(out@ =~= cur + seq![size]);
            }
            j = j + 1;
        }
        let n_read: usize = out.len();
        let mut j2: usize = 0;
        while j2 < n_read
            invariant
                j2 <= n_read,
                n_read == out@.len(),
                buf.bytes() == s,
                sum == sum_u64(out@.subrange(0, j2 as int)),
            decreases n_read - j2,
        {
            let ghost pre = out@.subrange(0, j2 as int);
            sum = match sum.checked_add(out[j2]) {
                Some(v) => v,
                None => {
                    proof {
                        lemma_sum_u64_prefix(out@, j2 as int + 1);
                        assert(out@.subrange(0, j2 as int + 1).drop_last() =~= pre);
                        assert(out@.subrange(0, j2 as int + 1).last() == out@[j2 as int]);
                    }
                    return Err(
                        ArchiveError::with_message(
                            ErrorKind::InvalidFolderTopology,
                            "Substream sizes overflow",
                        ),
                    );
                },
            };
            j2 = j2 + 1;
            proof {
                let cur2 = out@.subrange(0, j2 as int);
                assert(cur2.drop_last() =~= pre);
                assert(cur2.last() == out@[j2 - 1]);
            }
        }
        proof {
            assert(out@.subrange(0, n_read as int) =~= out@);
        }
    }
    let total = folder.get_unpack_size();
    proof {
        lemma_g_unpack_size_rec(*folder, folder.total_output_streams as int - 1);
        assert(g_unpack_size(gf) == total);
        if !has_size {
            assert(out@ =~= Seq::<u64>::empty());
        }
    }
    if sum > total {
        return Err(
            ArchiveError::with_message(
                ErrorKind::InvalidFolderTopology,
                "Substream sizes exceed the folder unpack size",
            ),
        );
    }
    let ghost szseq = out@;
    out.push(total - sum);
    proof {
        assert(out@ =~= szseq + seq![(total - sum) as u64]);
        lemma_sum_u64_concat(szseq, seq![(total - sum) as u64]);
        lemma_sum_u64_one((total - sum) as u64);
        if !has_size {
            assert(out@ =~= seq![total]);
        }
    }
    Ok(out)
}

/// Reads the flat substream sizes for the folders as they stand, with
/// their substream counts already set: exactly `sub_sizes_at`, and laid
/// out by `substream_layout`.
#[verifier::loop_isolation(false)]
#[verifier::rlimit(100)]
fn read_sub_sizes(buf: &mut Buffer, folders: &Vec<Folder>, has_size: bool) -> (r: Result<
    Vec<u64>,
    ArchiveError,
>)
    requires
        forall|i: int|
            0 <= i < folders@.len() ==> folder_wf(#[trigger] folders@[i]) && folder_sized(
                folders@[i],
            ),
    ensures
        final(buf).bytes() == old(buf).bytes(),
        match r {
            Ok(sizes) => {
                &&& sub_sizes_at(
                    old(buf).bytes(),
                    old(buf).pos() as int,
                    folder_views(folders@),
                    has_size,
                ) == Ok::<(Seq<u64>, int), ErrorKind>((sizes@, final(buf).pos() as int))
                &&& substream_layout(folders@, has_size, sizes@)
            },
            Err(e) => sub_sizes_at(
                old(buf).bytes(),
                old(buf).pos() as int,
                folder_views(folders@),
                has_size,
            ) == Err::<(Seq<u64>, int), ErrorKind>(e.kind),
        },
{
    let ghost s = old(buf).bytes();
    let ghost p3v = old(buf).pos() as int;
    let ghost fs = folder_views(folders@);
    let nf: usize = folders.len();
    let mut unpack_sizes: Vec<u64> = Vec::new();
    let mut f: usize = 0;
    proof {
        assert(fs.skip(0) =~= fs);
        match sub_sizes_at(s, p3v, fs, has_size) {
            Ok((rest, pe)) => {
                assert(Seq::<u64>::empty() + rest =~= rest);
            },
            Err(k) => {},
        }
    }
    while f < nf
        invariant
            f <= nf,
            buf.bytes() == s,
            fs == folder_views(folders@),
            fs.len() == nf,
            match sub_sizes_at(s, buf.pos() as int, fs.skip(f as int), has_size) {
                Ok((rest, pe)) => sub_sizes_at(s, p3v, fs, has_size) == Ok::<
                    (Seq<u64>, int),
                    ErrorKind,
                >((unpack_sizes@ + rest, pe)),
                Err(k) => sub_sizes_at(s, p3v, fs, has_size) == Err::<(Seq<u64>, int), ErrorKind>(
                    k,
                ),
            },
            unpack_sizes@.len() == substream_start(folders@, has_size, f as int),
            forall|j: int|
                0 <= j < f && substream_count(#[trigger] folders@[j], has_size) > 0 ==> sum_u64(
                    unpack_sizes@.subrange(
                        substream_start(folders@, has_size, j) as int,
                        substream_start(folders@, has_size, j) as int + substream_count(
                            folders@[j],
                            has_size,
                        ) as int,
                    ),
                ) == spec_unpack_size(folders@[j]),
        decreases nf - f,
    {
        let ghost qf = buf.pos() as int;
        let ghost tail = fs.skip(f as int);
        proof {
            assert(tail[0] == fs[f as int]);
            assert(tail.subrange(1, tail.len() as int) =~= fs.skip(f as int + 1));
            assert(fs[f as int] == folder_view(folders@[f as int]));
        }
        let part = match read_folder_sub_sizes(buf, &folders[f], has_size) {
            Ok(v) => v,
            Err(e) => {
                return Err(e);
            },
        };
        let ghost prefix = unpack_sizes@;
        let np: usize = part.len();
        let mut x: usize = 0;
        proof {
            assert(prefix + part@.subrange(0, 0) =~= prefix);
        }
        while x < np
            invariant
                x <= np,
                np == part@.len(),
                buf.bytes() == s,
                unpack_sizes@ == prefix + part@.subrange(0, x as int),
            decreases np - x,
        {
            unpack_sizes.push(part[x]);
            proof {
                assert(unpack_sizes@ =~= prefix + part@.subrange(0, x as int + 1));
            }
            x = x + 1;
        }
        proof {
            assert(part@.subrange(0, np as int) =~= part@);
            assert(unpack_sizes@ == prefix + part@);
            match sub_sizes_at(s, buf.pos() as int, fs.skip(f as int + 1), has_size) {
                Ok((rest, pe)) => {
                    assert((prefix + (part@ + rest)) =~= (unpack_sizes@ + rest));
                },
                Err(k) => {},
            }
            let count = substream_count(folders@[f as int], has_size) as int;
            assert(count == part@.len());
            assert(substream_start(folders@, has_size, f as int + 1) == prefix.len() + count);
            let slice = unpack_sizes@.subrange(prefix.len() as int, prefix.len() + count);
            assert(slice =~= part@);
            assert forall|j: int|
                0 <= j < f + 1 && substream_count(#[trigger] folders@[j], has_size) > 0 implies sum_u64(
                unpack_sizes@.subrange(
                    substream_start(folders@, has_size, j) as int,
                    substream_start(folders@, has_size, j) as int + substream_count(
                        folders@[j],
                        has_size,
                    ) as int,
                ),
            ) == spec_unpack_size(folders@[j]) by {
                if j < f {
                    lemma_substream_start_le(folders@, has_size, j + 1, f as int);
                    assert(unpack_sizes@.subrange(
                        substream_start(folders@, has_size, j) as int,
                        substream_start(folders@, has_size, j) as int + substream_count(
                            folders@[j],
                            has_size,
                        ) as int,
                    ) =~= prefix.subrange(
                        substream_start(folders@, has_size, j) as int,
                        substream_start(folders@, has_size, j) as int + substream_count(
                            folders@[j],
                            has_size,
                        ) as int,
                    ));
                } else {
                    assert(unpack_sizes@.subrange(
                        substream_start(folders@, has_size, j) as int,
                        substream_start(folders@, has_size, j) as int + substream_count(
                            folders@[j],
                            has_size,
                        ) as int,
                    ) =~= slice);
                }
            }
        }
        f = f + 1;
    }
    proof {
        assert(fs.skip(nf as int) =~= Seq::<GFolder>::empty());
        assert(unpack_sizes@ + Seq::<u64>::empty() =~= unpack_sizes@);
    }
    Ok(unpack_sizes)
}

/// Parses the substreams-info section, exactly as `substreams_at` reads
/// it from the bytes at the cursor and applies it to the folders, and
/// failing exactly when that has no answer: per-folder substream counts
/// and the flat list of substream sizes, where the last size of each
/// folder is implied as the remainder of the folder's unpack size. The
/// returned list is laid out by `substream_layout`, so each folder's
/// sizes sum to its unpack size.
#[verifier::loop_isolation(false)]
#[verifier::rlimit(100)]
pub(crate) fn read_substreams_info(buf: &mut Buffer, folders: &mut Vec<Folder>) -> (r: Result<
    SubstreamsInfo,
    ArchiveError,
>)
    requires
        forall|i: int|
            0 <= i < old(folders)@.len() ==> folder_wf(#[trigger] old(folders)@[i]) && folder_sized(
                old(folders)@[i],
            ),
    ensures
        final(buf).bytes() == old(buf).bytes(),
        final(folders)@.len() == old(folders)@.len(),
        forall|i: int|
            0 <= i < final(folders)@.len() ==> folder_wf(#[trigger] final(folders)@[i])
                && folder_sized(final(folders)@[i]),
        match r {
            Ok(info) => {
                &&& substreams_at(
                    old(buf).bytes(),
                    old(buf).pos() as int,
                    folder_views(old(folders)@),
                ) == Ok::<((Seq<GFolder>, Seq<u64>), int), ErrorKind>(
                    ((folder_views(final(folders)@), info.unpack_sizes@), final(buf).pos() as int),
                )
                &&& substream_layout(final(folders)@, true, info.unpack_sizes@)
                    || substream_layout(final(folders)@, false, info.unpack_sizes@)
            },
            Err(e) => substreams_at(
                old(buf).bytes(),
                old(buf).pos() as int,
                folder_views(old(folders)@),
            ) == Err::<((Seq<GFolder>, Seq<u64>), int), ErrorKind>(e.kind),
        },
{
    proof {
        reveal(substreams_at);
    }
    let ghost s = old(buf).bytes();
    let ghost p0 = old(buf).pos() as int;
    let ghost ov = folder_views(old(folders)@);
    let nf: usize = folders.len();
    let mut i0: usize = 0;
    while i0 < nf
        invariant
            i0 <= nf,
            forall|j: int| 0 <= j < i0 ==> folder_view(folders@[j]) == with_substreams(ov[j], 1),
            forall|j: int| i0 <= j < nf ==> folders@[j] == old(folders)@[j],
            folders@.len() == nf,
            forall|j: int|
                0 <= j < folders@.len() ==> folder_wf(#[trigger] folders@[j]) && folder_sized(
                    folders@[j],
                ),
        decreases nf - i0,
    {
        let ghost before = folders@;
        folders[i0].num_unpack_substreams = 1;
        proof {
            assert(folders@[i0 as int].coders@ == before[i0 as int].coders@);
            assert(forall|j: int| 0 <= j < folders@.len() && j != i0 ==> folders@[j] == before[j]);
        }
        i0 = i0 + 1;
    }

    let mut nid = read_nid(buf)?;
    let ghost n0 = nid;
    let ghost p1v = buf.pos() as int;
    let ghost mut counts = Seq::<u64>::empty();
    if nid == NID::NumUnpackStream {
        let mut i1: usize = 0;
        while i1 < nf
            invariant
                i1 <= nf,
                counts.len() == i1,
                buf.bytes() == s,
                dyn64_seq_at(s, p1v, i1 as int) == Some((counts, buf.pos() as int)),
                forall|j: int|
                    0 <= j < i1 ==> folder_view(folders@[j]) == with_substreams(ov[j], counts[j]),
                forall|j: int|
                    i1 <= j < nf ==> folder_view(folders@[j]) == with_substreams(ov[j], 1),
                folders@.len() == nf,
                forall|j: int|
                    0 <= j < folders@.len() ==> folder_wf(#[trigger] folders@[j]) && folder_sized(
                        folders@[j],
                    ),
            decreases nf - i1,
        {
            let ghost qq = buf.pos() as int;
            let count = match read_dyn_uint64(buf) {
                Ok(v) => v,
                Err(e) => {
                    proof {
                        assert(dyn64_seq_at(s, qq, nf as int - i1) is None);
                        lemma_dyn64_seq_at_split(s, p1v, i1 as int, nf as int - i1);
                    }
                    return Err(e);
                },
            };
            let ghost before = folders@;
            folders[i1].num_unpack_substreams = count;
            proof {
                assert(folders@[i1 as int].coders@ == before[i1 as int].coders@);
                assert(forall|j: int|
                    0 <= j < folders@.len() && j != i1 ==> folders@[j] == before[j]);
                lemma_dyn64_seq_at_split(s, p1v, i1 as int, 1);
                reveal_with_fuel(dyn64_seq_at, 2);
                assert(dyn64_seq_at(s, qq, 1) == Some::<(Seq<u64>, int)>(
                    (seq![count] + Seq::<u64>::empty(), buf.pos() as int),
                ));
                assert(seq![count] + Seq::<u64>::empty() =~= seq![count]);
                counts = counts.push(count);
            }
            i1 = i1 + 1;
        }
        nid = read_nid(buf)?;
    }

    let ghost fs = folder_views(folders@);
    let ghost n1 = nid;
    let ghost p3v = buf.pos() as int;
    proof {
        if n0 == NID::NumUnpackStream {
            assert(fs =~= Seq::new(ov.len(), |i: int| with_substreams(ov[i], counts[i])));
        } else {
            assert(fs =~= ov.map_values(|f2: GFolder| with_substreams(f2, 1)));
        }
    }

    let has_size: bool = nid == NID::Size;
    let unpack_sizes = match read_sub_sizes(buf, folders, has_size) {
        Ok(v) => v,
        Err(e) => {
            return Err(e);
        },
    };
    let ghost p4v = buf.pos() as int;

    if has_size {
        nid = read_nid(buf)?;
    }
    let ghost n2 = nid;
    let ghost p5v = buf.pos() as int;

    let mut num_digests: u64 = 0;
    let mut i2: usize = 0;
    while i2 < nf
        invariant
            i2 <= nf,
            buf.bytes() == s,
            folders@.len() == nf,
            fs == folder_views(folders@),
            num_digests == g_digests(fs.subrange(0, i2 as int)),
            forall|q: int|
                0 <= q < folders@.len() ==> folder_wf(#[trigger] folders@[q]) && folder_sized(
                    folders@[q],
                ),
        decreases nf - i2,
    {
        let ghost pre = fs.subrange(0, i2 as int);
        if folders[i2].num_unpack_substreams != 1 || !folders[i2].has_crc {
            num_digests = match num_digests.checked_add(folders[i2].num_unpack_substreams) {
                Some(v) => v,
                None => {
                    proof {
                        lemma_g_digests_prefix(fs, i2 as int + 1);
                        assert(fs.subrange(0, i2 as int + 1).drop_last() =~= pre);
                        assert(fs.subrange(0, i2 as int + 1).last() == fs[i2 as int]);
                    }
                    return Err(
                        ArchiveError::with_message(
                            ErrorKind::InvalidFolderTopology,
                            "Substream digest count overflows",
                        ),
                    );
                },
            };
        }
        i2 = i2 + 1;
        proof {
            let cur = fs.subrange(0, i2 as int);
            assert(cur.drop_last() =~= pre);
            assert(cur.last() == fs[i2 - 1]);
        }
    }
    proof {
        assert(fs.subrange(0, nf as int) =~= fs);
    }

    if nid == NID::Crc {
        let has_missing_crc = read_all_or_bits(buf, num_digests)?;
        let ghost d = index_set_elems(has_missing_crc);
        let ghost p6v = buf.pos() as int;
        let nd = to_usize(num_digests)?;
        let mut missing_crcs: Vec<u32> = Vec::new();
        let mut i3: usize = 0;
        while i3 < nd
            invariant
                i3 <= nd,
                buf.bytes() == s,
                folders@.len() == nf,
                match digest_crcs_at(s, buf.pos() as int, d, i3 as int, nd as int) {
                    Some(pe) => digest_crcs_at(s, p6v, d, 0, nd as int) == Some(pe),
                    None => digest_crcs_at(s, p6v, d, 0, nd as int) is None,
                },
                forall|q: int|
                    0 <= q < folders@.len() ==> folder_wf(#[trigger] folders@[q]) && folder_sized(
                        folders@[q],
                    ),
            decreases nd - i3,
        {
            if has_missing_crc.contains(i3) {
                let crc = match read_uint32(buf) {
                    Ok(v) => v,
                    Err(e) => {
                        return Err(e);
                    },
                };
                missing_crcs.push(crc);
            } else {
                missing_crcs.push(0);
            }
            i3 = i3 + 1;
        }
        nid = read_nid(buf)?;
    }

    if nid != NID::End {
        return Err(ArchiveError::new(ErrorKind::BadlyTerminated(Section::SubStreamsInfo, nid)));
    }

    proof {
        if has_size {
            assert(substream_layout(folders@, true, unpack_sizes@));
        } else {
            assert(substream_layout(folders@, false, unpack_sizes@));
        }
    }
    Ok(SubstreamsInfo { unpack_sizes })
}

/// `substream_start` grows with the folder index.
proof fn lemma_substream_start_le(folders: Seq<Folder>, has_size: bool, a: int, b: int)
    requires
        a <= b,
    ensures
        substream_start(folders, has_size, a) <= substream_start(folders, has_size, b),
    decreases b - a,
{
    if a < b {
        lemma_substream_start_le(folders, has_size, a, b - 1);
    }
}

/// The mathematical counterpart of a parsed `StreamsInfo`.
pub ghost struct GStreamsInfo {
    pub pack: GPackInfo,
    pub folders: Seq<GFolder>,
    pub substreams: Option<Seq<u64>>,
}

pub open spec fn streams_info_view(si: StreamsInfo) -> GStreamsInfo {
    GStreamsInfo {
        pack: pack_info_view(si.pack_info),
        folders: folder_views(si.folders@),
        substreams: match si.substreams_info {
            Some(ssi) => Some(ssi.unpack_sizes@),
            None => None,
        },
    }
}

/// A whole streams-info aggregate at `p`: the optional pack-info,
/// unpack-info and substreams-info sections in order, and the closing
/// `End` tag; `None` when a section is malformed, the terminator is not
/// `End`, or the pack-info section is missing.
#[verifier::opaque]
pub open spec fn streams_info_at(s: Seq<u8>, p: int) -> Result<(GStreamsInfo, int), ErrorKind> {
    match nid_at(s, p) {
        Err(k) => Err(k),
        Ok((n0, p1)) => {
            let packed: Result<(Option<GPackInfo>, NID, int), ErrorKind> = if n0 == NID::PackInfo {
                match pack_info_at(s, p1) {
                    Ok((pi, p2)) => match nid_at(s, p2) {
                        Ok((n1, p3)) => Ok((Some(pi), n1, p3)),
                        Err(k) => Err(k),
                    },
                    Err(k) => Err(k),
                }
            } else {
                Ok((None, n0, p1))
            };
            match packed {
                Err(k) => Err(k),
                Ok((pack, n1, p2)) => {
                    let unpacked: Result<(Seq<GFolder>, NID, int), ErrorKind> = if n1
                        == NID::UnpackInfo {
                        match unpack_info_at(s, p2) {
                            Ok((folders, p3)) => match nid_at(s, p3) {
                                Ok((n2, p4)) => Ok((folders, n2, p4)),
                                Err(k) => Err(k),
                            },
                            Err(k) => Err(k),
                        }
                    } else {
                        Ok((Seq::empty(), n1, p2))
                    };
                    match unpacked {
                        Err(k) => Err(k),
                        Ok((folders, n2, p3)) => {
                            let sub: Result<
                                (Seq<GFolder>, Option<Seq<u64>>, NID, int),
                                ErrorKind,
                            > = if n2 == NID::SubStreamsInfo {
                                match substreams_at(s, p3, folders) {
                                    Ok(((folders2, sizes), p4)) => match nid_at(s, p4) {
                                        Ok((n3, p5)) => Ok((folders2, Some(sizes), n3, p5)),
                                        Err(k) => Err(k),
                                    },
                                    Err(k) => Err(k),
                                }
                            } else {
                                Ok((folders, None, n2, p3))
                            };
                            match sub {
                                Err(k) => Err(k),
                                Ok((folders2, sizes, n3, p4)) => if n3 != NID::End {
                                    Err(ErrorKind::BadlyTerminated(Section::StreamsInfo, n3))
                                } else {
                                    match pack {
                                        Some(pi) => Ok(
                                            (
                                                GStreamsInfo {
                                                    pack: pi,
                                                    folders: folders2,
                                                    substreams: sizes,
                                                },
                                                p4,
                                            ),
                                        ),
                                        None => Err(ErrorKind::MissingStreamsInfo),
                                    }
                                },
                            }
                        },
                    }
                },
            }
        },
    }
}

/// Parses a whole streams-info aggregate, exactly as `streams_info_at`
/// reads it from the bytes at the cursor, and failing exactly when that
/// has no answer: pack info, folders, and the
/// optional substreams info, each section in order and `End`-terminated.
pub fn read_streams_info(buf: &mut Buffer) -> (r: Result<StreamsInfo, ArchiveError>)
    ensures
        final(buf).bytes() == old(buf).bytes(),
        match r {
            Ok(si) => {
                &&& streams_info_at(old(buf).bytes(), old(buf).pos() as int) == Ok::<
                    (GStreamsInfo, int),
                    ErrorKind,
                >((streams_info_view(si), final(buf).pos() as int))
                &&& forall|i: int|
                    0 <= i < si.folders@.len() ==> folder_wf(#[trigger] si.folders@[i])
                        && folder_sized(si.folders@[i])
                &&& match si.substreams_info {
                    Some(ssi) => substream_layout(si.folders@, true, ssi.unpack_sizes@)
                        || substream_layout(si.folders@, false, ssi.unpack_sizes@),
                    None => true,
                }
            },
            Err(e) => streams_info_at(old(buf).bytes(), old(buf).pos() as int) == Err::<
                (GStreamsInfo, int),
                ErrorKind,
            >(e.kind),
        },
{
    proof {
        reveal(streams_info_at);
    }
    let ghost s = old(buf).bytes();
    let mut nid = read_nid(buf)?;

    let mut pack_info: Option<PackInfo> = None;
    let mut substreams_info: Option<SubstreamsInfo> = None;

    if nid == NID::PackInfo {
        pack_info = Some(read_pack_info(buf)?);
        nid = read_nid(buf)?;
    }

    let mut folders: Vec<Folder> = Vec::new();
    proof {
        assert(folder_views(folders@) =~= Seq::<GFolder>::empty());
    }
    if nid == NID::UnpackInfo {
        folders = read_unpack_info(buf)?;
        nid = read_nid(buf)?;
    }

    if nid == NID::SubStreamsInfo {
        substreams_info = Some(read_substreams_info(buf, &mut folders)?);
        nid = read_nid(buf)?;
    }

    if nid != NID::End {
        return Err(ArchiveError::new(ErrorKind::BadlyTerminated(Section::StreamsInfo, nid)));
    }

    let pack_info = match pack_info {
        Some(pi) => pi,
        None => {
            return Err(
                ArchiveError::with_message(
                    ErrorKind::MissingStreamsInfo,
                    "Missing PackInfo in StreamsInfo",
                ),
            );
        },
    };

    Ok(StreamsInfo { pack_info, substreams_info, folders })
}

/// Whether every coder index that the decode-order traversal touches is
/// in range, over the folder view.
pub open spec fn g_coder_indices_ok(f: GFolder) -> bool {
    &&& f.packed_streams.len() >= 1
    &&& f.packed_streams[0] < f.coders.len()
    &&& forall|j: int|
        0 <= j < f.bind_pairs.len() ==> (#[trigger] f.bind_pairs[j]).in_index < f.coders.len()
}

/// Whether every coder index that the decode-order traversal touches is
/// in range, so the traversal cannot step outside the coder list.
pub fn coder_indices_ok(f: &Folder) -> (r: bool)
    ensures
        r == (f.packed_streams@.len() >= 1 && f.packed_streams@[0] < f.coders@.len() && forall|
            j: int,
        |
            0 <= j < f.bind_pairs@.len() ==> (#[trigger] f.bind_pairs@[j]).in_index
                < f.coders@.len()),
{
    if f.packed_streams.len() == 0 {
        return false;
    }
    if f.packed_streams[0] >= f.coders.len() as u64 {
        return false;
    }
    let n: usize = f.bind_pairs.len();
    for j in 0..n
        invariant
            n == f.bind_pairs@.len(),
            f.packed_streams@.len() >= 1,
            f.packed_streams@[0] < f.coders@.len(),
            forall|q: int|
                0 <= q < j ==> (#[trigger] f.bind_pairs@[q]).in_index < f.coders@.len(),
    {
        if f.bind_pairs[j].in_index >= f.coders.len() as u64 {
            return false;
        }
    }
    true
}

/// Resolves a compressed header: parses its streams info, reads the one
/// folder's packed bytes from the body, and decodes them into the
/// effective metadata stream. On success the streams info parsed from
/// the cursor names exactly one folder, and the result is that folder's
/// first coder run over the `pack_sizes[0]` bytes at `32 + pack_pos`.
pub fn read_encoded_header(buf: &mut Buffer) -> (r: Result<Vec<u8>, ArchiveError>)
    ensures
        final(buf).bytes() == old(buf).bytes(),
        match r {
            Ok(v) => (streams_info_at(old(buf).bytes(), old(buf).pos() as int) matches Ok(
                (gsi, _),
            ) && {
                let folder = gsi.folders[0];
                let coder = folder.coders[folder.packed_streams[0] as int];
                let off = 32 + gsi.pack.pack_pos as int;
                let payload = old(buf).bytes().subrange(off, off + gsi.pack.pack_sizes[0] as int);
                &&& gsi.folders.len() == 1
                &&& gsi.pack.pack_sizes.len() >= 1
                &&& ((crate::decode::is_lzma2_id(coder.id) && crate::decode::lzma2_decoded(payload)
                    == Some(v@)) || (crate::decode::is_lzma_id(coder.id)
                    && crate::decode::lzma_decoded(coder.props + payload, g_unpack_size(folder))
                    == Some(v@)))
                &&& v@.len() == g_unpack_size(folder)
            }),
            Err(e) => match streams_info_at(old(buf).bytes(), old(buf).pos() as int) {
                Err(k) => e.kind == k,
                Ok((gsi, _)) => {
                    let folder = gsi.folders[0];
                    let coder = folder.coders[folder.packed_streams[0] as int];
                    let off = 32 + gsi.pack.pack_pos as int;
                    let payload = old(buf).bytes().subrange(
                        off,
                        off + gsi.pack.pack_sizes[0] as int,
                    );
                    ||| gsi.folders.len() != 1 && e.kind == ErrorKind::MissingStreamsInfo
                    ||| 32 + gsi.pack.pack_pos > usize::MAX && e.kind == ErrorKind::Truncated
                    ||| !g_coder_indices_ok(folder) && e.kind == ErrorKind::InvalidFolderTopology
                    ||| gsi.pack.pack_sizes.len() == 0 && e.kind == ErrorKind::MissingStreamsInfo
                    ||| gsi.pack.pack_sizes.len() >= 1 && gsi.pack.pack_sizes[0] > usize::MAX
                        && e.kind == ErrorKind::Truncated
                    ||| gsi.pack.pack_sizes.len() >= 1 && off + gsi.pack.pack_sizes[0] > old(
                        buf,
                    ).bytes().len() && e.kind == ErrorKind::Truncated
                    ||| (!(crate::decode::is_lzma2_id(coder.id) && (crate::decode::lzma2_decoded(
                        payload,
                    ) matches Some(w) && w.len() == g_unpack_size(folder))) && !(
                    crate::decode::is_lzma_id(coder.id) && crate::decode::lzma_decoded(
                        coder.props + payload,
                        g_unpack_size(folder),
                    ) is Some)) && (e.kind matches ErrorKind::CodecFailure(_) || e.kind matches ErrorKind::UnsupportedCodec(_))
                },
            },
        },
{
    let ghost s = old(buf).bytes();
    let ghost p0 = old(buf).pos() as int;
    let info = read_streams_info(buf)?;
    if info.folders.len() != 1 {
        return Err(
            ArchiveError::with_message(
                ErrorKind::MissingStreamsInfo,
                "Encoded header needs exactly one folder",
            ),
        );
    }
    let folder = &info.folders[0];

    let folder_offset = match 32u64.checked_add(info.pack_info.pack_pos) {
        Some(v) => v,
        None => {
            return Err(ArchiveError::new(ErrorKind::Truncated));
        },
    };
    let offset = to_usize(folder_offset)?;

    let unpack_size = folder.get_unpack_size();

    if !coder_indices_ok(folder) {
        proof {
            assert(!g_coder_indices_ok(folder_view(info.folders@[0])));
        }
        return Err(
            ArchiveError::with_message(
                ErrorKind::InvalidFolderTopology,
                "Coder index out of range",
            ),
        );
    }
    let coders = folder.get_ordered_coders();
    let coder = coders[0];

    if info.pack_info.pack_sizes.len() == 0 {
        return Err(
            ArchiveError::with_message(
                ErrorKind::MissingStreamsInfo,
                "Missing pack sizes for the encoded header",
            ),
        );
    }
    let pack_size = to_usize(info.pack_info.pack_sizes[0])?;

    buf.seek(offset);
    proof {
        let gsi = streams_info_view(info);
        let gfolder = gsi.folders[0];
        assert(gfolder == folder_view(info.folders@[0]));
        assert(gfolder.coders[gfolder.packed_streams[0] as int] == coder_view(
            info.folders@[0].coders@[info.folders@[0].packed_streams@[0] as int],
        ));
        lemma_g_unpack_size_rec(
            info.folders@[0],
            info.folders@[0].total_output_streams as int - 1,
        );
        assert(g_unpack_size(gfolder) == unpack_size);
        assert(g_coder_indices_ok(gfolder));
    }
    let out = buf.read_multi(pack_size)?;
    proof {
        let gsi = streams_info_view(info);
        assert(out@ == s.subrange(
            32 + gsi.pack.pack_pos as int,
            32 + gsi.pack.pack_pos as int + gsi.pack.pack_sizes[0] as int,
        ));
    }
    let decoded = decode::decode(
        &coder.coder_options.decompression_method_id,
        &out,
        &coder.coder_options.properties,
        unpack_size,
    )?;
    Ok(decoded)
}

} // verus!
