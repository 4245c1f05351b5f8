//! The piece-to-file write layout.
//!
//! A piece write names a byte range of the concatenated content; this module
//! computes which declared file each slice of the data lands in and at what
//! offset, and maintains the packed sidecar bitfield of completed pieces.
//! The caller performs the seeks and writes the spans describe.

use crate::bitfield::{set_packed_bit, spec_packed_bit, unpack_bits};
use crate::metadata::{
    lemma_files_total_prefix_le, lemma_files_total_take_succ, spec_file_base, spec_files_total,
    FilePathInfo, Metadata,
};
use vstd::arithmetic::mul::lemma_mul_inequality;
use vstd::prelude::*;

verus! {

/// One contiguous slice of a piece write: bytes `data_start..data_end` of the
/// data land in file `file_index` starting at byte `file_offset`.
pub struct FileSpan {
    pub file_index: usize,
    pub file_offset: u64,
    pub data_start: usize,
    pub data_end: usize,
}

/// The span lands inside its file, at the offset the flat layout assigns:
/// global position `gs + data_start` is byte `file_offset` of the file.
pub open spec fn span_placed(files: Seq<FilePathInfo>, gs: int, s: FileSpan) -> bool {
    &&& s.file_index < files.len()
    &&& spec_file_base(files, s.file_index as int) <= gs + s.data_start
    &&& s.file_offset == gs + s.data_start - spec_file_base(files, s.file_index as int)
    &&& gs + s.data_end <= spec_file_base(files, s.file_index as int) + files[
        s.file_index as int
    ].length
}

/// The spans partition `[0, data_len)` in order, each slice non-empty and
/// placed where the flat layout puts it.
pub open spec fn spans_ok(
    files: Seq<FilePathInfo>,
    gs: int,
    data_len: int,
    spans: Seq<FileSpan>,
) -> bool {
    &&& spans.len() >= 1
    &&& spans[0].data_start == 0
    &&& spans.last().data_end == data_len
    &&& (forall|k: int| 0 <= k < spans.len() ==> (#[trigger] spans[k]).data_start < spans[k].data_end)
    &&& (forall|k: int|
        0 <= k < spans.len() - 1 ==> (#[trigger] spans[k]).data_end == spans[k + 1].data_start)
    &&& (forall|k: int| 0 <= k < spans.len() ==> span_placed(files, gs, #[trigger] spans[k]))
}

/// Number of bytes of the packed sidecar bitfield for a piece count.
pub fn sidecar_len(num_pieces: usize) -> (r: usize)
    requires
        num_pieces <= usize::MAX - 7,
    ensures
        r == (num_pieces + 7) / 8,
{
    (num_pieces + 7) / 8
}

/// Computes the file spans of the piece write starting at byte
/// `index * piece_length + begin` of the flat content, `data_len` bytes long.
pub fn write_spans(md: &Metadata, index: u32, begin: u32, data_len: usize) -> (r: Vec<FileSpan>)
    requires
        md.wf(),
        index < md.spec_num_pieces(),
        data_len >= 1,
        index * md.info.piece_length + begin + data_len <= md.spec_total_len(),
    ensures
        spans_ok(
            md.info.files@,
            index * md.info.piece_length + begin,
            data_len as int,
            r@,
        ),
{
    let files = &md.info.files;
    proof {
        lemma_mul_inequality(index as int, md.spec_num_pieces(), md.info.piece_length as int);
    }
    let gs: u64 = (index as u64) * (md.info.piece_length as u64) + (begin as u64);
    let ge: u64 = gs + (data_len as u64);
    let ghost ggs: int = (index as int) * (md.info.piece_length as int) + (begin as int);
    assert(gs == ggs);
    let mut spans: Vec<FileSpan> = Vec::new();
    let mut cursor: u64 = 0;
    let mut i: usize = 0;
    proof {
        assert(files@.take(0) =~= Seq::<FilePathInfo>::empty());
    }
    let ghost total = md.spec_total_len();
    while i < files.len()
        invariant
            i <= files@.len(),
            md.wf(),
            files@ == md.info.files@,
            total == md.spec_total_len(),
            ge <= total <= u32::MAX,
            gs == ggs,
            ggs == index * md.info.piece_length + begin,
            ge == gs + data_len,
            gs < ge,
            cursor == spec_file_base(files@, i as int),
            cursor <= total,
            cursor < ge,
            // what the spans cover so far: [gs, covered)
            ({
                let covered = if cursor <= gs {
                    gs as int
                } else {
                    cursor as int
                };
                &&& (spans@.len() == 0 <==> covered == gs)
                &&& (spans@.len() > 0 ==> spans@[0].data_start == 0 && spans@.last().data_end
                    == covered - gs)
            }),
            forall|k: int|
                0 <= k < spans@.len() ==> (#[trigger] spans@[k]).data_start < spans@[k].data_end,
            forall|k: int|
                0 <= k < spans@.len() - 1 ==> (#[trigger] spans@[k]).data_end == spans@[k
                    + 1].data_start,
            forall|k: int| 0 <= k < spans@.len() ==> span_placed(files@, ggs, #[trigger] spans@[k]),
        decreases files@.len() - i,
    {
        let file_len = files[i].length as u64;
        proof {
            lemma_files_total_take_succ(files@, i as int);
            lemma_files_total_prefix_le(files@, i + 1);
        }
        if cursor + file_len > gs {
            let ds: u64 = if cursor > gs {
                cursor - gs
            } else {
                0
            };
            let de: u64 = if cursor + file_len < ge {
                cursor + file_len - gs
            } else {
                ge - gs
            };
            let off: u64 = if cursor < gs {
                gs - cursor
            } else {
                0
            };
            spans.push(
                (FileSpan {
                    file_index: i,
                    file_offset: off,
                    data_start: ds as usize,
                    data_end: de as usize,
                }),
            );
            proof {
                let s = spans@.last();
                assert(span_placed(files@, ggs, s));
                assert(forall|k: int|
                    0 <= k < spans@.len() - 1 ==> spans@[k] == #[trigger] spans@.drop_last()[k]);
            }
        }
        cursor = cursor + file_len;
        i = i + 1;
        if cursor >= ge {
            proof {
                assert(spans@.last().data_end == data_len);
            }
            return spans;
        }
    }
    proof {
        assert(files@.take(files@.len() as int) =~= files@);
        // the loop cannot run off the end: the content covers the write
        assert(cursor == total);
        assert(false);
    }
    spans
}

/// Marks one piece complete in the packed sidecar bitfield, leaving every
/// other piece bit unchanged.
pub fn mark_piece_complete(sidecar: &mut Vec<u8>, piece_index: usize)
    requires
        piece_index < 8 * old(sidecar)@.len(),
    ensures
        final(sidecar)@.len() == old(sidecar)@.len(),
        spec_packed_bit(final(sidecar)@, piece_index as int),
        forall|i: int|
            0 <= i < 8 * old(sidecar)@.len() && i != piece_index ==> spec_packed_bit(
                final(sidecar)@,
                i,
            ) == spec_packed_bit(old(sidecar)@, i),
{
    set_packed_bit(sidecar, piece_index);
}

/// Reads the client bitfield back from the packed sidecar, truncated to the
/// piece count.
pub fn load_bitfield(sidecar: &Vec<u8>, num_pieces: usize) -> (r: Vec<bool>)
    requires
        num_pieces <= 8 * sidecar@.len(),
    ensures
        r@.len() == num_pieces,
        forall|i: int| 0 <= i < num_pieces ==> r@[i] == spec_packed_bit(sidecar@, i),
{
    unpack_bits(sidecar, num_pieces)
}

/// The per-file contents match the declared file lengths.
pub open spec fn wf_contents(files: Seq<FilePathInfo>, contents: Seq<Seq<u8>>) -> bool {
    &&& contents.len() == files.len()
    &&& (forall|f: int|
        0 <= f < files.len() ==> (#[trigger] contents[f]).len() == files[f].length)
}

/// The concatenation of the per-file contents in declaration order.
pub open spec fn spec_concat(contents: Seq<Seq<u8>>) -> Seq<u8>
    decreases contents.len(),
{
    if contents.len() == 0 {
        Seq::empty()
    } else {
        spec_concat(contents.drop_last()) + contents.last()
    }
}

/// A sequence with the byte range starting at `pos` replaced by `bytes`.
pub open spec fn spec_overlay(s: Seq<u8>, pos: int, bytes: Seq<u8>) -> Seq<u8>
    recommends
        0 <= pos,
        pos + bytes.len() <= s.len(),
{
    s.take(pos) + bytes + s.skip(pos + bytes.len())
}

/// A file with the byte range starting at `off` replaced by `bytes`.
pub open spec fn spec_write_at(file: Seq<u8>, off: int, bytes: Seq<u8>) -> Seq<u8> {
    spec_overlay(file, off, bytes)
}

/// The file contents after one span's slice of the data is written.
pub open spec fn spec_apply_span(
    contents: Seq<Seq<u8>>,
    s: FileSpan,
    data: Seq<u8>,
) -> Seq<Seq<u8>> {
    contents.update(
        s.file_index as int,
        spec_write_at(
            contents[s.file_index as int],
            s.file_offset as int,
            data.subrange(s.data_start as int, s.data_end as int),
        ),
    )
}

/// The file contents after every span of a write is applied, front to back.
pub open spec fn spec_apply_spans(
    contents: Seq<Seq<u8>>,
    spans: Seq<FileSpan>,
    data: Seq<u8>,
) -> Seq<Seq<u8>>
    decreases spans.len(),
{
    if spans.len() == 0 {
        contents
    } else {
        spec_apply_spans(spec_apply_span(contents, spans[0], data), spans.skip(1), data)
    }
}

/// The concatenation is as long as the declared total.
pub proof fn lemma_concat_len(files: Seq<FilePathInfo>, contents: Seq<Seq<u8>>)
    requires
        wf_contents(files, contents),
    ensures
        spec_concat(contents).len() == spec_files_total(files),
    decreases files.len(),
{
    if files.len() > 0 {
        assert(wf_contents(files.drop_last(), contents.drop_last()));
        lemma_concat_len(files.drop_last(), contents.drop_last());
    }
}

/// Byte `p` of file `f` is byte `file_base(f) + p` of the concatenation.
pub proof fn lemma_concat_index(
    files: Seq<FilePathInfo>,
    contents: Seq<Seq<u8>>,
    f: int,
    p: int,
)
    requires
        wf_contents(files, contents),
        0 <= f < files.len(),
        0 <= p < files[f].length,
    ensures
        0 <= spec_file_base(files, f) + p < spec_concat(contents).len(),
        spec_concat(contents)[spec_file_base(files, f) + p] == contents[f][p],
    decreases files.len(),
{
    lemma_concat_len(files, contents);
    crate::metadata::lemma_files_total_nonneg(files.take(f));
    lemma_files_total_prefix_le(files, f);
    lemma_files_total_take_succ(files, f);
    if f == files.len() - 1 {
        assert(files.take(f) =~= files.drop_last());
        assert(wf_contents(files.drop_last(), contents.drop_last()));
        lemma_concat_len(files.drop_last(), contents.drop_last());
        assert(spec_concat(contents) == spec_concat(contents.drop_last()) + contents.last());
    } else {
        assert(wf_contents(files.drop_last(), contents.drop_last()));
        assert(files.drop_last().take(f) =~= files.take(f));
        lemma_concat_index(files.drop_last(), contents.drop_last(), f, p);
        lemma_concat_len(files.drop_last(), contents.drop_last());
        crate::metadata::lemma_files_total_prefix_le(files.drop_last(), f);
        lemma_files_total_take_succ(files.drop_last(), f);
        assert(spec_concat(contents) == spec_concat(contents.drop_last()) + contents.last());
        assert(spec_file_base(files.drop_last(), f) == spec_file_base(files, f));
        assert(spec_file_base(files, f) + p < spec_files_total(files.drop_last()));
    }
}

/// Writing one placed span into its file overlays the matching byte range of
/// the concatenation.
proof fn lemma_concat_apply_span(
    files: Seq<FilePathInfo>,
    contents: Seq<Seq<u8>>,
    gs: int,
    s: FileSpan,
    data: Seq<u8>,
)
    requires
        wf_contents(files, contents),
        span_placed(files, gs, s),
        gs >= 0,
        s.data_start < s.data_end,
        s.data_end <= data.len(),
    ensures
        wf_contents(files, spec_apply_span(contents, s, data)),
        spec_concat(spec_apply_span(contents, s, data)) == spec_overlay(
            spec_concat(contents),
            gs + s.data_start,
            data.subrange(s.data_start as int, s.data_end as int),
        ),
{
    let f = s.file_index as int;
    let off = s.file_offset as int;
    let slice = data.subrange(s.data_start as int, s.data_end as int);
    let new_contents = spec_apply_span(contents, s, data);
    let base = spec_file_base(files, f);
    crate::metadata::lemma_files_total_nonneg(files.take(f));
    lemma_files_total_take_succ(files, f);
    lemma_files_total_prefix_le(files, f + 1);
    assert(new_contents[f] =~= spec_write_at(contents[f], off, slice));
    assert(new_contents[f].len() == files[f].length) by {
        assert(contents[f].len() == files[f].length);
        assert(off + slice.len() <= contents[f].len());
    }
    assert(wf_contents(files, new_contents));
    lemma_concat_len(files, contents);
    lemma_concat_len(files, new_contents);
    let lhs = spec_concat(new_contents);
    let rhs = spec_overlay(spec_concat(contents), gs + s.data_start, slice);
    assert forall|g: int| 0 <= g < lhs.len() implies lhs[g] == rhs[g] by {
        lemma_concat_decompose(files, contents, g);
        lemma_concat_decompose(files, new_contents, g);
        let gf = choose|gf: int|
            0 <= gf < files.len() && #[trigger] spec_file_base(files, gf) <= g < spec_file_base(
                files,
                gf,
            ) + files[gf].length;
        lemma_concat_index(files, contents, gf, g - spec_file_base(files, gf));
        lemma_concat_index(files, new_contents, gf, g - spec_file_base(files, gf));
        if gf == f {
            assert(new_contents[f][g - base] == spec_write_at(contents[f], off, slice)[g - base]);
        } else {
            assert(new_contents[gf] == contents[gf]);
            lemma_file_ranges_disjoint(files, f, gf, g);
        }
    };
    assert(lhs =~= rhs);
}

/// Every position of the concatenation lies in exactly one file's range.
proof fn lemma_concat_decompose(files: Seq<FilePathInfo>, contents: Seq<Seq<u8>>, g: int)
    requires
        wf_contents(files, contents),
        0 <= g < spec_concat(contents).len(),
    ensures
        exists|f: int|
            0 <= f < files.len() && #[trigger] spec_file_base(files, f) <= g < spec_file_base(
                files,
                f,
            ) + files[f].length,
    decreases files.len(),
{
    lemma_concat_len(files, contents);
    if files.len() > 0 {
        let last = files.len() - 1;
        assert(files.take(last) =~= files.drop_last());
        lemma_files_total_take_succ(files, last);
        assert(files.take(files.len() as int) =~= files);
        if g >= spec_file_base(files, last) {
            assert(spec_file_base(files, last) <= g < spec_file_base(files, last)
                + files[last].length);
        } else {
            assert(wf_contents(files.drop_last(), contents.drop_last()));
            lemma_concat_len(files.drop_last(), contents.drop_last());
            lemma_concat_decompose(files.drop_last(), contents.drop_last(), g);
            let f = choose|f: int|
                0 <= f < files.drop_last().len() && #[trigger] spec_file_base(
                    files.drop_last(),
                    f,
                ) <= g < spec_file_base(files.drop_last(), f) + files.drop_last()[f].length;
            assert(files.drop_last().take(f) =~= files.take(f));
            assert(spec_file_base(files, f) <= g < spec_file_base(files, f) + files[f].length);
        }
    }
}

/// A position inside one file's range is outside every other file's range.
proof fn lemma_file_ranges_disjoint(files: Seq<FilePathInfo>, f: int, gf: int, g: int)
    requires
        0 <= f < files.len(),
        0 <= gf < files.len(),
        f != gf,
        spec_file_base(files, gf) <= g < spec_file_base(files, gf) + files[gf].length,
    ensures
        !(spec_file_base(files, f) <= g < spec_file_base(files, f) + files[f].length),
{
    if f < gf {
        lemma_files_total_take_succ(files, f);
        lemma_base_monotone(files, f + 1, gf);
    } else {
        lemma_files_total_take_succ(files, gf);
        lemma_base_monotone(files, gf + 1, f);
    }
}

/// File bases never decrease along the declaration order.
proof fn lemma_base_monotone(files: Seq<FilePathInfo>, a: int, b: int)
    requires
        0 <= a <= b <= files.len(),
    ensures
        spec_file_base(files, a) <= spec_file_base(files, b),
    decreases b - a,
{
    if a < b {
        lemma_files_total_take_succ(files, a);
        lemma_base_monotone(files, a + 1, b);
    }
}

/// Overlaying two adjacent ranges is the same as overlaying their
/// concatenation.
proof fn lemma_overlay_chain(s: Seq<u8>, pos: int, a: Seq<u8>, b: Seq<u8>)
    requires
        0 <= pos,
        pos + a.len() + b.len() <= s.len(),
    ensures
        spec_overlay(spec_overlay(s, pos, a), pos + a.len(), b) == spec_overlay(s, pos, a + b),
{
    assert(spec_overlay(spec_overlay(s, pos, a), pos + a.len(), b) =~= spec_overlay(
        s,
        pos,
        a + b,
    ));
}

/// Write coverage: applying the spans of a piece write to the file contents
/// replaces exactly the byte range `[gs, gs + data.len())` of the
/// concatenated content with `data`, and touches nothing else.
#[verifier::rlimit(100)]
pub proof fn lemma_write_coverage(
    files: Seq<FilePathInfo>,
    contents: Seq<Seq<u8>>,
    spans: Seq<FileSpan>,
    data: Seq<u8>,
    gs: int,
)
    requires
        wf_contents(files, contents),
        spans_ok(files, gs, data.len() as int, spans),
        gs >= 0,
        data.len() >= 1,
        gs + data.len() <= spec_files_total(files),
    ensures
        wf_contents(files, spec_apply_spans(contents, spans, data)),
        spec_concat(spec_apply_spans(contents, spans, data)) == spec_overlay(
            spec_concat(contents),
            gs,
            data,
        ),
{
    assert(data.subrange(0, data.len() as int) =~= data);
    assert forall|k: int| 0 <= k < spans.len() implies (#[trigger] spans[k]).data_end
        <= data.len() by {
        lemma_span_ends_monotone(spans, k, spans.len() - 1);
    };
    lemma_write_coverage_from(files, contents, spans, data, gs, 0);
}

/// Span data ranges advance along the span list.
proof fn lemma_span_ends_monotone(spans: Seq<FileSpan>, k: int, l: int)
    requires
        0 <= k <= l < spans.len(),
        forall|j: int| 0 <= j < spans.len() ==> (#[trigger] spans[j]).data_start < spans[j].data_end,
        forall|j: int|
            0 <= j < spans.len() - 1 ==> (#[trigger] spans[j]).data_end == spans[j + 1].data_start,
    ensures
        spans[k].data_end <= spans[l].data_end,
    decreases l - k,
{
    if k < l {
        lemma_span_ends_monotone(spans, k + 1, l);
    }
}

/// Generalisation of the coverage law over a suffix of the spans, which
/// starts at data offset `d0`.
proof fn lemma_write_coverage_from(
    files: Seq<FilePathInfo>,
    contents: Seq<Seq<u8>>,
    spans: Seq<FileSpan>,
    data: Seq<u8>,
    gs: int,
    d0: int,
)
    requires
        wf_contents(files, contents),
        0 <= d0 <= data.len(),
        gs >= 0,
        gs + data.len() <= spec_files_total(files),
        spans.len() >= 1 ==> spans[0].data_start == d0,
        spans.len() == 0 ==> d0 == data.len(),
        spans.len() >= 1 ==> spans.last().data_end == data.len(),
        forall|k: int| 0 <= k < spans.len() ==> (#[trigger] spans[k]).data_start < spans[k].data_end,
        forall|k: int|
            0 <= k < spans.len() - 1 ==> (#[trigger] spans[k]).data_end == spans[k + 1].data_start,
        forall|k: int| 0 <= k < spans.len() ==> span_placed(files, gs, #[trigger] spans[k]),
        forall|k: int| 0 <= k < spans.len() ==> (#[trigger] spans[k]).data_end <= data.len(),
    ensures
        wf_contents(files, spec_apply_spans(contents, spans, data)),
        spec_concat(spec_apply_spans(contents, spans, data)) == spec_overlay(
            spec_concat(contents),
            gs + d0,
            data.subrange(d0, data.len() as int),
        ),
    decreases spans.len(),
{
    lemma_concat_len(files, contents);
    if spans.len() == 0 {
        assert(data.subrange(d0, data.len() as int) =~= Seq::<u8>::empty());
        assert(spec_overlay(spec_concat(contents), gs + d0, Seq::<u8>::empty()) =~= spec_concat(
            contents,
        ));
    } else {
        let s0 = spans[0];
        let rest = spans.skip(1);
        let slice = data.subrange(s0.data_start as int, s0.data_end as int);
        let c1 = spec_apply_span(contents, s0, data);
        lemma_concat_apply_span(files, contents, gs, s0, data);
        assert(forall|k: int| 0 <= k < rest.len() ==> rest[k] == #[trigger] spans[k + 1]);
        if rest.len() >= 1 {
            assert(rest[0].data_start == s0.data_end);
            assert(rest.last() == spans.last());
        }
        lemma_write_coverage_from(files, c1, rest, data, gs, s0.data_end as int);
        lemma_overlay_chain(
            spec_concat(contents),
            gs + d0,
            slice,
            data.subrange(s0.data_end as int, data.len() as int),
        );
        assert(slice + data.subrange(s0.data_end as int, data.len() as int) =~= data.subrange(
            d0,
            data.len() as int,
        ));
        assert(spec_apply_spans(contents, spans, data) == spec_apply_spans(c1, rest, data));
    }
}

/// Bitfield persistence: after a completed write marks piece `i` in the
/// sidecar, the loaded bitfield has bit `i` set.  The premises are exactly
/// what `mark_piece_complete` and `load_bitfield` ensure.
pub proof fn lemma_bitfield_persistence(sidecar: Seq<u8>, bits: Seq<bool>, i: int, num_pieces: int)
    requires
        0 <= i < num_pieces,
        num_pieces <= 8 * sidecar.len(),
        spec_packed_bit(sidecar, i),
        bits.len() == num_pieces,
        forall|j: int| 0 <= j < num_pieces ==> bits[j] == spec_packed_bit(sidecar, j),
    ensures
        bits[i],
{
}

} // verus!
