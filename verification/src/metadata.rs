//! The validated description of one torrent: its content files, piece
//! length, piece hashes and identity hash, with the derived piece and block
//! accessors.  Decoding the bencoded descriptor is the caller's business;
//! the library receives the plain record.

use crate::BLOCK_LEN;
use vstd::arithmetic::mul::lemma_mul_inequality;
use vstd::prelude::*;

verus! {

/// One content file: its byte length and its path segments.
#[derive(Clone)]
pub struct FilePathInfo {
    pub length: u32,
    pub path: Vec<String>,
}

/// The `info` record of a descriptor: the declared file set, content name,
/// piece length, and the concatenated 20-byte piece hashes.
#[derive(Clone)]
pub struct FileInfo {
    pub files: Vec<FilePathInfo>,
    pub name: String,
    pub piece_length: u32,
    pub pieces: Vec<u8>,
    pub private: Option<u32>,
}

/// A validated torrent description.
#[derive(Clone)]
pub struct Metadata {
    pub announce: Option<String>,
    pub announce_list: Vec<Vec<String>>,
    pub info: FileInfo,
    pub info_hash: Vec<u8>,
}

/// Sum of the declared lengths of a file sequence.
pub open spec fn spec_files_total(files: Seq<FilePathInfo>) -> int
    decreases files.len(),
{
    if files.len() == 0 {
        0
    } else {
        spec_files_total(files.drop_last()) + files.last().length
    }
}

/// Byte offset of file `f` within the concatenation of the declared files.
pub open spec fn spec_file_base(files: Seq<FilePathInfo>, f: int) -> int
    recommends
        0 <= f <= files.len(),
{
    spec_files_total(files.take(f))
}

/// Extending a prefix by one file adds that file's length to the sum.
pub proof fn lemma_files_total_take_succ(files: Seq<FilePathInfo>, i: int)
    requires
        0 <= i < files.len(),
    ensures
        spec_files_total(files.take(i + 1)) == spec_files_total(files.take(i))
            + files[i].length,
{
    assert(files.take(i + 1).drop_last() =~= files.take(i));
    assert(files.take(i + 1).last() == files[i]);
}

/// The sum of declared lengths is never negative.
pub proof fn lemma_files_total_nonneg(files: Seq<FilePathInfo>)
    ensures
        spec_files_total(files) >= 0,
    decreases files.len(),
{
    if files.len() > 0 {
        lemma_files_total_nonneg(files.drop_last());
    }
}

/// A prefix of the files never sums to more than the whole.
pub proof fn lemma_files_total_prefix_le(files: Seq<FilePathInfo>, i: int)
    requires
        0 <= i <= files.len(),
    ensures
        spec_files_total(files.take(i)) <= spec_files_total(files),
    decreases files.len() - i,
{
    if i == files.len() {
        assert(files.take(i) =~= files);
    } else {
        lemma_files_total_take_succ(files, i);
        lemma_files_total_prefix_le(files, i + 1);
    }
}

impl Metadata {
    /// Number of pieces: one for each 20-byte hash.
    pub open spec fn spec_num_pieces(self) -> int {
        self.info.pieces@.len() as int / 20
    }

    /// Number of blocks in a full piece.
    pub open spec fn spec_num_blocks(self) -> int {
        self.info.piece_length as int / BLOCK_LEN as int
    }

    /// Total content length: the sum of the declared file lengths.
    pub open spec fn spec_total_len(self) -> int {
        spec_files_total(self.info.files@)
    }

    /// Well-formedness of a description: a block-aligned piece length, whole
    /// 20-byte hashes, a 20-byte identity hash, at least one non-empty file,
    /// a total length that fits the machine and lies within the declared
    /// pieces, and a non-empty terminal block.
    pub open spec fn wf(self) -> bool {
        &&& self.info.piece_length >= BLOCK_LEN
        &&& self.info.piece_length % BLOCK_LEN == 0
        &&& self.info.pieces@.len() % 20 == 0
        &&& self.info_hash@.len() == 20
        &&& self.info.files@.len() >= 1
        &&& (forall|i: int|
            0 <= i < self.info.files@.len() ==> #[trigger] self.info.files@[i].length >= 1)
        &&& self.spec_num_pieces() >= 1
        &&& self.spec_total_len() <= u32::MAX
        &&& (self.spec_num_pieces() - 1) * self.info.piece_length < self.spec_total_len()
        &&& self.spec_total_len() <= self.spec_num_pieces() * self.info.piece_length
        &&& (self.spec_num_pieces() - 1) * self.info.piece_length + (self.spec_num_blocks() - 1)
            * BLOCK_LEN < self.spec_total_len()
    }

    /// Number of pieces of the content.
    pub fn num_pieces(&self) -> (r: usize)
        ensures
            r == self.spec_num_pieces(),
    {
        self.info.pieces.len() / 20
    }

    /// Number of blocks in a full piece.
    pub fn num_blocks(&self) -> (r: u32)
        ensures
            r == self.spec_num_blocks(),
            self.wf() ==> r >= 1,
    {
        self.info.piece_length / BLOCK_LEN
    }

    /// Total content length in bytes.
    pub fn total_length(&self) -> (r: u64)
        requires
            self.wf(),
        ensures
            r == self.spec_total_len(),
    {
        let files = &self.info.files;
        let mut acc: u64 = 0;
        let mut i: usize = 0;
        proof {
            assert(files@.take(0) =~= Seq::<FilePathInfo>::empty());
        }
        while i < files.len()
            invariant
                i <= files@.len(),
                self.wf(),
                files@ == self.info.files@,
                acc == spec_files_total(files@.take(i as int)),
                acc <= u32::MAX,
            decreases files@.len() - i,
        {
            proof {
                lemma_files_total_take_succ(files@, i as int);
                lemma_files_total_prefix_le(files@, i + 1);
            }
            acc = acc + files[i].length as u64;
            i = i + 1;
        }
        proof {
            assert(files@.take(files@.len() as int) =~= files@);
        }
        acc
    }

    /// Length of the block starting at `block_index` within the declared
    /// piece length.
    pub open spec fn spec_block_len(self, index: int, block_index: int) -> int {
        if index + 1 < self.spec_num_pieces() || block_index + 1 < self.spec_num_blocks() {
            BLOCK_LEN as int
        } else {
            self.spec_total_len() - (index * self.info.piece_length + (self.spec_num_blocks() - 1)
                * BLOCK_LEN)
        }
    }

    /// Length of one block: the fixed block length except for the terminal
    /// block of the terminal piece, which holds whatever of the total length
    /// remains.
    pub fn block_len(&self, index: u32, block_index: u32) -> (r: u32)
        requires
            self.wf(),
            index < self.spec_num_pieces(),
            block_index < self.spec_num_blocks(),
        ensures
            r == self.spec_block_len(index as int, block_index as int),
            1 <= r <= BLOCK_LEN,
    {
        let np = self.num_pieces();
        let nb = self.num_blocks();
        if (index as usize) + 1 < np || block_index + 1 < nb {
            BLOCK_LEN
        } else {
            let total = self.total_length();
            proof {
                lemma_mul_inequality(
                    index as int,
                    self.spec_num_pieces() - 1,
                    self.info.piece_length as int,
                );
                lemma_mul_inequality(
                    block_index as int,
                    self.spec_num_blocks() - 1,
                    BLOCK_LEN as int,
                );
            }
            let block_size: u64 = (index as u64) * (self.info.piece_length as u64) + (nb as u64 - 1)
                * (BLOCK_LEN as u64);
            proof {
                let gnp = self.spec_num_pieces();
                let gpl = self.info.piece_length as int;
                let gnb = self.spec_num_blocks();
                assert(gpl == gnb * BLOCK_LEN);
                assert(gnp * gpl == (gnp - 1) * gpl + gpl) by (nonlinear_arith);
            }
            (total - block_size) as u32
        }
    }
}

} // verus!
