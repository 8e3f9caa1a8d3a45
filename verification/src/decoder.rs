//! The DEFLATE and zlib decoder.
use vstd::prelude::*;
use vstd::arithmetic::power2::pow2;
use crate::bitstream::BitStreamReader;
use crate::builder::zeroed_table;
use crate::entries::{
    litlen_decode_results, litlen_results, offset_decode_results, offset_results,
    precode_decode_results, precode_results, results_wf,
};
use crate::grammar::{fixed_litlen_lens, fixed_offset_lens};
use crate::table::table_decodes;

verus! {

/// Block type of a stored block.
pub const DEFLATE_BLOCKTYPE_UNCOMPRESSED: u64 = 0;

/// Block type of a block that uses the fixed codes.
pub const DEFLATE_BLOCKTYPE_STATIC: u64 = 1;

/// Block type of a block that transmits its codes.
pub const DEFLATE_BLOCKTYPE_DYNAMIC_HUFFMAN: u64 = 2;

/// The block type that no block may have.
pub const DEFLATE_BLOCKTYPE_RESERVED: u64 = 3;

/// Index width of the primary literal/length table.
pub const LITLEN_TABLE_BITS: usize = 11;

/// Index width of the primary offset table.
pub const OFFSET_TABLEBITS: usize = 8;

/// Index width of the precode table.
pub const PRECODE_TABLE_BITS: usize = 7;

/// The longest codeword of the precode.
pub const DEFLATE_MAX_PRE_CODEWORD_LEN: usize = 7;

/// The size the literal/length table starts with: its primary part and
/// room for the subtables of any code of 288 symbols.
pub const LITLEN_ENOUGH: usize = 2342;

/// The size the offset table starts with.
pub const OFFSET_ENOUGH: usize = 402;

/// The size of the precode table.
pub const PRECODE_ENOUGH: usize = 128;

/// How far a repeat code may write beyond the last codeword length: 138
/// zeroes when a single length was missing.
pub const DEFLATE_MAX_LENS_OVERRUN: usize = 137;

/// The longest input for which every size that the decoder computes fits
/// the machine word: a match of 258 bytes may take as little as two bits.
pub open spec fn max_input_len() -> nat {
    (usize::MAX / 4096) as nat
}

/// The decode tables of the current block and the symbol tables they are
/// built from.
pub struct DeflateHeaderTables {
    pub litlen_decode_table: Vec<u32>,
    pub offset_decode_table: Vec<u32>,
    pub litlen_results: Vec<u32>,
    pub offset_results: Vec<u32>,
    pub precode_results: Vec<u32>,
}

impl DeflateHeaderTables {
    /// The symbol tables are those of RFC 1951 and the decode tables have
    /// their primary parts.
    pub open spec fn wf(&self) -> bool {
        &&& self.litlen_results@ == litlen_results()
        &&& self.offset_results@ == offset_results()
        &&& self.precode_results@ == precode_results()
        &&& results_wf(self.litlen_results@)
        &&& results_wf(self.offset_results@)
        &&& results_wf(self.precode_results@)
        &&& self.litlen_decode_table@.len() >= pow2(LITLEN_TABLE_BITS as nat)
        &&& self.offset_decode_table@.len() >= pow2(OFFSET_TABLEBITS as nat)
    }

    /// The decode tables decode the codes `ll` and `dl`.
    pub open spec fn decodes(&self, ll: Seq<u8>, dl: Seq<u8>) -> bool {
        &&& table_decodes(
            self.litlen_decode_table@,
            litlen_results(),
            ll,
            LITLEN_TABLE_BITS as nat,
        )
        &&& table_decodes(
            self.offset_decode_table@,
            offset_results(),
            dl,
            OFFSET_TABLEBITS as nat,
        )
    }
}

impl Default for DeflateHeaderTables {
    fn default() -> (t: Self)
        ensures
            t.wf(),
            t.litlen_decode_table@ == Seq::new(LITLEN_ENOUGH as nat, |i: int| 0u32),
            t.offset_decode_table@ == Seq::new(OFFSET_ENOUGH as nat, |i: int| 0u32),
    {
        proof {
            vstd::arithmetic::power2::lemma2_to64();
        }
        let t = DeflateHeaderTables {
            litlen_decode_table: zeroed_table(LITLEN_ENOUGH),
            offset_decode_table: zeroed_table(OFFSET_ENOUGH),
            litlen_results: litlen_decode_results(),
            offset_results: offset_decode_results(),
            precode_results: precode_decode_results(),
        };
        proof {
            assert(t.litlen_decode_table@ =~= Seq::new(LITLEN_ENOUGH as nat, |i: int| 0u32));
            assert(t.offset_decode_table@ =~= Seq::new(OFFSET_ENOUGH as nat, |i: int| 0u32));
        }
        t
    }
}

/// A decoder of one DEFLATE or zlib stream held in a borrowed byte slice.
///
/// The decoder owns its tables and its output buffer; it hands the output
/// out as a vector of exactly the decoded bytes.
pub struct DeflateDecoder<'a> {
    /// The whole input.
    pub data: &'a [u8],
    /// Where in the input the DEFLATE stream begins.
    pub position: usize,
    /// Where in the input the DEFLATE stream ends.
    pub end: usize,
    /// The reader over the DEFLATE stream.
    pub stream: BitStreamReader<'a>,
    /// Whether the block that is being decoded is the last one.
    pub is_last_block: bool,
    /// Whether the tables hold the fixed codes.
    pub static_codes_loaded: bool,
    pub deflate_header_tables: DeflateHeaderTables,
}

impl<'a> DeflateDecoder<'a> {
    /// The tables are in order, and where they are marked as holding the
    /// fixed codes they decode them.
    pub open spec fn wf(&self) -> bool {
        &&& self.deflate_header_tables.wf()
        &&& self.static_codes_loaded ==> self.deflate_header_tables.decodes(
            fixed_litlen_lens(),
            fixed_offset_lens(),
        )
    }

    /// A decoder for the stream in `data`.
    pub fn new(data: &'a [u8]) -> (d: DeflateDecoder<'a>)
        ensures
            d.wf(),
            d.data@ == data@,
            d.position == 0,
            !d.is_last_block,
            !d.static_codes_loaded,
    {
        DeflateDecoder {
            data,
            position: 0,
            end: 0,
            stream: BitStreamReader::new(data),
            is_last_block: false,
            static_codes_loaded: false,
            deflate_header_tables: DeflateHeaderTables::default(),
        }
    }
}

} // verus!
