//! The header at the start of every page.

use vstd::prelude::*;
use crate::codec::{
    enc_str, enc_u16, enc_u32, enc_u64, lemma_enc_parse_str, lemma_enc_parse_u16,
    lemma_enc_parse_u32, lemma_enc_parse_u64, lemma_parse_enc_str, lemma_parse_enc_u16,
    lemma_parse_enc_u32, lemma_parse_enc_u64, parse_str, parse_u16, parse_u32, parse_u64, put_str,
    put_u16, put_u32, put_u64, str_fits, take_str, take_u16, take_u32, take_u64,
};
use crate::error::Error;
use crate::keys::{key_le, key_order, KeyOrder};

verus! {

/// The number that marks a file as a page: the letters `SHDB`.
pub const PAGE_MAGIC: u32 = 0x53484442;

/// The version of the page format.
pub const PAGE_VERSION: u16 = 1;

/// The checksum that `crc32fast::hash` gives a byte string: its CRC-32
/// (IEEE). Nothing is stated of it but that it depends on the bytes alone.
pub uninterp spec fn crc32(bytes: Seq<u8>) -> u32;

/// A header as a mathematical value.
pub struct HeaderModel {
    pub magic: u32,
    pub version: u16,
    pub checksum: u32,
    pub min_id: Seq<char>,
    pub max_id: Seq<char>,
    pub num_records: u32,
    pub page_seqno: u64,
}

/// The header of a page.
#[derive(Debug, PartialEq, Eq)]
pub struct PageHeader {
    pub magic: u32,
    pub version: u16,
    pub checksum: u32,
    pub min_id: String,
    pub max_id: String,
    pub num_records: u32,
    pub page_seqno: u64,
}

impl View for PageHeader {
    type V = HeaderModel;

    open spec fn view(&self) -> HeaderModel {
        HeaderModel {
            magic: self.magic,
            version: self.version,
            checksum: self.checksum,
            min_id: self.min_id@,
            max_id: self.max_id@,
            num_records: self.num_records,
            page_seqno: self.page_seqno,
        }
    }
}

impl Clone for PageHeader {
    fn clone(&self) -> (r: Self)
        ensures
            r@ == self@,
    {
        PageHeader {
            magic: self.magic,
            version: self.version,
            checksum: self.checksum,
            min_id: self.min_id.clone(),
            max_id: self.max_id.clone(),
            num_records: self.num_records,
            page_seqno: self.page_seqno,
        }
    }
}

/// What `validate` asks of a header: the magic number, the version, and a
/// smallest id that is not after the largest.
pub open spec fn header_valid(h: HeaderModel) -> bool {
    &&& h.magic == PAGE_MAGIC
    &&& h.version == PAGE_VERSION
    &&& key_le(h.min_id, h.max_id)
}

impl PageHeader {
    /// A header of the current format. The checksum is zero until the
    /// payload is known.
    pub fn new(min_id: String, max_id: String, num_records: u32, page_seqno: u64) -> (h: Self)
        ensures
            h@ == (HeaderModel {
                magic: PAGE_MAGIC,
                version: PAGE_VERSION,
                checksum: 0,
                min_id: min_id@,
                max_id: max_id@,
                num_records,
                page_seqno,
            }),
    {
        PageHeader {
            magic: PAGE_MAGIC,
            version: PAGE_VERSION,
            checksum: 0,
            min_id,
            max_id,
            num_records,
            page_seqno,
        }
    }

    /// The checksum of a payload. The body calls `crc32fast::hash`; that the
    /// result is the checksum named `crc32` of exactly these bytes is not
    /// proved but taken from that crate.
    #[verifier::external_body]
    pub fn compute_checksum(payload: &[u8]) -> (c: u32)
        ensures
            c == crc32(payload@),
    {
        crc32fast::hash(payload)
    }

    /// Checks the magic number, the version and the order of the two ids.
    pub fn validate(&self) -> (r: Result<(), Error>)
        ensures
            r is Ok <==> header_valid(self@),
            r is Err ==> r == Err::<(), Error>(Error::Corrupt),
    {
        if self.magic != PAGE_MAGIC {
            return Err(Error::Corrupt);
        }
        if self.version != PAGE_VERSION {
            return Err(Error::Corrupt);
        }
        if key_order(self.min_id.as_str(), self.max_id.as_str()) == KeyOrder::Greater {
            return Err(Error::Corrupt);
        }
        Ok(())
    }

    /// Checks the header as `validate` does, and the checksum against the
    /// payload.
    pub fn validate_with(&self, payload: &[u8]) -> (r: Result<(), Error>)
        ensures
            r is Ok <==> header_valid(self@) && self@.checksum == crc32(payload@),
            r is Err ==> r == Err::<(), Error>(Error::Corrupt),
    {
        match self.validate() {
            Err(e) => Err(e),
            Ok(()) => {
                if PageHeader::compute_checksum(payload) != self.checksum {
                    Err(Error::Corrupt)
                } else {
                    Ok(())
                }
            },
        }
    }

    /// The bytes of the header.
    pub fn encode(&self) -> (bytes: Vec<u8>)
        ensures
            bytes@ == enc_header(self@),
            header_fits(self@),
    {
        let mut out: Vec<u8> = Vec::new();
        put_header(&mut out, self);
        proof {
            assert(out@ =~= enc_header(self@));
        }
        out
    }
}

// ------------------------------------------------------------ a header, as bytes

/// The two ids are short enough for their lengths to be written.
pub open spec fn header_fits(h: HeaderModel) -> bool {
    str_fits(h.min_id) && str_fits(h.max_id)
}

/// A header is written as its fields in the order of their declaration.
pub open spec fn enc_header(h: HeaderModel) -> Seq<u8> {
    enc_u32(h.magic) + enc_u16(h.version) + enc_u32(h.checksum) + enc_str(h.min_id) + enc_str(
        h.max_id,
    ) + enc_u32(h.num_records) + enc_u64(h.page_seqno)
}

/// Reads a header off the front of a byte string and gives back what follows it.
pub open spec fn parse_header(s: Seq<u8>) -> Option<(HeaderModel, Seq<u8>)> {
    match parse_u32(s) {
        None => None,
        Some((magic, s1)) => match parse_u16(s1) {
            None => None,
            Some((version, s2)) => match parse_u32(s2) {
                None => None,
                Some((checksum, s3)) => match parse_str(s3) {
                    None => None,
                    Some((min_id, s4)) => match parse_str(s4) {
                        None => None,
                        Some((max_id, s5)) => match parse_u32(s5) {
                            None => None,
                            Some((num_records, s6)) => match parse_u64(s6) {
                                None => None,
                                Some((page_seqno, rest)) => Some(
                                    (
                                        HeaderModel {
                                            magic,
                                            version,
                                            checksum,
                                            min_id,
                                            max_id,
                                            num_records,
                                            page_seqno,
                                        },
                                        rest,
                                    ),
                                ),
                            },
                        },
                    },
                },
            },
        },
    }
}

/// Reading the bytes of a header gives the header back, whatever follows.
pub proof fn lemma_parse_enc_header(h: HeaderModel, rest: Seq<u8>)
    requires
        header_fits(h),
    ensures
        parse_header(enc_header(h) + rest) == Some((h, rest)),
{
    let s6 = enc_u64(h.page_seqno) + rest;
    let s5 = enc_u32(h.num_records) + s6;
    let s4 = enc_str(h.max_id) + s5;
    let s3 = enc_str(h.min_id) + s4;
    let s2 = enc_u32(h.checksum) + s3;
    let s1 = enc_u16(h.version) + s2;
    assert(enc_header(h) + rest =~= enc_u32(h.magic) + s1);
    lemma_parse_enc_u32(h.magic, s1);
    lemma_parse_enc_u16(h.version, s2);
    lemma_parse_enc_u32(h.checksum, s3);
    lemma_parse_enc_str(h.min_id, s4);
    lemma_parse_enc_str(h.max_id, s5);
    lemma_parse_enc_u32(h.num_records, s6);
    lemma_parse_enc_u64(h.page_seqno, rest);
}

/// The bytes read as a header are the bytes of that header.
pub proof fn lemma_enc_parse_header(s: Seq<u8>)
    requires
        parse_header(s) is Some,
    ensures
        header_fits((parse_header(s)->0).0),
        s == enc_header((parse_header(s)->0).0) + (parse_header(s)->0).1,
{
    lemma_enc_parse_u32(s);
    let (magic, s1) = parse_u32(s)->0;
    lemma_enc_parse_u16(s1);
    let (version, s2) = parse_u16(s1)->0;
    lemma_enc_parse_u32(s2);
    let (checksum, s3) = parse_u32(s2)->0;
    lemma_enc_parse_str(s3);
    let (min_id, s4) = parse_str(s3)->0;
    lemma_enc_parse_str(s4);
    let (max_id, s5) = parse_str(s4)->0;
    lemma_enc_parse_u32(s5);
    let (num_records, s6) = parse_u32(s5)->0;
    lemma_enc_parse_u64(s6);
    let (page_seqno, rest) = parse_u64(s6)->0;
    let h = HeaderModel { magic, version, checksum, min_id, max_id, num_records, page_seqno };
    assert(s =~= enc_header(h) + rest);
}

/// Appends the bytes of a header.
pub fn put_header(out: &mut Vec<u8>, header: &PageHeader)
    ensures
        final(out)@ == old(out)@ + enc_header(header@),
        header_fits(header@),
{
    put_u32(out, header.magic);
    put_u16(out, header.version);
    put_u32(out, header.checksum);
    put_str(out, header.min_id.as_str());
    put_str(out, header.max_id.as_str());
    put_u32(out, header.num_records);
    put_u64(out, header.page_seqno);
    proof {
        assert(out@ =~= old(out)@ + enc_header(header@));
    }
}

/// Reads a header at `at`.
pub fn take_header(b: &[u8], at: usize) -> (r: Option<(PageHeader, usize)>)
    requires
        at <= b@.len(),
    ensures
        match r {
            Some((h, end)) => at <= end <= b@.len() && parse_header(b@.skip(at as int)) == Some(
                (h@, b@.skip(end as int)),
            ),
            None => parse_header(b@.skip(at as int)) is None,
        },
{
    let (magic, pos1) = match take_u32(b, at) {
        Some(p) => p,
        None => { return None; },
    };
    let (version, pos2) = match take_u16(b, pos1) {
        Some(p) => p,
        None => { return None; },
    };
    let (checksum, pos3) = match take_u32(b, pos2) {
        Some(p) => p,
        None => { return None; },
    };
    let (min_id, pos4) = match take_str(b, pos3) {
        Some(p) => p,
        None => { return None; },
    };
    let (max_id, pos5) = match take_str(b, pos4) {
        Some(p) => p,
        None => { return None; },
    };
    let (num_records, pos6) = match take_u32(b, pos5) {
        Some(p) => p,
        None => { return None; },
    };
    let (page_seqno, end) = match take_u64(b, pos6) {
        Some(p) => p,
        None => { return None; },
    };
    Some((PageHeader { magic, version, checksum, min_id, max_id, num_records, page_seqno }, end))
}

} // verus!
