//! The downloader's job model: what to fetch, where to put it, and
//! which checksums the bytes must match.  The transfer itself is the
//! caller's business; `decide_commit` rules on every finished transfer
//! and keeps any mismatched artifact out of the destination.

use crate::checksum::{checksum_matches, Checksum, ChecksumModel, ChecksumValidator};
use vstd::prelude::*;
use vstd::string::StringSliceAdditionalSpecFns;

verus! {

/// How a fetched artifact is wrapped, with the expected checksums: of
/// the artifact as transferred and, where it is decompressed, of the
/// decompressed result.
pub enum Compression {
    Plain(Option<Checksum>),
    Xz(Option<Checksum>, Option<Checksum>),
    Gz(Option<Checksum>),
}

/// Model of a compression choice.
pub enum CompressionModel {
    Plain(Option<ChecksumModel>),
    Xz(Option<ChecksumModel>, Option<ChecksumModel>),
    Gz(Option<ChecksumModel>),
}

pub open spec fn opt_ck_view(o: Option<Checksum>) -> Option<ChecksumModel> {
    match o {
        Option::None => Option::None,
        Option::Some(c) => Option::Some(c@),
    }
}

impl View for Compression {
    type V = CompressionModel;

    open spec fn view(&self) -> CompressionModel {
        match self {
            Compression::Plain(c) => CompressionModel::Plain(opt_ck_view(*c)),
            Compression::Xz(c, d) => CompressionModel::Xz(opt_ck_view(*c), opt_ck_view(*d)),
            Compression::Gz(c) => CompressionModel::Gz(opt_ck_view(*c)),
        }
    }
}

/// One fetch: the URL, an optional label for progress reporting, the
/// file name to store under (the URL's base name when missing), the
/// expected transfer size, and the compression wrapper.
pub struct DownloadJob {
    pub url: String,
    pub description: Option<String>,
    pub filename: Option<String>,
    pub size: Option<u64>,
    pub compression: Compression,
}

/// Model of a download job.
pub struct JobModel {
    pub url: Seq<char>,
    pub description: Option<Seq<char>>,
    pub filename: Option<Seq<char>>,
    pub size: Option<nat>,
    pub compression: CompressionModel,
}

impl View for DownloadJob {
    type V = JobModel;

    open spec fn view(&self) -> JobModel {
        JobModel {
            url: self.url@,
            description: match self.description {
                Option::None => Option::None,
                Option::Some(s) => Option::Some(s@),
            },
            filename: match self.filename {
                Option::None => Option::None,
                Option::Some(s) => Option::Some(s@),
            },
            size: match self.size {
                Option::None => Option::None,
                Option::Some(n) => Option::Some(n as nat),
            },
            compression: self.compression@,
        }
    }
}

/// The fetched bytes agree with an optional expectation.
pub open spec fn bytes_match(expected: Option<ChecksumModel>, data: Seq<u8>) -> bool {
    match expected {
        Option::Some(c) => checksum_matches(c, data),
        Option::None => true,
    }
}

/// The fetched artifact may be moved from its temporary file into the
/// destination: the transferred bytes match the expected transfer
/// checksum and size, and the decoded bytes (where the job decodes)
/// match the expected final checksum.  Nothing with a mismatch ever
/// reaches the destination.
pub open spec fn commit_ok(
    j: JobModel,
    transferred: Seq<u8>,
    decoded: Seq<u8>,
) -> bool {
    &&& match j.size {
        Option::Some(n) => transferred.len() == n,
        Option::None => true,
    }
    &&& match j.compression {
        CompressionModel::Plain(c) => bytes_match(c, transferred),
        CompressionModel::Xz(c, d) => bytes_match(c, transferred) && bytes_match(d, decoded),
        CompressionModel::Gz(d) => bytes_match(d, decoded),
    }
}

/// Decide whether a completed transfer may be committed to its final
/// name.  `transferred` are the bytes as fetched; `decoded` the bytes
/// after the decompression the job asked for (the same bytes when the
/// job asks for none).
pub fn decide_commit(job: &DownloadJob, transferred: &Vec<u8>, decoded: &Vec<u8>) -> (r: bool)
    ensures
        r == commit_ok(job@, transferred@, decoded@),
{
    let size_ok = match &job.size {
        Option::Some(n) => transferred.len() as u64 == *n,
        Option::None => true,
    };
    if !size_ok {
        return false;
    }
    match &job.compression {
        Compression::Plain(c) => check_opt(c, transferred),
        Compression::Xz(c, d) => {
            let a = check_opt(c, transferred);
            if !a {
                false
            } else {
                check_opt(d, decoded)
            }
        },
        Compression::Gz(d) => check_opt(d, decoded),
    }
}

/// Check bytes against an optional expected checksum.
fn check_opt(expected: &Option<Checksum>, data: &Vec<u8>) -> (r: bool)
    ensures
        r == bytes_match(opt_ck_view(*expected), data@),
{
    match expected {
        Option::Some(c) => {
            let mut v: ChecksumValidator = c.get_validator();
            v.update(data.as_slice());
            proof {
                assert(Seq::<u8>::empty() + data@ =~= data@);
            }
            v.finish()
        },
        Option::None => true,
    }
}

} // verus!
