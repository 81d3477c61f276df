//! Digests of a file's contents.
use vstd::prelude::*;

verus! {

/// The lowercase hex MD5 digest of some bytes.
pub uninterp spec fn md5_hex_of(data: Seq<u8>) -> Seq<char>;

/// The lowercase hex SHA-1 digest of some bytes.
pub uninterp spec fn sha1_hex_of(data: Seq<u8>) -> Seq<char>;

/// The lowercase hex SHA-256 digest of some bytes.
pub uninterp spec fn sha256_hex_of(data: Seq<u8>) -> Seq<char>;

/// The lowercase hex BLAKE3 digest of some bytes.
pub uninterp spec fn blake3_hex_of(data: Seq<u8>) -> Seq<char>;

/// Relies on md5::compute and the digest's lower-hex formatting.
#[verifier::external_body]
fn md5_hex(data: &[u8]) -> (r: String)
    ensures
        r@ == md5_hex_of(data@),
{
    format!("{:x}", md5::compute(data))
}

/// Relies on sha1's `Digest::digest` for `Sha1` and lower-hex formatting of its output.
#[verifier::external_body]
fn sha1_hex(data: &[u8]) -> (r: String)
    ensures
        r@ == sha1_hex_of(data@),
{
    format!("{:x}", <sha1::Sha1 as sha1::Digest>::digest(data))
}

/// Relies on sha2's `Digest::digest` for `Sha256` and lower-hex formatting of its output.
#[verifier::external_body]
fn sha256_hex(data: &[u8]) -> (r: String)
    ensures
        r@ == sha256_hex_of(data@),
{
    format!("{:x}", <sha2::Sha256 as sha2::Digest>::digest(data))
}

/// Relies on blake3::hash and `Hash::to_hex`.
#[verifier::external_body]
fn blake3_hex(data: &[u8]) -> (r: String)
    ensures
        r@ == blake3_hex_of(data@),
{
    blake3::hash(data).to_hex().to_string()
}

/// The digests, name and size of one file.
#[derive(Debug, Clone, PartialEq, Eq)]
pub struct HashResult {
    pub md5: String,
    pub sha1: String,
    pub sha256: String,
    pub blake3: String,
    pub filename: String,
    pub size: u64,
}

/// The name that stands for a file whose name cannot be read as text.
pub open spec fn unknown_file_name() -> Seq<char> {
    seq!['未', '知', '文', '件']
}

/// Digests a file's contents. `file_name` is the file's name where it is
/// text; `size` is the length of `contents`.
pub fn hash_contents(contents: &[u8], file_name: Option<&str>) -> (r: HashResult)
    ensures
        r.md5@ == md5_hex_of(contents@),
        r.sha1@ == sha1_hex_of(contents@),
        r.sha256@ == sha256_hex_of(contents@),
        r.blake3@ == blake3_hex_of(contents@),
        r.filename@ == match file_name {
            Some(n) => n@,
            None => unknown_file_name(),
        },
        r.size == contents@.len(),
{
    let filename = match file_name {
        Some(n) => n.to_owned(),
        None => {
            proof {
                reveal_strlit("未知文件");
            }
            "未知文件".to_owned()
        },
    };
    HashResult {
        md5: md5_hex(contents),
        sha1: sha1_hex(contents),
        sha256: sha256_hex(contents),
        blake3: blake3_hex(contents),
        filename,
        size: contents.len() as u64,
    }
}

} // verus!
