//! The parsed torrent: reading a metainfo file from bytes, and deriving its
//! info-hash and piece hashes.

use crate::decode::{decode, BencodeSyntaxError};
use crate::digest::{digest_of, sha1_digest};
use crate::encode::{encode, encode_tree};
use crate::grammar::{parse_value, Parsed};
use crate::hexstr::{hex_chars, is_lower_hex_text, lemma_hex_inverts, to_hex};
use crate::model::ValueTree;
use crate::pieces::{parse_piece_hashes, piece_hashes, texts};
use crate::schema::{find_fields, required_fields, Field, SchemaViolation};
use crate::text::{read_utf8, utf8_text};
use crate::value::{copy_bytes, BencodeValue};
use vstd::prelude::*;

verus! {

/// Why a buffer could not be read as a torrent.
#[derive(Clone, Copy, Debug, PartialEq, Eq, Structural)]
pub enum TorrentError {
    /// The bytes could not be acquired; nothing was parsed.
    IoFailure,
    /// The buffer is not bencode.
    Syntax(BencodeSyntaxError),
    /// The buffer is bencode, but no torrent.
    Schema(SchemaViolation),
}

/// The model of an info record.
pub struct InfoModel {
    pub piece_length: u64,
    pub length: u64,
    pub name: Seq<char>,
    pub pieces: Seq<u8>,
}

/// The model of a parsed torrent.
pub struct MetaInfoModel {
    pub announce: Seq<char>,
    pub info: InfoModel,
    pub info_hash: Seq<char>,
    pub piece_hashes: Seq<Seq<char>>,
}

/// What a torrent says of its content: the bytes per piece, the bytes of
/// content, the name, and the piece digests, end to end.
#[derive(Clone, Debug, PartialEq, Eq)]
pub struct InfoRecord {
    piece_length: u64,
    length: u64,
    name: String,
    pieces: Vec<u8>,
}

/// A parsed torrent: the tracker URL, the info record, and what is derived
/// from it, the info-hash and the piece hashes.
#[derive(Debug, PartialEq, Eq)]
pub struct MetaInfo {
    announce: String,
    info: InfoRecord,
    info_hash: String,
    piece_hashes: Vec<String>,
}

impl View for InfoRecord {
    type V = InfoModel;

    closed spec fn view(&self) -> InfoModel {
        InfoModel {
            piece_length: self.piece_length,
            length: self.length,
            name: self.name@,
            pieces: self.pieces@,
        }
    }
}

impl View for MetaInfo {
    type V = MetaInfoModel;

    closed spec fn view(&self) -> MetaInfoModel {
        MetaInfoModel {
            announce: self.announce@,
            info: self.info@,
            info_hash: self.info_hash@,
            piece_hashes: texts(self.piece_hashes@),
        }
    }
}

impl MetaInfoModel {
    /// What holds of every parsed torrent: a positive piece length, a blob of
    /// whole digests, an info-hash of forty lowercase hexadecimal characters,
    /// and the piece hashes that the blob gives.
    pub open spec fn wf(self) -> bool {
        &&& self.info.piece_length > 0
        &&& self.info.pieces.len() % 20 == 0
        &&& self.info_hash.len() == 40
        &&& is_lower_hex_text(self.info_hash)
        &&& self.piece_hashes == piece_hashes(self.info.pieces)
    }
}

/// The info-hash of an info tree: the SHA-1 digest of its canonical
/// encoding, in lowercase hexadecimal.
pub open spec fn info_hash_text(info: ValueTree) -> Seq<char> {
    hex_chars(sha1_digest(encode_tree(info)))
}

/// The torrent that validated fields make, or the first rule that they
/// break: the blob a multiple of twenty bytes, the piece length positive, the
/// announce URL and the name valid UTF-8. `announce` and `name` are the two
/// texts as far as they could be read, `digest` the digest of the encoded
/// info tree.
pub open spec fn assembled(
    piece_length: i64,
    length: u64,
    pieces: Seq<u8>,
    announce: Option<Seq<char>>,
    name: Option<Seq<char>>,
    digest: Seq<u8>,
) -> Result<MetaInfoModel, SchemaViolation> {
    if pieces.len() % 20 != 0 {
        Err(SchemaViolation::InvalidPieceBlob)
    } else if piece_length <= 0 {
        Err(SchemaViolation::InvalidPieceLength)
    } else if announce is None {
        Err(SchemaViolation::InvalidEncoding(Field::Announce))
    } else if name is None {
        Err(SchemaViolation::InvalidEncoding(Field::Name))
    } else {
        Ok(
            MetaInfoModel {
                announce: announce->0,
                info: InfoModel {
                    piece_length: piece_length as u64,
                    length,
                    name: name->0,
                    pieces,
                },
                info_hash: hex_chars(digest),
                piece_hashes: piece_hashes(pieces),
            },
        )
    }
}

/// The torrent that a value tree stands for, or the first rule of the schema
/// that it breaks: first the required fields, then the rules on their
/// values.
pub open spec fn torrent_of_tree(root: ValueTree) -> Result<MetaInfoModel, SchemaViolation> {
    match required_fields(root) {
        Err(violation) => Err(violation),
        Ok(fields) => assembled(
            fields.piece_length,
            fields.length,
            fields.pieces,
            utf8_text(fields.announce),
            utf8_text(fields.name),
            sha1_digest(encode_tree(fields.info)),
        ),
    }
}

/// The torrent that a byte buffer stands for, or why it stands for none:
/// the value at its start is decoded, whatever follows it is passed over, and
/// the value is read under the schema.
pub open spec fn torrent_of_bytes(input: Seq<u8>) -> Result<MetaInfoModel, TorrentError> {
    match parse_value(input, 0) {
        Parsed::Failed { kind, offset } => Err(
            TorrentError::Syntax(BencodeSyntaxError { kind, offset: offset as usize }),
        ),
        Parsed::Done { value, .. } => match torrent_of_tree(value) {
            Ok(model) => Ok(model),
            Err(violation) => Err(TorrentError::Schema(violation)),
        },
    }
}

/// The digest of an info tree: the SHA-1 digest of its canonical encoding.
pub fn compute_info_digest(info: &BencodeValue) -> (digest: [u8; 20])
    ensures
        digest@ == sha1_digest(encode_tree(info@)),
{
    let encoded = encode(info);
    digest_of(encoded.as_slice())
}

/// The info-hash of an info tree: its canonical encoding, digested with
/// SHA-1, in forty lowercase hexadecimal characters.
pub fn compute_info_hash(info: &BencodeValue) -> (hash: String)
    ensures
        hash@ == info_hash_text(info@),
        hash@.len() == 40,
        is_lower_hex_text(hash@),
{
    let digest = compute_info_digest(info);
    render_digest(&digest)
}

/// Renders a digest of twenty bytes as forty lowercase hexadecimal
/// characters.
pub fn render_digest(digest: &[u8; 20]) -> (text: String)
    ensures
        text@ == hex_chars(digest@),
        text@.len() == 40,
        is_lower_hex_text(text@),
{
    proof {
        lemma_hex_inverts(digest@);
    }
    to_hex(digest.as_slice())
}

impl InfoRecord {
    /// The bytes per piece.
    pub fn piece_length(&self) -> (n: u64)
        ensures
            n == self@.piece_length,
    {
        self.piece_length
    }

    /// The bytes of content.
    pub fn length(&self) -> (n: u64)
        ensures
            n == self@.length,
    {
        self.length
    }

    /// The name of the content.
    pub fn name(&self) -> (text: &str)
        ensures
            text@ == self@.name,
    {
        self.name.as_str()
    }

    /// The piece digests, end to end.
    pub fn pieces(&self) -> (blob: &[u8])
        ensures
            blob@ == self@.pieces,
    {
        self.pieces.as_slice()
    }
}

impl MetaInfo {
    /// A parsed torrent is well formed, always.
    #[verifier::type_invariant]
    spec fn inv(self) -> bool {
        self@.wf()
    }

    /// Makes the torrent of validated fields, or reports the first rule that
    /// they break. `announce` and `name` are the two texts as far as they
    /// could be read as UTF-8, `digest` is the digest of the encoded info
    /// tree.
    pub fn assemble(
        piece_length: i64,
        length: u64,
        pieces: Vec<u8>,
        announce: Option<String>,
        name: Option<String>,
        digest: &[u8; 20],
    ) -> (result: Result<MetaInfo, SchemaViolation>)
        ensures
            match result {
                Ok(torrent) => assembled(
                    piece_length,
                    length,
                    pieces@,
                    text_of(announce),
                    text_of(name),
                    digest@,
                ) == Ok::<MetaInfoModel, SchemaViolation>(torrent@) && torrent@.wf(),
                Err(violation) => assembled(
                    piece_length,
                    length,
                    pieces@,
                    text_of(announce),
                    text_of(name),
                    digest@,
                ) == Err::<MetaInfoModel, SchemaViolation>(violation),
            },
    {
        if pieces.len() % 20 != 0 {
            return Err(SchemaViolation::InvalidPieceBlob);
        }
        if piece_length <= 0 {
            return Err(SchemaViolation::InvalidPieceLength);
        }
        let announce = match announce {
            Some(text) => text,
            None => {
                return Err(SchemaViolation::InvalidEncoding(Field::Announce));
            },
        };
        let name = match name {
            Some(text) => text,
            None => {
                return Err(SchemaViolation::InvalidEncoding(Field::Name));
            },
        };
        let piece_hashes = parse_piece_hashes(pieces.as_slice());
        let info_hash = render_digest(digest);
        Ok(
            MetaInfo {
                announce,
                info: InfoRecord { piece_length: piece_length as u64, length, name, pieces },
                info_hash,
                piece_hashes,
            },
        )
    }

    /// Reads a value tree under the torrent schema.
    pub fn from_value(root: &BencodeValue) -> (result: Result<MetaInfo, SchemaViolation>)
        requires
            root.wf(),
        ensures
            match result {
                Ok(torrent) => torrent_of_tree(root@) == Ok::<MetaInfoModel, SchemaViolation>(
                    torrent@,
                ) && torrent@.wf(),
                Err(violation) => torrent_of_tree(root@) == Err::<MetaInfoModel, SchemaViolation>(
                    violation,
                ),
            },
    {
        let fields = match find_fields(root) {
            Ok(fields) => fields,
            Err(violation) => {
                return Err(violation);
            },
        };
        let announce = read_utf8(copy_bytes(fields.announce.as_slice()));
        let name = read_utf8(copy_bytes(fields.name.as_slice()));
        let digest = compute_info_digest(fields.info);
        MetaInfo::assemble(
            fields.piece_length,
            fields.length,
            copy_bytes(fields.pieces.as_slice()),
            announce,
            name,
            &digest,
        )
    }

    /// Parses a torrent from the bytes of a metainfo file.
    pub fn from_bytes(input: &[u8]) -> (result: Result<MetaInfo, TorrentError>)
        ensures
            match result {
                Ok(torrent) => torrent_of_bytes(input@) == Ok::<MetaInfoModel, TorrentError>(
                    torrent@,
                ) && torrent@.wf(),
                Err(error) => torrent_of_bytes(input@) == Err::<MetaInfoModel, TorrentError>(error),
            },
            !(result matches Err(TorrentError::IoFailure)),
    {
        match decode(input) {
            Err(error) => Err(TorrentError::Syntax(error)),
            Ok((root, _)) => match MetaInfo::from_value(&root) {
                Ok(torrent) => Ok(torrent),
                Err(violation) => Err(TorrentError::Schema(violation)),
            },
        }
    }

    /// Parses a torrent from what came of acquiring the bytes of a metainfo
    /// file: `None` stands for a failure to acquire them.
    pub fn from_acquired(input: Option<&[u8]>) -> (result: Result<MetaInfo, TorrentError>)
        ensures
            match input {
                None => result == Err::<MetaInfo, TorrentError>(TorrentError::IoFailure),
                Some(bytes) => match result {
                    Ok(torrent) => torrent_of_bytes(bytes@) == Ok::<MetaInfoModel, TorrentError>(
                        torrent@,
                    ),
                    Err(error) => torrent_of_bytes(bytes@) == Err::<MetaInfoModel, TorrentError>(
                        error,
                    ),
                },
            },
    {
        match input {
            None => Err(TorrentError::IoFailure),
            Some(bytes) => MetaInfo::from_bytes(bytes),
        }
    }

    /// The tracker URL.
    pub fn announce(&self) -> (text: &str)
        ensures
            text@ == self@.announce,
    {
        self.announce.as_str()
    }

    /// The info record.
    pub fn info(&self) -> (record: &InfoRecord)
        ensures
            record@ == self@.info,
            record@.piece_length > 0,
            record@.pieces.len() % 20 == 0,
    {
        proof {
            use_type_invariant(self);
        }
        &self.info
    }

    /// The info-hash: forty lowercase hexadecimal characters.
    pub fn info_hash(&self) -> (text: &str)
        ensures
            text@ == self@.info_hash,
            text@.len() == 40,
            is_lower_hex_text(text@),
    {
        proof {
            use_type_invariant(self);
        }
        self.info_hash.as_str()
    }

    /// The piece hashes, one for every twenty bytes of the blob, in order.
    pub fn piece_hashes(&self) -> (hashes: &Vec<String>)
        ensures
            texts(hashes@) == self@.piece_hashes,
            texts(hashes@) == piece_hashes(self@.info.pieces),
            hashes@.len() == self@.info.pieces.len() / 20,
    {
        proof {
            use_type_invariant(self);
            assert(texts(self.piece_hashes@).len() == self.piece_hashes@.len());
        }
        &self.piece_hashes
    }
}

/// The characters of a text that may be absent.
pub open spec fn text_of(text: Option<String>) -> Option<Seq<char>> {
    match text {
        Some(t) => Some(t@),
        None => None,
    }
}

} // verus!
