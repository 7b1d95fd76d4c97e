//! The torrent schema: which keys a metainfo tree must hold, and the search
//! for them.

use crate::model::{lookup, Entries, ValueTree};
use crate::value::{BencodeValue, Dictionary};
use vstd::prelude::*;

verus! {

/// The fields that the schema requires.
#[derive(Clone, Copy, Debug, PartialEq, Eq, Structural)]
pub enum Field {
    /// `announce`, in the root dictionary: the tracker URL.
    Announce,
    /// `info`, in the root dictionary: the info dictionary.
    Info,
    /// `pieces`, in the info dictionary: the piece digests, end to end.
    Pieces,
    /// `piece length`, in the info dictionary: the bytes per piece.
    PieceLength,
    /// `length`, in the info dictionary: the bytes of content.
    Length,
    /// `name`, in the info dictionary: the suggested name.
    Name,
}

/// The ways in which a value tree can fail to be a torrent.
#[derive(Clone, Copy, Debug, PartialEq, Eq, Structural)]
pub enum SchemaViolation {
    /// A required field is not there, or is not of the kind that the schema
    /// asks for (for `length`: is negative).
    MissingField(Field),
    /// A text field is not valid UTF-8.
    InvalidEncoding(Field),
    /// The length of `pieces` is no multiple of twenty.
    InvalidPieceBlob,
    /// `piece length` is not positive.
    InvalidPieceLength,
}

impl Field {
    /// The dictionary key of the field, in ASCII.
    pub open spec fn key(self) -> Seq<u8> {
        match self {
            Field::Announce => seq![97u8, 110u8, 110u8, 111u8, 117u8, 110u8, 99u8, 101u8],
            Field::Info => seq![105u8, 110u8, 102u8, 111u8],
            Field::Pieces => seq![112u8, 105u8, 101u8, 99u8, 101u8, 115u8],
            Field::PieceLength => seq![
                112u8,
                105u8,
                101u8,
                99u8,
                101u8,
                32u8,
                108u8,
                101u8,
                110u8,
                103u8,
                116u8,
                104u8,
            ],
            Field::Length => seq![108u8, 101u8, 110u8, 103u8, 116u8, 104u8],
            Field::Name => seq![110u8, 97u8, 109u8, 101u8],
        }
    }

    /// The name of the field, as the schema writes it.
    pub open spec fn label(self) -> Seq<char> {
        match self {
            Field::Announce => "announce"@,
            Field::Info => "info"@,
            Field::Pieces => "pieces"@,
            Field::PieceLength => "piece length"@,
            Field::Length => "length"@,
            Field::Name => "name"@,
        }
    }

    /// The name of the field, as the schema writes it.
    pub fn name(self) -> (text: &'static str)
        ensures
            text@ == self.label(),
    {
        match self {
            Field::Announce => "announce",
            Field::Info => "info",
            Field::Pieces => "pieces",
            Field::PieceLength => "piece length",
            Field::Length => "length",
            Field::Name => "name",
        }
    }

    /// The dictionary key of the field.
    pub fn key_bytes(self) -> (key: Vec<u8>)
        ensures
            key@ == self.key(),
    {
        let key = match self {
            Field::Announce => vec![97u8, 110u8, 110u8, 111u8, 117u8, 110u8, 99u8, 101u8],
            Field::Info => vec![105u8, 110u8, 102u8, 111u8],
            Field::Pieces => vec![112u8, 105u8, 101u8, 99u8, 101u8, 115u8],
            Field::PieceLength => vec![
                112u8,
                105u8,
                101u8,
                99u8,
                101u8,
                32u8,
                108u8,
                101u8,
                110u8,
                103u8,
                116u8,
                104u8,
            ],
            Field::Length => vec![108u8, 101u8, 110u8, 103u8, 116u8, 104u8],
            Field::Name => vec![110u8, 97u8, 109u8, 101u8],
        };
        assert(key@ =~= self.key());
        key
    }
}

/// The byte string under `field`, if the entries hold one there.
pub open spec fn bytes_under(entries: Entries, field: Field) -> Option<Seq<u8>> {
    match lookup(entries, field.key()) {
        Some(ValueTree::ByteString(bytes)) => Some(bytes),
        _ => None,
    }
}

/// The integer under `field`, if the entries hold one there.
pub open spec fn integer_under(entries: Entries, field: Field) -> Option<i64> {
    match lookup(entries, field.key()) {
        Some(ValueTree::Integer(n)) => Some(n),
        _ => None,
    }
}

/// The entries of the dictionary under `field`, if the entries hold one
/// there.
pub open spec fn dictionary_under(entries: Entries, field: Field) -> Option<Entries> {
    match lookup(entries, field.key()) {
        Some(ValueTree::Dictionary(inner)) => Some(inner),
        _ => None,
    }
}

/// What the schema finds in a torrent tree, as it stands in the tree.
pub struct FieldsModel {
    pub announce: Seq<u8>,
    /// The info tree, whole: a dictionary, with whatever keys it holds.
    pub info: ValueTree,
    pub pieces: Seq<u8>,
    pub piece_length: i64,
    pub length: u64,
    pub name: Seq<u8>,
}

/// The required fields of a torrent tree. The root must be a dictionary with
/// a byte string under `announce` and a dictionary under `info`; that one
/// must hold a byte string under `pieces`, an integer under `piece length`,
/// a non-negative integer under `length` and a byte string under `name`.
/// The first of these, in this order, that is not met is reported as the
/// missing field. Other keys are passed over.
pub open spec fn required_fields(root: ValueTree) -> Result<FieldsModel, SchemaViolation> {
    if !(root is Dictionary) {
        Err(SchemaViolation::MissingField(Field::Announce))
    } else {
        let top = root->Dictionary_0;
        if bytes_under(top, Field::Announce) is None {
            Err(SchemaViolation::MissingField(Field::Announce))
        } else if dictionary_under(top, Field::Info) is None {
            Err(SchemaViolation::MissingField(Field::Info))
        } else {
            let info = dictionary_under(top, Field::Info)->0;
            if bytes_under(info, Field::Pieces) is None {
                Err(SchemaViolation::MissingField(Field::Pieces))
            } else if integer_under(info, Field::PieceLength) is None {
                Err(SchemaViolation::MissingField(Field::PieceLength))
            } else if integer_under(info, Field::Length) is None || integer_under(
                info,
                Field::Length,
            )->0 < 0 {
                Err(SchemaViolation::MissingField(Field::Length))
            } else if bytes_under(info, Field::Name) is None {
                Err(SchemaViolation::MissingField(Field::Name))
            } else {
                Ok(
                    FieldsModel {
                        announce: bytes_under(top, Field::Announce)->0,
                        info: ValueTree::Dictionary(info),
                        pieces: bytes_under(info, Field::Pieces)->0,
                        piece_length: integer_under(info, Field::PieceLength)->0,
                        length: integer_under(info, Field::Length)->0 as u64,
                        name: bytes_under(info, Field::Name)->0,
                    },
                )
            }
        }
    }
}

/// What the schema finds in a torrent tree: the fields, borrowed from the
/// tree.
pub struct RawFields<'a> {
    pub announce: &'a Vec<u8>,
    /// The info tree, whole: a dictionary, with whatever keys it holds.
    pub info: &'a BencodeValue,
    pub pieces: &'a Vec<u8>,
    pub piece_length: i64,
    pub length: u64,
    pub name: &'a Vec<u8>,
}

impl<'a> View for RawFields<'a> {
    type V = FieldsModel;

    open spec fn view(&self) -> FieldsModel {
        FieldsModel {
            announce: self.announce@,
            info: self.info@,
            pieces: self.pieces@,
            piece_length: self.piece_length,
            length: self.length,
            name: self.name@,
        }
    }
}

/// The byte string under `field` in `d`.
fn bytes_field<'a>(d: &'a Dictionary, field: Field) -> (found: Option<&'a Vec<u8>>)
    requires
        d.wf(),
    ensures
        match found {
            Some(bytes) => bytes_under(d@, field) == Some(bytes@),
            None => bytes_under(d@, field) is None,
        },
{
    let key = field.key_bytes();
    match d.get(key.as_slice()) {
        Some(BencodeValue::ByteString(bytes)) => Some(bytes),
        _ => None,
    }
}

/// The integer under `field` in `d`.
fn integer_field(d: &Dictionary, field: Field) -> (found: Option<i64>)
    requires
        d.wf(),
    ensures
        found == integer_under(d@, field),
{
    let key = field.key_bytes();
    match d.get(key.as_slice()) {
        Some(BencodeValue::Integer(n)) => Some(*n),
        _ => None,
    }
}

/// The value under `field` in `d`, where it is a dictionary, and that
/// dictionary.
fn dictionary_field<'a>(d: &'a Dictionary, field: Field) -> (found: Option<
    (&'a BencodeValue, &'a Dictionary),
>)
    requires
        d.wf(),
    ensures
        match found {
            Some((value, inner)) => dictionary_under(d@, field) == Some(inner@) && value@
                == ValueTree::Dictionary(inner@) && inner.wf() && value.wf(),
            None => dictionary_under(d@, field) is None,
        },
{
    let key = field.key_bytes();
    match d.get(key.as_slice()) {
        Some(value) => match value {
            BencodeValue::Dictionary(inner) => Some((value, inner)),
            _ => None,
        },
        None => None,
    }
}

/// Finds the required fields in a torrent tree, or reports the first that
/// is missing.
pub fn find_fields<'a>(root: &'a BencodeValue) -> (result: Result<RawFields<'a>, SchemaViolation>)
    requires
        root.wf(),
    ensures
        match result {
            Ok(fields) => required_fields(root@) == Ok::<FieldsModel, SchemaViolation>(fields@)
                && fields.info.wf(),
            Err(violation) => required_fields(root@) == Err::<FieldsModel, SchemaViolation>(
                violation,
            ),
        },
{
    let top = match root {
        BencodeValue::Dictionary(top) => top,
        _ => {
            return Err(SchemaViolation::MissingField(Field::Announce));
        },
    };
    let announce = match bytes_field(top, Field::Announce) {
        Some(bytes) => bytes,
        None => {
            return Err(SchemaViolation::MissingField(Field::Announce));
        },
    };
    let (info_tree, info) = match dictionary_field(top, Field::Info) {
        Some(found) => found,
        None => {
            return Err(SchemaViolation::MissingField(Field::Info));
        },
    };
    let pieces = match bytes_field(info, Field::Pieces) {
        Some(bytes) => bytes,
        None => {
            return Err(SchemaViolation::MissingField(Field::Pieces));
        },
    };
    let piece_length = match integer_field(info, Field::PieceLength) {
        Some(n) => n,
        None => {
            return Err(SchemaViolation::MissingField(Field::PieceLength));
        },
    };
    let length = match integer_field(info, Field::Length) {
        Some(n) => n,
        None => {
            return Err(SchemaViolation::MissingField(Field::Length));
        },
    };
    if length < 0 {
        return Err(SchemaViolation::MissingField(Field::Length));
    }
    let name = match bytes_field(info, Field::Name) {
        Some(bytes) => bytes,
        None => {
            return Err(SchemaViolation::MissingField(Field::Name));
        },
    };
    Ok(RawFields { announce, info: info_tree, pieces, piece_length, length: length as u64, name })
}

} // verus!
