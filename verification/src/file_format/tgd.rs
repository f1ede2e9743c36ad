//! Compressed tables as files: the names and types of the columns, and the compressed data.
use vstd::arithmetic::power2::lemma2_to64;
use vstd::prelude::*;
use vstd::utf8::{
    decode_utf8, encode_utf8, encode_utf8_decode_utf8, encode_utf8_valid_utf8, valid_utf8,
};

use crate::bits::MAX_STREAM_BITS;
use crate::bytes::{
    append_bytes, append_le, concat, concat_push, copy_bytes, le_bytes, le_round_trip, le_value,
    le_value_bound, read_le,
};
use crate::data::{
    copy_names, copy_types, features_width, texts, BitDataReconstructionInfo, ColumnDataType,
    InfoView, ReconstructionView,
};
use crate::encoding::compressed::{CompressedData, CompressedView};
use crate::error::{bad_metadata, EntroGdError};
use crate::file_format::egd::{file_bytes, read_file, shape_of, writes, EgdFile};
use crate::file_format::egd_laws::{file_is_read_back, file_keeps_description, storable, stored};
use crate::file_format::egd_rows::encoded_fits;
use crate::text::{numbered, text_of_bytes, two_numbers};

verus! {

/// The first bytes of a table file.
pub const TGD_MAGIC_BYTES: [u8; 3] = [84, 71, 68];

/// The version of the format.
pub const TGD_FORMAT_VERSION: u8 = 1;

/// The tag of a column type; types without a tag of their own share one.
pub open spec fn column_tag(column: ColumnDataType) -> u8 {
    match column {
        ColumnDataType::Float16 => 0,
        ColumnDataType::Float32 => 1,
        ColumnDataType::Float64 => 2,
        ColumnDataType::Int8 => 3,
        ColumnDataType::Int16 => 4,
        ColumnDataType::Int32 => 5,
        ColumnDataType::Int64 => 6,
        ColumnDataType::UInt8 => 7,
        ColumnDataType::UInt16 => 8,
        ColumnDataType::UInt32 => 9,
        ColumnDataType::UInt64 => 10,
        ColumnDataType::Other => 255,
    }
}

/// The column type of a tag; tags that stand for none are taken for 64-bit floats.
pub open spec fn tagged_column(tag: u8) -> ColumnDataType {
    if tag == 0 {
        ColumnDataType::Float16
    } else if tag == 1 {
        ColumnDataType::Float32
    } else if tag == 2 {
        ColumnDataType::Float64
    } else if tag == 3 {
        ColumnDataType::Int8
    } else if tag == 4 {
        ColumnDataType::Int16
    } else if tag == 5 {
        ColumnDataType::Int32
    } else if tag == 6 {
        ColumnDataType::Int64
    } else if tag == 7 {
        ColumnDataType::UInt8
    } else if tag == 8 {
        ColumnDataType::UInt16
    } else if tag == 9 {
        ColumnDataType::UInt32
    } else if tag == 10 {
        ColumnDataType::UInt64
    } else {
        ColumnDataType::Float64
    }
}

/// The tag of a column type.
pub fn encode_polars_dtype(column: ColumnDataType) -> (tag: u8)
    ensures
        tag == column_tag(column),
{
    match column {
        ColumnDataType::Float16 => 0,
        ColumnDataType::Float32 => 1,
        ColumnDataType::Float64 => 2,
        ColumnDataType::Int8 => 3,
        ColumnDataType::Int16 => 4,
        ColumnDataType::Int32 => 5,
        ColumnDataType::Int64 => 6,
        ColumnDataType::UInt8 => 7,
        ColumnDataType::UInt16 => 8,
        ColumnDataType::UInt32 => 9,
        ColumnDataType::UInt64 => 10,
        ColumnDataType::Other => 255,
    }
}

/// The column type of a tag.
pub fn decode_polars_dtype(tag: u8) -> (column: ColumnDataType)
    ensures
        column == tagged_column(tag),
{
    match tag {
        0 => ColumnDataType::Float16,
        1 => ColumnDataType::Float32,
        2 => ColumnDataType::Float64,
        3 => ColumnDataType::Int8,
        4 => ColumnDataType::Int16,
        5 => ColumnDataType::Int32,
        6 => ColumnDataType::Int64,
        7 => ColumnDataType::UInt8,
        8 => ColumnDataType::UInt16,
        9 => ColumnDataType::UInt32,
        10 => ColumnDataType::UInt64,
        _ => ColumnDataType::Float64,
    }
}

/// Names as bytes, each behind its length.
pub open spec fn name_parts(names: Seq<Seq<char>>) -> Seq<Seq<u8>> {
    Seq::new(
        names.len(),
        |i: int| le_bytes(encode_utf8(names[i]).len(), 2) + encode_utf8(names[i]),
    )
}

/// The tags of column types.
pub open spec fn column_tags(types: Seq<ColumnDataType>) -> Seq<u8> {
    Seq::new(types.len(), |i: int| column_tag(types[i]))
}

/// The bytes before the compressed data: magic bytes, version, the number of columns, their
/// names behind the number of bytes these take, their types behind their number, and the number
/// of bytes that follow.
pub open spec fn table_header(
    names: Seq<Seq<char>>,
    types: Seq<ColumnDataType>,
    payload_len: nat,
) -> Seq<u8> {
    TGD_MAGIC_BYTES@ + seq![TGD_FORMAT_VERSION] + le_bytes(names.len(), 4) + le_bytes(
        concat(name_parts(names)).len(),
        4,
    ) + concat(name_parts(names)) + le_bytes(names.len(), 4) + column_tags(types) + le_bytes(
        payload_len,
        8,
    )
}

/// A compressed table as the bytes of a file.
pub open spec fn table_file_bytes(
    names: Seq<Seq<char>>,
    types: Seq<ColumnDataType>,
    data: CompressedView,
) -> Seq<u8> {
    table_header(names, types, file_bytes(data).len()) + file_bytes(data)
}

/// Whether names can be written behind their lengths.
pub open spec fn names_fit(names: Seq<Seq<char>>) -> bool {
    &&& forall|i: int|
        0 <= i < names.len() ==> encode_utf8(#[trigger] names[i]).len() <= u16::MAX
    &&& concat(name_parts(names)).len() <= u32::MAX
}

/// A number of names from a position on, none of which goes beyond `limit`, and where they end.
pub open spec fn read_names(bytes: Seq<u8>, position: int, limit: int, count: nat) -> Option<
    (Seq<Seq<char>>, int),
>
    decreases count,
{
    if count == 0 {
        Some((Seq::empty(), position))
    } else {
        match read_names(bytes, position, limit, (count - 1) as nat) {
            Some((names, at)) => if at + 2 > limit {
                None
            } else {
                let len = le_value(bytes.subrange(at, at + 2));
                let text = bytes.subrange(at + 2, at + 2 + len);
                if at + 2 + len > limit || !valid_utf8(text) {
                    None
                } else {
                    Some((names.push(decode_utf8(text)), at + 2 + len))
                }
            },
            None => None,
        }
    }
}

/// What the bytes before the compressed data say, and where those end.
pub open spec fn read_table_header(bytes: Seq<u8>) -> Option<
    ((Seq<Seq<char>>, Seq<ColumnDataType>), int),
> {
    if bytes.len() < 24 || bytes.take(3) != TGD_MAGIC_BYTES@ || bytes[3] != TGD_FORMAT_VERSION {
        None
    } else {
        let count = le_value(bytes.subrange(4, 8));
        let names_end = 12 + le_value(bytes.subrange(8, 12)) as int;
        if names_end + 4 > bytes.len() {
            None
        } else {
            match read_names(bytes, 12, names_end, count) {
                Some((names, at)) => {
                    let types_end = names_end + 4 + count;
                    if le_value(bytes.subrange(names_end, names_end + 4)) != count || types_end + 8
                        > bytes.len() || types_end + 8 + le_value(
                        bytes.subrange(types_end, types_end + 8),
                    ) != bytes.len() {
                        None
                    } else {
                        Some(
                            (
                                (
                                    names,
                                    Seq::new(
                                        count,
                                        |i: int| tagged_column(bytes[names_end + 4 + i]),
                                    ),
                                ),
                                types_end + 8,
                            ),
                        )
                    }
                },
                None => None,
            }
        }
    }
}

/// Compressed data of a table with named columns.
pub open spec fn as_table(
    data: CompressedView,
    names: Seq<Seq<char>>,
    types: Seq<ColumnDataType>,
) -> CompressedView {
    CompressedView {
        metadata: InfoView {
            reconstruction: ReconstructionView::Tabular { names, types },
            ..data.metadata
        },
        ..data
    }
}

/// The compressed table that the bytes of a file stand for, if they do.
pub open spec fn read_table_file(bytes: Seq<u8>) -> Option<CompressedView> {
    match read_table_header(bytes) {
        Some(((names, types), at)) => match read_file(bytes.skip(at)) {
            Some(data) => if data.metadata.features.len() == names.len() {
                Some(as_table(data, names, types))
            } else {
                None
            },
            None => None,
        },
        None => None,
    }
}

/// A compressed table as the bytes of a file.
#[derive(Debug, PartialEq, Eq)]
pub struct TgdFile {
    pub bytes: Vec<u8>,
}

impl View for TgdFile {
    type V = Seq<u8>;

    open spec fn view(&self) -> Seq<u8> {
        self.bytes@
    }
}

impl Clone for TgdFile {
    fn clone(&self) -> (copy: TgdFile)
        ensures
            copy@ == self@,
    {
        let bytes = copy_bytes(&self.bytes, 0, self.bytes.len());
        assert(bytes@ =~= self.bytes@);
        TgdFile { bytes }
    }
}

/// Appends the bytes of a text.
fn append_text_bytes(out: &mut Vec<u8>, text: &String) -> (len: usize)
    ensures
        final(out)@ == old(out)@ + encode_utf8(text@),
        len == encode_utf8(text@).len(),
{
    let ghost start = out@;
    let bytes = text.as_str().as_bytes();
    let mut i: usize = 0;
    while i < bytes.len()
        invariant
            i <= bytes@.len(),
            bytes@ == encode_utf8(text@),
            out@ == start + bytes@.take(i as int),
        decreases bytes@.len() - i,
    {
        out.push(bytes[i]);
        assert(bytes@.take(i as int + 1) =~= bytes@.take(i as int).push(bytes@[i as int]));
        i += 1;
    }
    assert(bytes@.take(i as int) =~= bytes@);
    bytes.len()
}

/// Names as bytes, each behind its length.
fn write_names(names: &Vec<String>) -> (result: Result<Vec<u8>, EntroGdError>)
    ensures
        result is Ok <==> (forall|i: int|
            0 <= i < names@.len() ==> encode_utf8(#[trigger] texts(names@)[i]).len() <= u16::MAX),
        result matches Ok(bytes) ==> bytes@ == concat(name_parts(texts(names@))),
        result matches Err(error) ==> error is InvalidMetadata,
{
    let ghost list = texts(names@);
    let ghost parts = name_parts(list);
    let mut bytes: Vec<u8> = Vec::new();
    let mut i: usize = 0;
    proof {
        assert(parts.take(0) =~= Seq::empty());
    }
    while i < names.len()
        invariant
            i <= names@.len(),
            list == texts(names@),
            parts == name_parts(list),
            forall|k: int| 0 <= k < i ==> encode_utf8(#[trigger] list[k]).len() <= u16::MAX,
            bytes@ == concat(parts.take(i as int)),
        decreases names@.len() - i,
    {
        let mut text: Vec<u8> = Vec::new();
        let len: usize = append_text_bytes(&mut text, &names[i]);
        assert(text@ =~= encode_utf8(list[i as int]));
        if len > 65535 {
            assert(encode_utf8(list[i as int]).len() > u16::MAX);
            return Err(bad_metadata("column name too long for u16"));
        }
        append_le(&mut bytes, len as u64, 2);
        append_bytes(&mut bytes, &text);
        proof {
            assert(parts.take(i as int + 1) =~= parts.take(i as int).push(parts[i as int]));
            concat_push(parts.take(i as int), parts[i as int]);
            assert(bytes@ =~= concat(parts.take(i as int + 1)));
        }
        i += 1;
    }
    assert(parts.take(i as int) =~= parts);
    Ok(bytes)
}

/// Appends the tags of column types.
fn append_tags(out: &mut Vec<u8>, types: &Vec<ColumnDataType>)
    ensures
        final(out)@ == old(out)@ + column_tags(types@),
{
    let ghost start = out@;
    let ghost tags = column_tags(types@);
    let mut i: usize = 0;
    while i < types.len()
        invariant
            i <= types@.len(),
            tags == column_tags(types@),
            out@ == start + tags.take(i as int),
        decreases types@.len() - i,
    {
        out.push(encode_polars_dtype(types[i]));
        assert(tags.take(i as int + 1) =~= tags.take(i as int).push(tags[i as int]));
        i += 1;
    }
    assert(tags.take(i as int) =~= tags);
}

impl TgdFile {
    /// A compressed table as the bytes of a file.
    pub fn from_compressed_data(compressed: CompressedData) -> (result: Result<
        TgdFile,
        EntroGdError,
    >)
        requires
            compressed.valid(),
            2 * compressed@.layout.len() <= MAX_STREAM_BITS,
            encoded_fits(compressed@.encoded, shape_of(compressed@).width()),
        ensures
            match compressed@.metadata.reconstruction {
                ReconstructionView::Tabular { names, types } => {
                    let count = compressed@.metadata.features.len();
                    &&& result is Ok <==> names.len() == count && types.len() == count && writes(
                        compressed@,
                    ) && names_fit(names)
                    &&& result matches Ok(file) ==> file@ == table_file_bytes(
                        names,
                        types,
                        compressed@,
                    )
                },
                ReconstructionView::Image(info) => result is Err,
            },
            result matches Err(error) ==> error is InvalidMetadata,
    {
        let (names, types) = match &compressed.metadata.reconstruction {
            BitDataReconstructionInfo::Tabular { column_names, original_dtypes } => {
                (copy_names(column_names), copy_types(original_dtypes))
            },
            BitDataReconstructionInfo::Image(info) => {
                return Err(
                    bad_metadata("cannot build TGD from non-tabular reconstruction metadata"),
                );
            },
        };
        let ghost list = texts(names@);
        proof {
            assert(compressed@.metadata.reconstruction == (ReconstructionView::Tabular {
                names: list,
                types: types@,
            }));
        }
        let count: usize = compressed.metadata.num_features();
        if names.len() != count {
            return Err(bad_metadata("column names count does not match feature count"));
        }
        if types.len() != count {
            return Err(bad_metadata("dtype count does not match feature count"));
        }
        let payload = match EgdFile::from_compressed_data(compressed) {
            Ok(file) => file.bytes,
            Err(error) => {
                return Err(error);
            },
        };
        let names_bytes = match write_names(&names) {
            Ok(bytes) => bytes,
            Err(error) => {
                return Err(error);
            },
        };
        if names_bytes.len() > u32::MAX as usize {
            return Err(bad_metadata("names section too large for u32"));
        }
        let mut bytes: Vec<u8> = Vec::new();
        bytes.push(84);
        bytes.push(71);
        bytes.push(68);
        bytes.push(TGD_FORMAT_VERSION);
        proof {
            assert(TGD_MAGIC_BYTES@ =~= seq![84u8, 71, 68]);
            assert(bytes@ =~= TGD_MAGIC_BYTES@ + seq![TGD_FORMAT_VERSION]);
        }
        append_le(&mut bytes, count as u64, 4);
        append_le(&mut bytes, names_bytes.len() as u64, 4);
        append_bytes(&mut bytes, &names_bytes);
        append_le(&mut bytes, count as u64, 4);
        append_tags(&mut bytes, &types);
        append_le(&mut bytes, payload.len() as u64, 8);
        append_bytes(&mut bytes, &payload);
        Ok(TgdFile { bytes })
    }

    /// A file from its bytes.
    pub fn from_bytes(bytes: Vec<u8>) -> (file: TgdFile)
        ensures
            file@ == bytes@,
    {
        TgdFile { bytes }
    }

    /// The bytes of the file.
    pub fn as_bytes(&self) -> (bytes: &Vec<u8>)
        ensures
            bytes@ == self@,
    {
        &self.bytes
    }

    /// Reads names from a position on.
    fn read_names(&self, position: usize, limit: usize, count: usize) -> (result: Result<
        Vec<String>,
        EntroGdError,
    >)
        requires
            position <= limit <= self@.len(),
        ensures
            match read_names(self@, position as int, limit as int, count as nat) {
                Some((names, at)) => result matches Ok(found) && texts(found@) == names
                    && found@.len() == count,
                None => result matches Err(error) && error is InvalidMetadata,
            },
    {
        let mut names: Vec<String> = Vec::new();
        let mut at: usize = position;
        let mut i: usize = 0;
        proof {
            assert(texts(names@) =~= Seq::empty());
        }
        while i < count
            invariant
                i <= count,
                position <= at <= limit <= self@.len(),
                names@.len() == i,
                read_names(self@, position as int, limit as int, i as nat) == Some(
                    (texts(names@), at as int),
                ),
            decreases count - i,
        {
            if limit - at < 2 {
                proof {
                    unreadable_names(
                        self@,
                        position as int,
                        limit as int,
                        i as nat + 1,
                        count as nat,
                    );
                }
                return Err(bad_metadata("unexpected end of TGD names section"));
            }
            proof {
                lemma2_to64();
                le_value_bound(self@.subrange(at as int, at + 2));
            }
            let len: usize = read_le(&self.bytes, at, 2) as usize;
            if limit - at - 2 < len {
                proof {
                    unreadable_names(
                        self@,
                        position as int,
                        limit as int,
                        i as nat + 1,
                        count as nat,
                    );
                }
                return Err(bad_metadata("column name exceeds TGD names section"));
            }
            let ghost before = names@;
            match text_of_bytes(copy_bytes(&self.bytes, at + 2, at + 2 + len)) {
                Some(text) => {
                    names.push(text);
                },
                None => {
                    proof {
                        unreadable_names(
                            self@,
                            position as int,
                            limit as int,
                            i as nat + 1,
                            count as nat,
                        );
                    }
                    return Err(bad_metadata("invalid UTF-8 in TGD column name"));
                },
            }
            assert(texts(names@) =~= texts(before).push(names@[i as int]@));
            at = at + 2 + len;
            i += 1;
        }
        Ok(names)
    }

    /// Reads what stands before the compressed data, and where that begins.
    fn read_table_header(&self) -> (result: Result<
        (Vec<String>, Vec<ColumnDataType>, usize),
        EntroGdError,
    >)
        ensures
            match read_table_header(self@) {
                Some(((names, types), at)) => result matches Ok(found) && texts(found.0@) == names
                    && found.1@ == types && found.2 == at && at <= self@.len() && found.0@.len()
                    == names.len(),
                None => result matches Err(error) && error is InvalidMetadata,
            },
    {
        let bytes = &self.bytes;
        let total: usize = bytes.len();
        if total < 24 {
            return Err(bad_metadata("TGD file too short for outer header"));
        }
        proof {
            lemma2_to64();
            le_value_bound(self@.subrange(4, 8));
            le_value_bound(self@.subrange(8, 12));
            assert(TGD_MAGIC_BYTES@ =~= seq![84u8, 71, 68]);
            assert(self@.take(3)[0] == self@[0]);
            assert(self@.take(3)[1] == self@[1]);
            assert(self@.take(3)[2] == self@[2]);
            if self@[0] == 84 && self@[1] == 71 && self@[2] == 68 {
                assert(self@.take(3) =~= TGD_MAGIC_BYTES@);
            } else {
                assert(self@.take(3) != TGD_MAGIC_BYTES@);
            }
        }
        if bytes[0] != 84 || bytes[1] != 71 || bytes[2] != 68 {
            return Err(bad_metadata("invalid magic bytes (expected TGD)"));
        }
        if bytes[3] != TGD_FORMAT_VERSION {
            return Err(
                EntroGdError::InvalidMetadata {
                    message: numbered("unsupported TGD format version ", bytes[3] as usize),
                },
            );
        }
        let count: usize = read_le(bytes, 4, 4) as usize;
        let names_len: usize = read_le(bytes, 8, 4) as usize;
        if total - 12 < names_len || total - 12 - names_len < 4 {
            return Err(bad_metadata("TGD file too short for names section"));
        }
        let names_end: usize = 12 + names_len;
        let names = match self.read_names(12, names_end, count) {
            Ok(names) => names,
            Err(error) => {
                return Err(error);
            },
        };
        proof {
            le_value_bound(self@.subrange(names_end as int, names_end + 4));
        }
        let types_len: usize = read_le(bytes, names_end, 4) as usize;
        if types_len != count {
            return Err(
                EntroGdError::InvalidMetadata {
                    message: two_numbers(
                        "TGD dtypes count ",
                        types_len,
                        " does not match num_columns ",
                        count,
                    ),
                },
            );
        }
        let types_start: usize = names_end + 4;
        if total - types_start < count || total - types_start - count < 8 {
            return Err(bad_metadata("TGD file too short for dtypes section"));
        }
        let types_end: usize = types_start + count;
        let mut types: Vec<ColumnDataType> = Vec::new();
        let mut i: usize = 0;
        while i < count
            invariant
                i <= count,
                types_start + count <= self@.len() == total,
                types_start == names_end + 4,
                bytes@ == self@,
                types@ == Seq::new(i as nat, |k: int| tagged_column(self@[names_end + 4 + k])),
            decreases count - i,
        {
            types.push(decode_polars_dtype(bytes[types_start + i]));
            assert(types@ =~= Seq::new(
                i as nat + 1,
                |k: int| tagged_column(self@[names_end + 4 + k]),
            ));
            i += 1;
        }
        let payload_len: u64 = read_le(bytes, types_end, 8);
        if payload_len != (total - types_end - 8) as u64 {
            return Err(bad_metadata("TGD payload length does not match file size"));
        }
        Ok((names, types, types_end + 8))
    }

    /// The compressed table that the bytes of the file stand for.
    pub fn to_compressed_data(&self) -> (result: Result<CompressedData, EntroGdError>)
        requires
            8 * self@.len() <= MAX_STREAM_BITS,
        ensures
            match read_table_file(self@) {
                Some(data) => result matches Ok(found) && found@ == data && found.valid(),
                None => result matches Err(error) && error is InvalidMetadata,
            },
    {
        let (names, types, at) = match self.read_table_header() {
            Ok(found) => found,
            Err(error) => {
                return Err(error);
            },
        };
        let payload = copy_bytes(&self.bytes, at, self.bytes.len());
        assert(payload@ =~= self@.skip(at as int));
        let mut compressed = match EgdFile::from_bytes(payload).to_compressed_data() {
            Ok(data) => data,
            Err(error) => {
                return Err(error);
            },
        };
        let count: usize = compressed.metadata.num_features();
        if count != names.len() {
            return Err(
                EntroGdError::InvalidMetadata {
                    message: two_numbers(
                        "TGD num_columns ",
                        names.len(),
                        " does not match compressed feature count ",
                        count,
                    ),
                },
            );
        }
        compressed.metadata.reconstruction =
        BitDataReconstructionInfo::Tabular { column_names: names, original_dtypes: types };
        Ok(compressed)
    }
}

/// Names that cannot be read stay so with more names.
proof fn unreadable_names(bytes: Seq<u8>, position: int, limit: int, few: nat, many: nat)
    requires
        few <= many,
        read_names(bytes, position, limit, few) is None,
    ensures
        read_names(bytes, position, limit, many) is None,
    decreases many - few,
{
    if few < many {
        unreadable_names(bytes, position, limit, few, (many - 1) as nat);
    }
}

/// Names are found again from their bytes.
proof fn names_are_found(
    before: Seq<u8>,
    names: Seq<Seq<char>>,
    after: Seq<u8>,
    limit: int,
    count: nat,
)
    requires
        count <= names.len(),
        forall|i: int| 0 <= i < names.len() ==> encode_utf8(#[trigger] names[i]).len() <= u16::MAX,
        limit == before.len() + concat(name_parts(names)).len(),
    ensures
        read_names(
            before + concat(name_parts(names)) + after,
            before.len() as int,
            limit,
            count,
        ) == Some(
            (
                names.take(count as int),
                (before.len() + concat(name_parts(names).take(count as int)).len()) as int,
            ),
        ),
    decreases count,
{
    let parts = name_parts(names);
    let bytes = before + concat(parts) + after;
    if count == 0 {
        assert(names.take(0) =~= Seq::empty());
        assert(parts.take(0) =~= Seq::empty());
    } else {
        let k = count - 1;
        names_are_found(before, names, after, limit, k as nat);
        let text = encode_utf8(names[k]);
        let len = le_bytes(text.len(), 2);
        lemma2_to64();
        le_round_trip(text.len(), 2);
        encode_utf8_valid_utf8(names[k]);
        encode_utf8_decode_utf8(names[k]);
        let first = concat(parts.take(k));
        assert(parts[k] == len + text);
        assert(parts.take(k + 1) =~= parts.take(k).push(parts[k]));
        concat_push(parts.take(k), parts[k]);
        concat_is_prefix(parts, k + 1);
        let at = (before.len() + first.len()) as int;
        assert(concat(parts).take((first + (len + text)).len() as int) =~= first + (len + text));
        assert(bytes.subrange(at, at + 2) =~= len) by {
            assert forall|j: int| 0 <= j < 2 implies bytes[at + j] == len[j] by {
                assert(bytes[at + j] == concat(parts)[first.len() + j]);
                assert(concat(parts)[first.len() + j] == concat(parts).take(
                    (first + (len + text)).len() as int,
                )[first.len() + j]);
            }
        }
        assert(bytes.subrange(at + 2, at + 2 + text.len()) =~= text) by {
            assert forall|j: int| 0 <= j < text.len() implies bytes[at + 2 + j] == text[j] by {
                assert(bytes[at + 2 + j] == concat(parts)[first.len() + 2 + j]);
                assert(concat(parts)[first.len() + 2 + j] == concat(parts).take(
                    (first + (len + text)).len() as int,
                )[first.len() + 2 + j]);
            }
        }
        assert(names.take(count as int) =~= names.take(k).push(names[k]));
    }
}

/// The first of some parts stand at the beginning.
proof fn concat_is_prefix(parts: Seq<Seq<u8>>, n: int)
    requires
        0 <= n <= parts.len(),
    ensures
        concat(parts.take(n)).len() <= concat(parts).len(),
        concat(parts).take(concat(parts.take(n)).len() as int) == concat(parts.take(n)),
    decreases parts.len() - n,
{
    if n < parts.len() {
        concat_is_prefix(parts, n + 1);
        assert(parts.take(n + 1) =~= parts.take(n).push(parts[n]));
        concat_push(parts.take(n), parts[n]);
        let short = concat(parts.take(n));
        let long = concat(parts.take(n + 1));
        assert(concat(parts).take(short.len() as int) =~= concat(parts).take(
            long.len() as int,
        ).take(short.len() as int));
        assert(long.take(short.len() as int) =~= short);
    } else {
        assert(parts.take(n) =~= parts);
        assert(concat(parts).take(concat(parts).len() as int) =~= concat(parts));
    }
}

/// What stands before the compressed data is found again from its bytes.
#[verifier::spinoff_prover]
#[verifier::rlimit(50)]
proof fn table_header_is_found(
    names: Seq<Seq<char>>,
    types: Seq<ColumnDataType>,
    payload: Seq<u8>,
)
    requires
        0 < names.len() <= u32::MAX,
        types.len() == names.len(),
        forall|i: int| 0 <= i < types.len() ==> (#[trigger] types[i]) != ColumnDataType::Other,
        names_fit(names),
        payload.len() <= usize::MAX,
    ensures
        read_table_header(table_header(names, types, payload.len()) + payload) == Some(
            ((names, types), table_header(names, types, payload.len()).len() as int),
        ),
{
    let list = concat(name_parts(names));
    let magic = TGD_MAGIC_BYTES@ + seq![TGD_FORMAT_VERSION];
    let count = le_bytes(names.len(), 4);
    let size = le_bytes(list.len(), 4);
    let tags = column_tags(types);
    let len = le_bytes(payload.len(), 8);
    assert(le_value(count) == names.len() && count.len() == 4 && le_value(size) == list.len()
        && size.len() == 4 && le_value(len) == payload.len() && len.len() == 8) by {
        lemma2_to64();
        le_round_trip(names.len(), 4);
        le_round_trip(list.len(), 4);
        le_round_trip(payload.len(), 8);
    }
    assert(magic.len() == 4);
    let bytes = table_header(names, types, payload.len()) + payload;
    let head = magic + count + size;
    let names_end = (12 + list.len()) as int;
    assert(bytes =~= head + list + (count + tags + len + payload));
    names_are_found(head, names, count + tags + len + payload, names_end, names.len());
    assert(names.take(names.len() as int) =~= names);
    assert(bytes.take(3) =~= TGD_MAGIC_BYTES@);
    assert(bytes[3] == TGD_FORMAT_VERSION);
    assert(bytes.subrange(4, 8) =~= count);
    assert(bytes.subrange(8, 12) =~= size);
    assert(bytes.subrange(names_end, names_end + 4) =~= count);
    let types_end = names_end + 4 + types.len();
    assert(bytes.subrange(types_end, types_end + 8) =~= len);
    let found = Seq::new(names.len(), |i: int| tagged_column(bytes[names_end + 4 + i]));
    assert forall|i: int| 0 <= i < types.len() implies #[trigger] found[i] == types[i] by {
        assert(bytes[names_end + 4 + i] == tags[i]);
    }
    assert(found =~= types);
}

/// What is read of a table file is what was written to it.
pub proof fn table_file_is_read_back(
    data: CompressedView,
    names: Seq<Seq<char>>,
    types: Seq<ColumnDataType>,
)
    requires
        storable(data),
        data.metadata.reconstruction == (ReconstructionView::Tabular { names, types }),
        names.len() == data.metadata.features.len(),
        types.len() == names.len(),
        names.len() <= u32::MAX,
        forall|i: int| 0 <= i < types.len() ==> (#[trigger] types[i]) != ColumnDataType::Other,
        names_fit(names),
        file_bytes(data).len() <= usize::MAX,
    ensures
        read_table_file(table_file_bytes(names, types, data)) == Some(
            as_table(stored(data), names, types),
        ),
{
    let payload = file_bytes(data);
    let head = table_header(names, types, payload.len());
    table_header_is_found(names, types, payload);
    assert(table_file_bytes(names, types, data).skip(head.len() as int) =~= payload);
    file_is_read_back(data);
}

/// Whatever is read of the file of a table, its columns have the same names and types, and there are
/// the same features and as many original bits.
pub proof fn table_file_keeps_description(
    data: CompressedView,
    names: Seq<Seq<char>>,
    types: Seq<ColumnDataType>,
)
    requires
        0 < names.len() <= u32::MAX,
        names.len() == data.metadata.features.len(),
        types.len() == names.len(),
        forall|i: int| 0 <= i < types.len() ==> (#[trigger] types[i]) != ColumnDataType::Other,
        names_fit(names),
        data.layout.len() == features_width(data.metadata.features),
        forall|i: int|
            0 <= i < data.metadata.features.len() ==> (
            #[trigger] data.metadata.features[i]).data_type.width() > 0,
        shape_of(data).total <= usize::MAX,
        file_bytes(data).len() <= usize::MAX,
    ensures
        read_table_file(table_file_bytes(names, types, data)) matches Some(read) ==> {
            &&& read.metadata.reconstruction == (ReconstructionView::Tabular { names, types })
            &&& read.metadata.features == data.metadata.features
            &&& data.metadata.original_size_bits % features_width(data.metadata.features) == 0
                ==> read.metadata.original_size_bits == data.metadata.original_size_bits
        },
{
    let payload = file_bytes(data);
    let head = table_header(names, types, payload.len());
    table_header_is_found(names, types, payload);
    assert(table_file_bytes(names, types, data).skip(head.len() as int) =~= payload);
    if read_file(payload) is Some {
        file_keeps_description(data);
    }
}

} // verus!
