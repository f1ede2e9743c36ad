//! Compressed images as files: what is needed to put an image together again, and the compressed
//! data.
use vstd::arithmetic::power2::lemma2_to64;
use vstd::prelude::*;

use crate::bits::MAX_STREAM_BITS;
use crate::bytes::{
    append_be, append_bytes, be_bytes, be_round_trip, be_value, be_value_bound, copy_bytes, read_be,
};
use crate::data::{
    features_width, BitDataReconstructionInfo, ImageColorModel, ImageGroupingTransform,
    ImageReconstructionInfo, InfoView, PixelGrouping, ReconstructionView,
};
use crate::encoding::compressed::{CompressedData, CompressedView};
use crate::error::{bad_metadata, EntroGdError};
use crate::file_format::egd::{file_bytes, read_file, shape_of, writes, EgdFile};
use crate::file_format::egd_laws::{file_is_read_back, file_keeps_description, storable, stored};
use crate::file_format::egd_rows::encoded_fits;
use crate::text::{numbered, two_numbers};

verus! {

/// The first bytes of an image file.
pub const IMAGE_MAGIC_BYTES: [u8; 3] = [73, 71, 68];

/// The version of the format.
pub const IMAGE_FORMAT_VERSION: u8 = 1;

/// The 32 bytes before the compressed data: magic bytes, version, width and height of the image,
/// channels, colour space, colour model, grouping transform, width and height of a pixel group,
/// and the number of bytes that follow.
pub open spec fn image_header(info: ImageReconstructionInfo, payload_len: nat) -> Seq<u8> {
    IMAGE_MAGIC_BYTES@ + seq![IMAGE_FORMAT_VERSION] + be_bytes(info.width as nat, 4) + be_bytes(
        info.height as nat,
        4,
    ) + seq![
        info.channels,
        info.colorspace,
        info.color_model.code(),
        info.grouping_transform.code(),
    ] + be_bytes(info.pixel_grouping.0 as nat, 4) + be_bytes(info.pixel_grouping.1 as nat, 4)
        + be_bytes(payload_len, 8)
}

/// A compressed image as the bytes of a file.
pub open spec fn image_file_bytes(info: ImageReconstructionInfo, data: CompressedView) -> Seq<u8> {
    image_header(info, file_bytes(data).len()) + file_bytes(data)
}

/// The number of four bytes at a position, the most significant byte first.
pub open spec fn word_at(bytes: Seq<u8>, position: int) -> u32 {
    be_value(bytes.subrange(position, position + 4)) as u32
}

/// What the beginning of an image file says, if it is one.
pub open spec fn read_image_header(bytes: Seq<u8>) -> Option<ImageReconstructionInfo> {
    if bytes.len() < 32 || bytes.take(3) != IMAGE_MAGIC_BYTES@ || bytes[3] != IMAGE_FORMAT_VERSION {
        None
    } else if bytes[12] != 3 && bytes[12] != 4 {
        None
    } else if word_at(bytes, 16) == 0 || word_at(bytes, 20) == 0 {
        None
    } else if 32 + be_value(bytes.subrange(24, 32)) != bytes.len() {
        None
    } else {
        match (
            ImageColorModel::of_code(bytes[14]),
            ImageGroupingTransform::of_code(bytes[15]),
        ) {
            (Some(color_model), Some(grouping_transform)) => Some(
                ImageReconstructionInfo {
                    width: word_at(bytes, 4),
                    height: word_at(bytes, 8),
                    channels: bytes[12],
                    color_model,
                    pixel_grouping: PixelGrouping(word_at(bytes, 16), word_at(bytes, 20)),
                    grouping_transform,
                    colorspace: bytes[13],
                },
            ),
            _ => None,
        }
    }
}

/// Compressed data of an image.
pub open spec fn as_image(data: CompressedView, info: ImageReconstructionInfo) -> CompressedView {
    CompressedView {
        metadata: InfoView { reconstruction: ReconstructionView::Image(info), ..data.metadata },
        ..data
    }
}

/// The compressed image that the bytes of a file stand for, if they do.
pub open spec fn read_image_file(bytes: Seq<u8>) -> Option<CompressedView> {
    match read_image_header(bytes) {
        Some(info) => match read_file(bytes.skip(32)) {
            Some(data) => if data.metadata.features.len() == info.channels {
                Some(as_image(data, info))
            } else {
                None
            },
            None => None,
        },
        None => None,
    }
}

/// A compressed image as the bytes of a file.
#[derive(Debug, PartialEq, Eq)]
pub struct IgdFile {
    pub bytes: Vec<u8>,
}

impl View for IgdFile {
    type V = Seq<u8>;

    open spec fn view(&self) -> Seq<u8> {
        self.bytes@
    }
}

impl Clone for IgdFile {
    fn clone(&self) -> (copy: IgdFile)
        ensures
            copy@ == self@,
    {
        let bytes = copy_bytes(&self.bytes, 0, self.bytes.len());
        assert(bytes@ =~= self.bytes@);
        IgdFile { bytes }
    }
}

/// The bytes before the compressed data.
fn write_image_header(info: ImageReconstructionInfo, payload_len: usize) -> (bytes: Vec<u8>)
    ensures
        bytes@ == image_header(info, payload_len as nat),
{
    let mut bytes: Vec<u8> = Vec::new();
    bytes.push(73);
    bytes.push(71);
    bytes.push(68);
    bytes.push(IMAGE_FORMAT_VERSION);
    proof {
        assert(IMAGE_MAGIC_BYTES@ =~= seq![73u8, 71, 68]);
        assert(bytes@ =~= IMAGE_MAGIC_BYTES@ + seq![IMAGE_FORMAT_VERSION]);
    }
    append_be(&mut bytes, info.width as u64, 4);
    append_be(&mut bytes, info.height as u64, 4);
    let ghost before = bytes@;
    bytes.push(info.channels);
    bytes.push(info.colorspace);
    bytes.push(info.color_model.as_u8());
    bytes.push(info.grouping_transform.as_u8());
    assert(bytes@ =~= before + seq![
        info.channels,
        info.colorspace,
        info.color_model.code(),
        info.grouping_transform.code(),
    ]);
    append_be(&mut bytes, info.pixel_grouping.width() as u64, 4);
    append_be(&mut bytes, info.pixel_grouping.height() as u64, 4);
    append_be(&mut bytes, payload_len as u64, 8);
    bytes
}

impl IgdFile {
    /// A compressed image as the bytes of a file.
    pub fn from_compressed_data(compressed: CompressedData) -> (result: Result<
        IgdFile,
        EntroGdError,
    >)
        requires
            compressed.valid(),
            2 * compressed@.layout.len() <= MAX_STREAM_BITS,
            encoded_fits(compressed@.encoded, shape_of(compressed@).width()),
        ensures
            result is Ok <==> compressed@.metadata.reconstruction is Image && writes(compressed@),
            result matches Ok(file) ==> file@ == image_file_bytes(
                compressed@.metadata.reconstruction->Image_0,
                compressed@,
            ),
            result matches Err(error) ==> error is InvalidMetadata,
    {
        let info: ImageReconstructionInfo = match &compressed.metadata.reconstruction {
            BitDataReconstructionInfo::Image(info) => *info,
            BitDataReconstructionInfo::Tabular { .. } => {
                return Err(
                    bad_metadata("cannot build IGD from non-image reconstruction metadata"),
                );
            },
        };
        let payload = match EgdFile::from_compressed_data(compressed) {
            Ok(file) => file.bytes,
            Err(error) => {
                return Err(error);
            },
        };
        let mut bytes = write_image_header(info, payload.len());
        append_bytes(&mut bytes, &payload);
        Ok(IgdFile { bytes })
    }

    /// A file from its bytes.
    pub fn from_bytes(bytes: Vec<u8>) -> (file: IgdFile)
        ensures
            file@ == bytes@,
    {
        IgdFile { bytes }
    }

    /// The bytes of the file.
    pub fn as_bytes(&self) -> (bytes: &Vec<u8>)
        ensures
            bytes@ == self@,
    {
        &self.bytes
    }

    /// Reads the number of four bytes at a position.
    fn word(&self, position: usize) -> (value: u32)
        requires
            position + 4 <= self@.len(),
        ensures
            value == word_at(self@, position as int),
    {
        proof {
            lemma2_to64();
            be_value_bound(self@.subrange(position as int, position + 4));
        }
        read_be(&self.bytes, position, 4) as u32
    }

    /// Reads what stands before the compressed data.
    fn read_image_header(&self) -> (result: Result<ImageReconstructionInfo, EntroGdError>)
        ensures
            match read_image_header(self@) {
                Some(info) => result == Ok::<ImageReconstructionInfo, EntroGdError>(info)
                    && self@.len() >= 32,
                None => result matches Err(error) && error is InvalidMetadata,
            },
    {
        let bytes = &self.bytes;
        if bytes.len() < 32 {
            return Err(bad_metadata("IGD file too short"));
        }
        proof {
            assert(IMAGE_MAGIC_BYTES@ =~= seq![73u8, 71, 68]);
            assert(self@.take(3)[0] == self@[0]);
            assert(self@.take(3)[1] == self@[1]);
            assert(self@.take(3)[2] == self@[2]);
            if self@[0] == 73 && self@[1] == 71 && self@[2] == 68 {
                assert(self@.take(3) =~= IMAGE_MAGIC_BYTES@);
            } else {
                assert(self@.take(3) != IMAGE_MAGIC_BYTES@);
            }
        }
        if bytes[0] != 73 || bytes[1] != 71 || bytes[2] != 68 {
            return Err(bad_metadata("invalid magic bytes (expected IGD)"));
        }
        if bytes[3] != IMAGE_FORMAT_VERSION {
            return Err(
                EntroGdError::InvalidMetadata {
                    message: numbered("unsupported IGD format version ", bytes[3] as usize),
                },
            );
        }
        let width: u32 = self.word(4);
        let height: u32 = self.word(8);
        let channels: u8 = bytes[12];
        let colorspace: u8 = bytes[13];
        let color_model = match ImageColorModel::from_u8(bytes[14]) {
            Ok(model) => model,
            Err(error) => {
                return Err(error);
            },
        };
        if channels != 3 && channels != 4 {
            return Err(
                EntroGdError::InvalidMetadata {
                    message: numbered(
                        "unsupported channel count in IGD metadata: ",
                        channels as usize,
                    ),
                },
            );
        }
        let grouping_transform = match ImageGroupingTransform::from_u8(bytes[15]) {
            Ok(transform) => transform,
            Err(error) => {
                return Err(error);
            },
        };
        let group_width: u32 = self.word(16);
        let group_height: u32 = self.word(20);
        if group_width == 0 || group_height == 0 {
            return Err(bad_metadata("IGD pixel_grouping width and height must be > 0"));
        }
        let payload_len: u64 = read_be(bytes, 24, 8);
        if payload_len != (bytes.len() - 32) as u64 {
            return Err(bad_metadata("IGD payload length does not match file size"));
        }
        Ok(
            ImageReconstructionInfo {
                width,
                height,
                channels,
                color_model,
                pixel_grouping: PixelGrouping::new(group_width, group_height),
                grouping_transform,
                colorspace,
            },
        )
    }

    /// The compressed image that the bytes of the file stand for.
    pub fn to_compressed_data(&self) -> (result: Result<CompressedData, EntroGdError>)
        requires
            8 * self@.len() <= MAX_STREAM_BITS,
        ensures
            match read_image_file(self@) {
                Some(data) => result matches Ok(found) && found@ == data && found.valid(),
                None => result matches Err(error) && error is InvalidMetadata,
            },
    {
        let info = match self.read_image_header() {
            Ok(info) => info,
            Err(error) => {
                return Err(error);
            },
        };
        let payload = copy_bytes(&self.bytes, 32, self.bytes.len());
        assert(payload@ =~= self@.skip(32));
        let mut compressed = match EgdFile::from_bytes(payload).to_compressed_data() {
            Ok(data) => data,
            Err(error) => {
                return Err(error);
            },
        };
        let count: usize = compressed.metadata.num_features();
        if count != info.channels as usize {
            return Err(
                EntroGdError::InvalidMetadata {
                    message: two_numbers(
                        "IGD channels ",
                        info.channels as usize,
                        " do not match compressed feature count ",
                        count,
                    ),
                },
            );
        }
        compressed.metadata.reconstruction = BitDataReconstructionInfo::Image(info);
        Ok(compressed)
    }
}

/// What stands before the compressed data is found again from its bytes.
#[verifier::spinoff_prover]
#[verifier::rlimit(50)]
proof fn image_header_is_found(info: ImageReconstructionInfo, payload: Seq<u8>)
    requires
        info.channels == 3 || info.channels == 4,
        info.pixel_grouping.0 > 0,
        info.pixel_grouping.1 > 0,
        payload.len() <= usize::MAX,
    ensures
        image_header(info, payload.len()).len() == 32,
        read_image_header(image_header(info, payload.len()) + payload) == Some(info),
{
    let width = be_bytes(info.width as nat, 4);
    let height = be_bytes(info.height as nat, 4);
    let across = be_bytes(info.pixel_grouping.0 as nat, 4);
    let down = be_bytes(info.pixel_grouping.1 as nat, 4);
    let len = be_bytes(payload.len(), 8);
    let codes = seq![
        info.channels,
        info.colorspace,
        info.color_model.code(),
        info.grouping_transform.code(),
    ];
    assert(be_value(width) == info.width && width.len() == 4 && be_value(height) == info.height
        && height.len() == 4 && be_value(across) == info.pixel_grouping.0 && across.len() == 4
        && be_value(down) == info.pixel_grouping.1 && down.len() == 4 && be_value(len)
        == payload.len() && len.len() == 8) by {
        lemma2_to64();
        be_round_trip(info.width as nat, 4);
        be_round_trip(info.height as nat, 4);
        be_round_trip(info.pixel_grouping.0 as nat, 4);
        be_round_trip(info.pixel_grouping.1 as nat, 4);
        be_round_trip(payload.len(), 8);
    }
    let magic = IMAGE_MAGIC_BYTES@;
    let version = seq![IMAGE_FORMAT_VERSION];
    let bytes = magic + version + width + height + codes + across + down + len + payload;
    assert(bytes == image_header(info, payload.len()) + payload);
    assert(bytes.take(3) =~= magic);
    assert(bytes[3] == IMAGE_FORMAT_VERSION);
    assert(bytes.subrange(4, 8) =~= width);
    assert(bytes.subrange(8, 12) =~= height);
    assert(bytes[12] == codes[0] && bytes[13] == codes[1] && bytes[14] == codes[2] && bytes[15]
        == codes[3]);
    assert(bytes.subrange(16, 20) =~= across);
    assert(bytes.subrange(20, 24) =~= down);
    assert(bytes.subrange(24, 32) =~= len);
}

/// What is read of an image file is what was written to it.
pub proof fn image_file_is_read_back(data: CompressedView, info: ImageReconstructionInfo)
    requires
        storable(data),
        data.metadata.reconstruction == ReconstructionView::Image(info),
        info.channels == 3 || info.channels == 4,
        data.metadata.features.len() == info.channels,
        info.pixel_grouping.0 > 0,
        info.pixel_grouping.1 > 0,
        file_bytes(data).len() <= usize::MAX,
    ensures
        read_image_file(image_file_bytes(info, data)) == Some(as_image(stored(data), info)),
{
    let payload = file_bytes(data);
    let bytes = image_file_bytes(info, data);
    image_header_is_found(info, payload);
    assert(bytes.skip(32) =~= payload);
    file_is_read_back(data);
}

/// Whatever is read of the file of an image, it is the same kind of image, with the same features and
/// as many original bits.
pub proof fn image_file_keeps_description(data: CompressedView, info: ImageReconstructionInfo)
    requires
        info.channels == 3 || info.channels == 4,
        data.metadata.features.len() == info.channels,
        info.pixel_grouping.0 > 0,
        info.pixel_grouping.1 > 0,
        data.layout.len() == features_width(data.metadata.features),
        forall|i: int|
            0 <= i < data.metadata.features.len() ==> (
            #[trigger] data.metadata.features[i]).data_type.width() > 0,
        shape_of(data).total <= usize::MAX,
        file_bytes(data).len() <= usize::MAX,
    ensures
        read_image_file(image_file_bytes(info, data)) matches Some(read) ==> {
            &&& read.metadata.reconstruction == ReconstructionView::Image(info)
            &&& read.metadata.features == data.metadata.features
            &&& data.metadata.original_size_bits % features_width(data.metadata.features) == 0
                ==> read.metadata.original_size_bits == data.metadata.original_size_bits
        },
{
    let payload = file_bytes(data);
    let bytes = image_file_bytes(info, data);
    image_header_is_found(info, payload);
    assert(bytes.skip(32) =~= payload);
    if read_file(payload) is Some {
        file_keeps_description(data);
    }
}

/// A file of an image with bytes added to it is refused.
pub proof fn longer_image_file_is_refused(bytes: Seq<u8>, more: Seq<u8>)
    requires
        read_image_file(bytes) is Some,
        more.len() > 0,
    ensures
        read_image_file(bytes + more) is None,
{
    assert((bytes + more).subrange(24, 32) =~= bytes.subrange(24, 32));
}

/// A file of an image with bytes cut off is refused.
pub proof fn shorter_image_file_is_refused(bytes: Seq<u8>, n: int)
    requires
        read_image_file(bytes) is Some,
        0 <= n < bytes.len(),
    ensures
        read_image_file(bytes.take(n)) is None,
{
    if n >= 32 {
        assert(bytes.take(n).subrange(24, 32) =~= bytes.subrange(24, 32));
    }
}

} // verus!
