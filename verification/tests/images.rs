//! Images as datasets and back.
use entro_gd::data::{
    BitDataReconstructionInfo, ImageColorModel, ImageGroupingTransform, ImageReconstructionInfo,
    PixelGrouping, DEFAULT_ALIGN_ROWS_TO_WORD,
};
use entro_gd::dataset::BitDataSet;
use entro_gd::error::EntroGdError;
use entro_gd::image_preprocessor::builder::{BuildImageBitDataSet, ImageColorSpace};
use entro_gd::image_preprocessor::color::{
    convert_rgb_to_ycocg_channels, convert_rgb_to_ycocg_r_channels,
    convert_ycocg_r_to_rgb_channels,
};
use entro_gd::image_preprocessor::geometry::{grouped_channel_values_into, ImageGeometry};
use entro_gd::image_preprocessor::grouping::decode_grouped_feature;
use entro_gd::image_preprocessor::restore::restore_image;
use entro_gd::utils::{
    bits_needed_nonzero, min_position_bits, signed_half_wrapped, zigzag_decode_i16,
    zigzag_encode_i16,
};

fn builder(
    colorspace: ImageColorSpace,
    color_model: ImageColorModel,
    pixel_grouping: PixelGrouping,
    grouping_transform: ImageGroupingTransform,
    pad_rows_to_word: bool,
) -> BuildImageBitDataSet {
    BuildImageBitDataSet {
        colorspace,
        color_model,
        pixel_grouping,
        grouping_transform,
        pad_rows_to_word,
    }
}

fn feature(set: &BitDataSet, row: usize, channel: usize, pixels: usize, transform: ImageGroupingTransform) -> Vec<u8> {
    decode_grouped_feature(&set.get_feature(row, channel), pixels, transform).unwrap()
}

#[test]
fn loads_rgb_image_as_rows_times_channels() {
    let filter = builder(
        ImageColorSpace::SrgbWithLinearAlpha,
        ImageColorModel::Rgb,
        PixelGrouping(1, 1),
        ImageGroupingTransform::ForFirstPixel,
        DEFAULT_ALIGN_ROWS_TO_WORD,
    );
    let bit_data = filter.build(2, 1, 3, vec![10, 20, 30, 40, 50, 60]).unwrap();

    assert_eq!(bit_data.num_rows(), 2);
    assert_eq!(bit_data.num_features(), 3);
    assert_eq!(bit_data.chunk_size(), 24);
    assert_eq!(bit_data.info.original_size_bits(), 48);
    assert!(matches!(
        bit_data.info.reconstruction,
        BitDataReconstructionInfo::Image(ImageReconstructionInfo {
            width: 2,
            height: 1,
            channels: 3,
            color_model: ImageColorModel::Rgb,
            pixel_grouping: PixelGrouping(1, 1),
            grouping_transform: ImageGroupingTransform::ForFirstPixel,
            colorspace: 0
        })
    ));
}

#[test]
fn loads_rgba_image_with_four_features() {
    let filter = builder(
        ImageColorSpace::Linear,
        ImageColorModel::Rgb,
        PixelGrouping::new(1, 1),
        ImageGroupingTransform::ForFirstPixel,
        DEFAULT_ALIGN_ROWS_TO_WORD,
    );
    let bit_data = filter.build(1, 2, 4, vec![1, 2, 3, 4, 5, 6, 7, 8]).unwrap();

    assert_eq!(bit_data.num_rows(), 2);
    assert_eq!(bit_data.num_features(), 4);
    assert_eq!(bit_data.chunk_size(), 32);
    assert_eq!(bit_data.info.original_size_bits(), 64);
    assert!(matches!(
        bit_data.info.reconstruction,
        BitDataReconstructionInfo::Image(ImageReconstructionInfo {
            width: 1,
            height: 2,
            channels: 4,
            color_model: ImageColorModel::Rgb,
            pixel_grouping: PixelGrouping(1, 1),
            grouping_transform: ImageGroupingTransform::ForFirstPixel,
            colorspace: 1
        })
    ));
}

#[test]
fn zigzag_encoding_matches_expected_mapping() {
    assert_eq!(zigzag_encode_i16(0), 0);
    assert_eq!(zigzag_encode_i16(-1), 1);
    assert_eq!(zigzag_encode_i16(1), 2);
    assert_eq!(zigzag_encode_i16(-2), 3);
    assert_eq!(zigzag_encode_i16(2), 4);
    assert_eq!(zigzag_encode_i16(-3), 5);
    assert_eq!(zigzag_encode_i16(3), 6);

    assert_eq!(zigzag_decode_i16(0), 0);
    assert_eq!(zigzag_decode_i16(1), -1);
    assert_eq!(zigzag_decode_i16(2), 1);
    assert_eq!(zigzag_decode_i16(3), -2);
    assert_eq!(zigzag_decode_i16(4), 2);
    assert_eq!(zigzag_decode_i16(5), -3);
    assert_eq!(zigzag_decode_i16(6), 3);
}

#[test]
fn loads_grouped_rgb_pixels_into_wider_features() {
    let filter = builder(
        ImageColorSpace::SrgbWithLinearAlpha,
        ImageColorModel::Rgb,
        PixelGrouping(4, 1),
        ImageGroupingTransform::ForFirstPixel,
        DEFAULT_ALIGN_ROWS_TO_WORD,
    );
    let bit_data = filter
        .build(4, 1, 3, vec![1, 11, 21, 2, 12, 22, 3, 13, 23, 4, 14, 24])
        .unwrap();

    assert_eq!(bit_data.num_rows(), 1);
    assert_eq!(bit_data.num_features(), 3);
    assert_eq!(bit_data.feature_bits(0), 35);
    assert_eq!(bit_data.chunk_size(), 105);
    assert_eq!(bit_data.info.original_size_bits(), 105);
    let transform = ImageGroupingTransform::ForFirstPixel;
    assert_eq!(feature(&bit_data, 0, 0, 4, transform), vec![1, 2, 3, 4]);
    assert_eq!(feature(&bit_data, 0, 1, 4, transform), vec![11, 12, 13, 14]);
    assert_eq!(feature(&bit_data, 0, 2, 4, transform), vec![21, 22, 23, 24]);
    assert!(matches!(
        bit_data.info.reconstruction,
        BitDataReconstructionInfo::Image(ImageReconstructionInfo {
            width: 4,
            height: 1,
            channels: 3,
            color_model: ImageColorModel::Rgb,
            pixel_grouping: PixelGrouping(4, 1),
            grouping_transform: ImageGroupingTransform::ForFirstPixel,
            colorspace: 0
        })
    ));
}

#[test]
fn zero_pads_partial_group_at_row_end() {
    let filter = builder(
        ImageColorSpace::SrgbWithLinearAlpha,
        ImageColorModel::Rgb,
        PixelGrouping::new(4, 1),
        ImageGroupingTransform::ForFirstPixel,
        DEFAULT_ALIGN_ROWS_TO_WORD,
    );
    let bit_data = filter
        .build(3, 1, 3, vec![10, 20, 30, 40, 50, 60, 70, 80, 90])
        .unwrap();

    assert_eq!(bit_data.num_rows(), 1);
    assert_eq!(bit_data.feature_bits(0), 35);
    let transform = ImageGroupingTransform::ForFirstPixel;
    assert_eq!(feature(&bit_data, 0, 0, 4, transform), vec![10, 40, 70, 0]);
    assert_eq!(feature(&bit_data, 0, 1, 4, transform), vec![20, 50, 80, 0]);
    assert_eq!(feature(&bit_data, 0, 2, 4, transform), vec![30, 60, 90, 0]);
}

#[test]
fn loads_grouped_rgb_pixels_with_for_min() {
    let filter = builder(
        ImageColorSpace::SrgbWithLinearAlpha,
        ImageColorModel::Rgb,
        PixelGrouping::new(4, 1),
        ImageGroupingTransform::ForMin,
        DEFAULT_ALIGN_ROWS_TO_WORD,
    );
    let bit_data = filter
        .build(4, 1, 3, vec![9, 14, 21, 4, 18, 17, 7, 16, 19, 5, 15, 20])
        .unwrap();

    assert_eq!(bit_data.num_rows(), 1);
    assert_eq!(bit_data.feature_bits(0), 37);
    let transform = ImageGroupingTransform::ForMin;
    assert_eq!(feature(&bit_data, 0, 0, 4, transform), vec![9, 4, 7, 5]);
    assert_eq!(feature(&bit_data, 0, 1, 4, transform), vec![14, 18, 16, 15]);
    assert_eq!(feature(&bit_data, 0, 2, 4, transform), vec![21, 17, 19, 20]);
    assert!(matches!(
        bit_data.info.reconstruction,
        BitDataReconstructionInfo::Image(ImageReconstructionInfo {
            width: 4,
            height: 1,
            channels: 3,
            color_model: ImageColorModel::Rgb,
            pixel_grouping: PixelGrouping(4, 1),
            grouping_transform: ImageGroupingTransform::ForMin,
            colorspace: 0
        })
    ));
}

#[test]
fn encodes_rgb_as_ycocg_channels() {
    let filter = builder(
        ImageColorSpace::SrgbWithLinearAlpha,
        ImageColorModel::YCoCg,
        PixelGrouping::new(1, 1),
        ImageGroupingTransform::ForFirstPixel,
        DEFAULT_ALIGN_ROWS_TO_WORD,
    );
    let bit_data = filter.build(1, 1, 3, vec![10, 20, 30]).unwrap();

    let transform = ImageGroupingTransform::ForFirstPixel;
    assert_eq!(feature(&bit_data, 0, 0, 1, transform), vec![19]);
    assert_eq!(feature(&bit_data, 0, 1, 1, transform), vec![118]);
    assert_eq!(feature(&bit_data, 0, 2, 1, transform), vec![129]);
    assert!(matches!(
        bit_data.info.reconstruction,
        BitDataReconstructionInfo::Image(ImageReconstructionInfo {
            color_model: ImageColorModel::YCoCg,
            ..
        })
    ));
}

#[test]
fn leaves_alpha_unchanged_for_rgba_ycocg() {
    let filter = builder(
        ImageColorSpace::Linear,
        ImageColorModel::YCoCg,
        PixelGrouping::new(1, 1),
        ImageGroupingTransform::ForFirstPixel,
        DEFAULT_ALIGN_ROWS_TO_WORD,
    );
    let bit_data = filter.build(1, 1, 4, vec![100, 110, 120, 130]).unwrap();
    assert_eq!(
        feature(&bit_data, 0, 3, 1, ImageGroupingTransform::ForFirstPixel),
        vec![130]
    );
}

#[test]
fn encodes_rgb_as_ycocg_r_channels() {
    let filter = builder(
        ImageColorSpace::SrgbWithLinearAlpha,
        ImageColorModel::YCoCgR,
        PixelGrouping::new(1, 1),
        ImageGroupingTransform::ForFirstPixel,
        DEFAULT_ALIGN_ROWS_TO_WORD,
    );
    let bit_data = filter.build(1, 1, 3, vec![10, 20, 30]).unwrap();

    let transform = ImageGroupingTransform::ForFirstPixel;
    assert_eq!(feature(&bit_data, 0, 0, 1, transform), vec![20]);
    assert_eq!(feature(&bit_data, 0, 1, 1, transform), vec![108]);
    assert_eq!(feature(&bit_data, 0, 2, 1, transform), vec![128]);
}

#[test]
fn ycocg_r_roundtrip_is_reversible_for_sampled_rgb_space() {
    for r in (0u8..=255).step_by(17) {
        for g in (0u8..=255).step_by(17) {
            for b in (0u8..=255).step_by(17) {
                let original = vec![r, g, b];
                let mut transformed = original.clone();
                convert_rgb_to_ycocg_r_channels(&mut transformed, 3);
                let mut recovered = transformed.clone();
                convert_ycocg_r_to_rgb_channels(&mut recovered, 3);
                assert_eq!(recovered, original);
            }
        }
    }
}

#[test]
fn leaves_alpha_unchanged_for_rgba_ycocg_r() {
    let filter = builder(
        ImageColorSpace::Linear,
        ImageColorModel::YCoCgR,
        PixelGrouping::new(1, 1),
        ImageGroupingTransform::ForFirstPixel,
        DEFAULT_ALIGN_ROWS_TO_WORD,
    );
    let bit_data = filter.build(1, 1, 4, vec![100, 110, 120, 130]).unwrap();
    assert_eq!(
        feature(&bit_data, 0, 3, 1, ImageGroupingTransform::ForFirstPixel),
        vec![130]
    );
}

#[test]
fn honors_row_padding_flag_for_image_bitdata() {
    let raw = vec![1u8, 2, 3, 4, 5, 6];
    let compact = builder(
        ImageColorSpace::SrgbWithLinearAlpha,
        ImageColorModel::Rgb,
        PixelGrouping::new(1, 1),
        ImageGroupingTransform::ForFirstPixel,
        false,
    )
    .build(2, 1, 3, raw.clone())
    .unwrap();
    assert_eq!(compact.chunk_size(), 24);
    assert_eq!(compact.data.stride, 24);

    let padded = builder(
        ImageColorSpace::SrgbWithLinearAlpha,
        ImageColorModel::Rgb,
        PixelGrouping::new(1, 1),
        ImageGroupingTransform::ForFirstPixel,
        true,
    )
    .build(2, 1, 3, raw)
    .unwrap();
    assert_eq!(padded.chunk_size(), 24);
    assert_eq!(padded.data.stride, 64);
}

fn gradient(width: u32, height: u32, channels: u8) -> Vec<u8> {
    let count = width as usize * height as usize * channels as usize;
    (0..count).map(|i| ((i * 37 + i / 5) % 256) as u8).collect()
}

#[test]
fn images_are_restored_from_their_datasets() {
    for channels in [3u8, 4] {
        for transform in [
            ImageGroupingTransform::Raw,
            ImageGroupingTransform::ForFirstPixel,
            ImageGroupingTransform::ForMin,
        ] {
            for model in [ImageColorModel::Rgb, ImageColorModel::YCoCgR] {
                for grouping in [PixelGrouping(1, 1), PixelGrouping(3, 2), PixelGrouping(8, 1)] {
                    for pad in [false, true] {
                        let raw = gradient(7, 5, channels);
                        let set = builder(
                            ImageColorSpace::SrgbWithLinearAlpha,
                            model,
                            grouping,
                            transform,
                            pad,
                        )
                        .build(7, 5, channels, raw.clone())
                        .unwrap();
                        assert_eq!(restore_image(&set).unwrap(), raw);
                    }
                }
            }
        }
    }
}

#[test]
fn rounded_colors_are_not_restored() {
    let set = builder(
        ImageColorSpace::SrgbWithLinearAlpha,
        ImageColorModel::YCoCg,
        PixelGrouping(1, 1),
        ImageGroupingTransform::Raw,
        false,
    )
    .build(2, 2, 3, gradient(2, 2, 3))
    .unwrap();
    assert!(matches!(
        restore_image(&set),
        Err(EntroGdError::InvalidMetadata { .. })
    ));
}

#[test]
fn images_that_contradict_themselves_are_refused() {
    let filter = BuildImageBitDataSet::default();
    assert_eq!(filter.grouping_transform, ImageGroupingTransform::Raw);
    assert!(filter.build(2, 2, 3, vec![0; 11]).is_err());
    assert!(filter.build(2, 2, 2, vec![0; 8]).is_err());
    assert!(filter.build(2, 2, 3, vec![0; 12]).is_ok());
    let empty_groups = builder(
        ImageColorSpace::Linear,
        ImageColorModel::Rgb,
        PixelGrouping(0, 1),
        ImageGroupingTransform::Raw,
        false,
    );
    assert!(empty_groups.build(2, 2, 3, vec![0; 12]).is_err());
}

#[test]
fn colors_are_converted_pixel_by_pixel() {
    let mut raw = vec![10u8, 20, 30, 7, 100, 110, 120, 9];
    convert_rgb_to_ycocg_channels(&mut raw, 4);
    assert_eq!(raw[0..4], [19, 118, 129, 7]);
    assert_eq!(raw[7], 9);
    let mut exact = vec![10u8, 20, 30, 255, 0, 255];
    convert_rgb_to_ycocg_r_channels(&mut exact, 3);
    assert_eq!(exact[0..3], [20, 108, 128]);
    convert_ycocg_r_to_rgb_channels(&mut exact, 3);
    assert_eq!(exact, vec![10, 20, 30, 255, 0, 255]);
}

#[test]
fn widths_of_numbers() {
    let expected = [(0usize, 1usize), (1, 1), (2, 1), (3, 2), (4, 2), (5, 3), (256, 8), (257, 9)];
    for (value, bits) in expected {
        assert_eq!(bits_needed_nonzero(value), bits);
        assert_eq!(min_position_bits(value), if value <= 1 { 0 } else { bits });
    }
    assert_eq!(bits_needed_nonzero(usize::MAX), 64);
    assert_eq!(signed_half_wrapped(7), 3);
    assert_eq!(signed_half_wrapped(255), 255);
    assert_eq!(signed_half_wrapped(128), 192);
    for value in [-32768i16, -300, -1, 0, 1, 299, 32767] {
        assert_eq!(zigzag_decode_i16(zigzag_encode_i16(value)), value);
    }
}

#[test]
fn groups_reach_over_the_edge_of_an_image() {
    let geometry =
        ImageGeometry { width: 3, height: 2, channels: 2, group_width: 2, group_height: 2 };
    let raw: Vec<u8> = (1..=12).collect();
    let values = |group_x: usize, group_y: usize| {
        let mut out = vec![9u8; 4];
        grouped_channel_values_into(&raw, &geometry, group_x, group_y, 1, &mut out);
        out
    };
    assert_eq!(values(0, 0), vec![2, 4, 8, 10]);
    assert_eq!(values(1, 0), vec![6, 0, 12, 0]);
    assert_eq!(values(0, 1), vec![0; 4]);
    assert_eq!(values(7, 0), vec![0; 4]);
    assert_eq!(values(usize::MAX, usize::MAX), vec![0; 4]);
}
