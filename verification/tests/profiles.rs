//! Profiles of pipelines.
use entro_gd::data::{ImageColorModel, ImageGroupingTransform};
use entro_gd::error::EntroGdError;
use entro_gd::pipeline_profiles::choices::{
    ConfigEncodeImpl, ConfigFloatScalingMode, ConfigFloatStorage, ConfigImageColorModel,
    ConfigImageColorSpace, ConfigImageGroupingTransform, ConfigMissingValuePolicy,
    ConfigSelectBasesImpl, EncodeImpl, FloatStorage, MissingValuePolicy, SelectBasesImpl,
};
use entro_gd::pipeline_profiles::combinations::{advance, for_each_combination};
use entro_gd::pipeline_profiles::config::ExperimentRunnerConfigFile;
use entro_gd::pipeline_profiles::groups::{
    expand_csv_group, expand_image_group, CsvPreprocessSweepConfig, CsvProfileGroupConfig,
    ImageBuildSweepConfig, ImageProfileGroupConfig,
};
use entro_gd::pipeline_profiles::profiles::{
    CsvPipelineProfile, CsvPipelineProfileConfig, ImageBuildConfigSerializable,
    ImagePipelineProfile, ImagePipelineProfileConfig, PipelineProfileSet,
};
use entro_gd::pipeline_profiles::sweeps::{
    expand_u32_range, expand_u8_range, expand_u8_sweep, expand_usize_range, expand_usize_sweep,
    IntegerRangeU32, IntegerRangeU8, IntegerRangeUsize, IntegerSweepU32, IntegerSweepU8,
    IntegerSweepUsize,
};
use entro_gd::tabular_processor::columns::FloatScalingMode;

#[test]
fn ranges_of_numbers() {
    let range = |start, end, step| IntegerRangeUsize { start, end, step };
    assert_eq!(expand_usize_range(&range(0, 10, 4)).unwrap(), vec![0, 4, 8]);
    assert_eq!(expand_usize_range(&range(3, 3, 1)).unwrap(), vec![3]);
    assert!(expand_usize_range(&range(0, 10, 0)).is_err());
    assert!(expand_usize_range(&range(5, 4, 1)).is_err());
    assert_eq!(
        expand_u8_range(&IntegerRangeU8 { start: 250, end: 255, step: 3 }).unwrap(),
        vec![250, 253]
    );
    assert_eq!(
        expand_u32_range(&IntegerRangeU32 { start: u32::MAX, end: u32::MAX, step: 7 }).unwrap(),
        vec![u32::MAX]
    );
}

#[test]
fn sweeps_of_numbers() {
    assert_eq!(expand_usize_sweep(&None, 9).unwrap(), vec![9]);
    let values = Some(IntegerSweepUsize { values: Some(vec![5, 1]), range: None });
    assert_eq!(expand_usize_sweep(&values, 9).unwrap(), vec![5, 1]);
    let range = Some(IntegerSweepU8 {
        values: None,
        range: Some(IntegerRangeU8 { start: 1, end: 3, step: 1 }),
    });
    assert_eq!(expand_u8_sweep(&range, 0).unwrap(), vec![1, 2, 3]);
}

#[test]
fn combinations_go_through_the_last_choice_first() {
    assert_eq!(
        for_each_combination(&vec![2, 3]),
        vec![
            vec![0, 0],
            vec![0, 1],
            vec![0, 2],
            vec![1, 0],
            vec![1, 1],
            vec![1, 2]
        ]
    );
    assert!(for_each_combination(&vec![2, 0]).is_empty());
    let mut index = vec![0usize, 2];
    assert!(advance(&mut index, &vec![2, 3]));
    assert_eq!(index, vec![1, 0]);
    let mut last = vec![1usize, 2];
    assert!(!advance(&mut last, &vec![2, 3]));
}

#[test]
fn profiles_without_configuration() {
    let profiles = PipelineProfileSet::default_profiles();
    let names: Vec<&str> = profiles.csv.iter().map(|p| p.name.as_str()).collect();
    assert_eq!(names, vec!["csv_fast", "csv_balanced", "csv_ratio"]);
    assert_eq!(profiles.csv[1].m_max, 25);
    assert_eq!(profiles.csv[2].encode_impl, EncodeImpl::Rle);
    assert_eq!(profiles.image.len(), 3);
    assert_eq!(profiles.image[2].build.color_model, ImageColorModel::YCoCgR);
    assert_eq!(profiles.image[2].build.grouping_transform, ImageGroupingTransform::ForMin);
    assert_eq!(profiles.image[0].patience, 6);
    let config = ExperimentRunnerConfigFile::default();
    assert_eq!(PipelineProfileSet::from_config(&config).unwrap(), profiles);
}

fn csv_config(name: &str) -> CsvPipelineProfileConfig {
    CsvPipelineProfileConfig {
        name: name.to_string(),
        has_headers: None,
        float_storage: Some(ConfigFloatStorage::F64),
        missing_value_policy: Some(ConfigMissingValuePolicy::Zero),
        preprocess: None,
        m_max: 3,
        patience: 4,
        select_impl: ConfigSelectBasesImpl::OptimizedV1,
        encode_impl: ConfigEncodeImpl::Rle,
    }
}

#[test]
fn profiles_of_a_configuration() {
    let csv = CsvPipelineProfile::from_config(&csv_config("mine")).unwrap();
    assert_eq!(csv.name, "mine");
    assert!(csv.has_headers);
    assert_eq!(csv.float_storage, FloatStorage::F64);
    assert_eq!(csv.missing_value_policy, MissingValuePolicy::Zero);
    assert_eq!(csv.preprocess.float_scaling, FloatScalingMode::ScaledOffsetSignedInt);
    assert_eq!(csv.select_impl, SelectBasesImpl::OptimizedV1);
    let image = ImagePipelineProfile::from_config(&ImagePipelineProfileConfig {
        name: "img".to_string(),
        build: ImageBuildConfigSerializable {
            colorspace: ConfigImageColorSpace::Linear,
            color_model: ConfigImageColorModel::YCoCg,
            pixel_grouping: 2,
            grouping_transform: ConfigImageGroupingTransform::Raw,
        },
        m_max: 0,
        patience: 1,
        select_impl: ConfigSelectBasesImpl::Naive,
        encode_impl: ConfigEncodeImpl::Naive,
    })
    .unwrap();
    assert_eq!(image.build.color_model, ImageColorModel::YCoCg);
    assert_eq!(image.build.pixel_grouping, 2);
}

#[test]
fn codes_are_not_for_tables() {
    let mut config = csv_config("mine");
    config.encode_impl = ConfigEncodeImpl::Huffman;
    match CsvPipelineProfile::from_config(&config) {
        Err(EntroGdError::InvalidMetadata { message }) => assert_eq!(
            message,
            "CSV profile 'mine' uses Huffman, which is currently disabled for CSV"
        ),
        _ => panic!("expected codes to be refused for tables"),
    }
}

fn csv_group() -> CsvProfileGroupConfig {
    CsvProfileGroupConfig {
        name: "grid".to_string(),
        has_headers: Some(vec![true, false]),
        float_storage: None,
        missing_value_policy: None,
        preprocess: Some(CsvPreprocessSweepConfig {
            float_scaling: Some(vec![ConfigFloatScalingMode::Disabled]),
            max_decimal_scale: Some(IntegerSweepU8 { values: Some(vec![1, 2]), range: None }),
            integer_zero_normalization: None,
        }),
        m_max: Some(IntegerSweepUsize { values: Some(vec![5]), range: None }),
        patience: None,
        select_impl: Some(vec![ConfigSelectBasesImpl::Naive]),
        encode_impl: Some(vec![ConfigEncodeImpl::Rle, ConfigEncodeImpl::Naive]),
    }
}

#[test]
fn groups_of_table_profiles() {
    let profiles = expand_csv_group(&csv_group()).unwrap();
    assert_eq!(profiles.len(), 8);
    assert!(profiles[0].name.starts_with("grid__000_m5_p"));
    assert!(profiles[0].name.ends_with("_selNaive_encRle"));
    assert!(profiles[7].name.starts_with("grid__007_m5_p"));
    assert!(profiles[7].name.ends_with("_selNaive_encNaive"));
    assert!(profiles[3].has_headers);
    assert!(!profiles[4].has_headers);
    assert_eq!(profiles[0].preprocess.decimal_scale, 1);
    assert_eq!(profiles[2].preprocess.decimal_scale, 2);
    let mut coded = csv_group();
    coded.encode_impl = Some(vec![ConfigEncodeImpl::Huffman]);
    match expand_csv_group(&coded) {
        Err(EntroGdError::InvalidMetadata { message }) => assert_eq!(
            message,
            "CSV group 'grid' includes Huffman, which is currently disabled for CSV"
        ),
        _ => panic!("expected codes to be refused for tables"),
    }
    let mut empty = csv_group();
    empty.encode_impl = Some(vec![]);
    assert!(matches!(
        expand_csv_group(&empty),
        Err(EntroGdError::InvalidMetadata { .. })
    ));
}

#[test]
fn groups_of_image_profiles() {
    let group = ImageProfileGroupConfig {
        name: "img".to_string(),
        build: Some(ImageBuildSweepConfig {
            colorspace: None,
            color_model: Some(vec![ConfigImageColorModel::Rgb, ConfigImageColorModel::YCoCgR]),
            pixel_grouping: Some(IntegerSweepU32 { values: Some(vec![1, 4]), range: None }),
            grouping_transform: Some(vec![ConfigImageGroupingTransform::ForMin]),
        }),
        m_max: None,
        patience: None,
        select_impl: Some(vec![ConfigSelectBasesImpl::OptimizedV3]),
        encode_impl: Some(vec![ConfigEncodeImpl::Optimized]),
    };
    let profiles = expand_image_group(&group).unwrap();
    let names: Vec<&str> = profiles.iter().map(|p| p.name.as_str()).collect();
    assert_eq!(
        names,
        vec![
            "img__000_cmRgb_pg1_gtForMin_selOptimizedV3_encOptimized",
            "img__001_cmRgb_pg4_gtForMin_selOptimizedV3_encOptimized",
            "img__002_cmYCoCgR_pg1_gtForMin_selOptimizedV3_encOptimized",
            "img__003_cmYCoCgR_pg4_gtForMin_selOptimizedV3_encOptimized"
        ]
    );
    assert_eq!(profiles[3].build.pixel_grouping, 4);
}

#[test]
fn configurations_mix_profiles_and_groups() {
    let mut config = ExperimentRunnerConfigFile::default();
    config.csv_profiles = Some(vec![csv_config("first")]);
    config.csv_profile_groups = Some(vec![csv_group()]);
    let profiles = PipelineProfileSet::from_config(&config).unwrap();
    assert_eq!(profiles.csv.len(), 9);
    assert_eq!(profiles.csv[0].name, "first");
}
