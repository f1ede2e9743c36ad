//! The report on runs as a table of comma-separated cells.
use vstd::prelude::*;

use crate::data::{texts, ImageColorModel, ImageGroupingTransform};
use crate::image_preprocessor::builder::ImageColorSpace;
use crate::pipeline_profiles::choices::{
    EncodeImpl, FloatStorage, MissingValuePolicy, SelectBasesImpl,
};
use crate::pipeline_profiles::profiles::{
    CsvPipelineProfile, CsvProfileView, ImagePipelineProfile, ImageProfileView,
};
use crate::pipeline_runner::inputs::InputKind;
use crate::pipeline_runner::sizes::CompressedSizeBreakdownBits;
use crate::tabular_processor::columns::FloatScalingMode;
use crate::text::{append_text, decimal, decimal_text, same_text};

verus! {

/// The name of a kind of input.
pub open spec fn kind_label(kind: InputKind) -> Seq<char> {
    match kind {
        InputKind::Csv => "Csv"@,
        InputKind::Image => "Image"@,
        InputKind::Unsupported => "Unsupported"@,
    }
}

fn kind_name(kind: InputKind) -> (text: &'static str)
    ensures
        text@ == kind_label(kind),
{
    match kind {
        InputKind::Csv => "Csv",
        InputKind::Image => "Image",
        InputKind::Unsupported => "Unsupported",
    }
}

/// The name of a way to choose base bits.
pub open spec fn select_label(choice: SelectBasesImpl) -> Seq<char> {
    match choice {
        SelectBasesImpl::Naive => "Naive"@,
        SelectBasesImpl::OptimizedV1 => "OptimizedV1"@,
        SelectBasesImpl::OptimizedV2 => "OptimizedV2"@,
        SelectBasesImpl::OptimizedV3 => "OptimizedV3"@,
    }
}

fn select_name(choice: SelectBasesImpl) -> (text: &'static str)
    ensures
        text@ == select_label(choice),
{
    match choice {
        SelectBasesImpl::Naive => "Naive",
        SelectBasesImpl::OptimizedV1 => "OptimizedV1",
        SelectBasesImpl::OptimizedV2 => "OptimizedV2",
        SelectBasesImpl::OptimizedV3 => "OptimizedV3",
    }
}

/// The name of a way to encode rows.
pub open spec fn encode_label(choice: EncodeImpl) -> Seq<char> {
    match choice {
        EncodeImpl::Naive => "Naive"@,
        EncodeImpl::Optimized => "Optimized"@,
        EncodeImpl::Rle => "Rle"@,
        EncodeImpl::Huffman => "Huffman"@,
    }
}

fn encode_name(choice: EncodeImpl) -> (text: &'static str)
    ensures
        text@ == encode_label(choice),
{
    match choice {
        EncodeImpl::Naive => "Naive",
        EncodeImpl::Optimized => "Optimized",
        EncodeImpl::Rle => "Rle",
        EncodeImpl::Huffman => "Huffman",
    }
}

/// The name of a float type.
pub open spec fn storage_label(choice: FloatStorage) -> Seq<char> {
    match choice {
        FloatStorage::F32 => "F32"@,
        FloatStorage::F64 => "F64"@,
    }
}

fn storage_name(choice: FloatStorage) -> (text: &'static str)
    ensures
        text@ == storage_label(choice),
{
    match choice {
        FloatStorage::F32 => "F32",
        FloatStorage::F64 => "F64",
    }
}

/// The name of a treatment of missing values.
pub open spec fn missing_label(choice: MissingValuePolicy) -> Seq<char> {
    match choice {
        MissingValuePolicy::Error => "Error"@,
        MissingValuePolicy::Zero => "Zero"@,
    }
}

fn missing_name(choice: MissingValuePolicy) -> (text: &'static str)
    ensures
        text@ == missing_label(choice),
{
    match choice {
        MissingValuePolicy::Error => "Error",
        MissingValuePolicy::Zero => "Zero",
    }
}

/// The name of a way to scale floats.
pub open spec fn scaling_label(choice: FloatScalingMode) -> Seq<char> {
    match choice {
        FloatScalingMode::Disabled => "Disabled"@,
        FloatScalingMode::ScaledSignedInt => "ScaledSignedInt"@,
        FloatScalingMode::ScaledOffsetSignedInt => "ScaledOffsetSignedInt"@,
    }
}

fn scaling_name(choice: FloatScalingMode) -> (text: &'static str)
    ensures
        text@ == scaling_label(choice),
{
    match choice {
        FloatScalingMode::Disabled => "Disabled",
        FloatScalingMode::ScaledSignedInt => "ScaledSignedInt",
        FloatScalingMode::ScaledOffsetSignedInt => "ScaledOffsetSignedInt",
    }
}

/// The name of a colour space.
pub open spec fn colorspace_label(choice: ImageColorSpace) -> Seq<char> {
    match choice {
        ImageColorSpace::SrgbWithLinearAlpha => "SrgbWithLinearAlpha"@,
        ImageColorSpace::Linear => "Linear"@,
    }
}

fn colorspace_name(choice: ImageColorSpace) -> (text: &'static str)
    ensures
        text@ == colorspace_label(choice),
{
    match choice {
        ImageColorSpace::SrgbWithLinearAlpha => "SrgbWithLinearAlpha",
        ImageColorSpace::Linear => "Linear",
    }
}

/// The name of a colour model.
pub open spec fn model_label(choice: ImageColorModel) -> Seq<char> {
    match choice {
        ImageColorModel::Rgb => "Rgb"@,
        ImageColorModel::YCoCg => "YCoCg"@,
        ImageColorModel::YCoCgR => "YCoCgR"@,
    }
}

fn model_name(choice: ImageColorModel) -> (text: &'static str)
    ensures
        text@ == model_label(choice),
{
    match choice {
        ImageColorModel::Rgb => "Rgb",
        ImageColorModel::YCoCg => "YCoCg",
        ImageColorModel::YCoCgR => "YCoCgR",
    }
}

/// The name of a grouping transform.
pub open spec fn transform_label(choice: ImageGroupingTransform) -> Seq<char> {
    match choice {
        ImageGroupingTransform::Raw => "Raw"@,
        ImageGroupingTransform::ForFirstPixel => "ForFirstPixel"@,
        ImageGroupingTransform::ForMin => "ForMin"@,
    }
}

fn transform_name(choice: ImageGroupingTransform) -> (text: &'static str)
    ensures
        text@ == transform_label(choice),
{
    match choice {
        ImageGroupingTransform::Raw => "Raw",
        ImageGroupingTransform::ForFirstPixel => "ForFirstPixel",
        ImageGroupingTransform::ForMin => "ForMin",
    }
}

/// The settings of a run, as far as they apply to its input.
#[derive(Debug, PartialEq, Eq)]
pub struct ExperimentConfigColumns {
    pub csv_has_headers: Option<bool>,
    pub csv_float_storage: Option<String>,
    pub csv_missing_value_policy: Option<String>,
    pub csv_float_scaling: Option<String>,
    pub csv_max_decimal_scale: Option<u8>,
    pub csv_integer_zero_normalization: Option<bool>,
    pub entropy_impl: Option<String>,
    pub entropy_skip_rows: Option<usize>,
    pub use_condensed_samples: Option<bool>,
    pub base_table_impl: Option<String>,
    pub delta_encode_base_table: Option<bool>,
    pub image_colorspace: Option<String>,
    pub image_color_model: Option<String>,
    pub image_pixel_grouping: Option<u32>,
    pub image_grouping_transform: Option<String>,
}

/// The content of the settings of a run.
#[verifier::ext_equal]
pub struct ColumnsView {
    pub csv_has_headers: Option<bool>,
    pub csv_float_storage: Option<Seq<char>>,
    pub csv_missing_value_policy: Option<Seq<char>>,
    pub csv_float_scaling: Option<Seq<char>>,
    pub csv_max_decimal_scale: Option<nat>,
    pub csv_integer_zero_normalization: Option<bool>,
    pub entropy_impl: Option<Seq<char>>,
    pub entropy_skip_rows: Option<nat>,
    pub use_condensed_samples: Option<bool>,
    pub base_table_impl: Option<Seq<char>>,
    pub delta_encode_base_table: Option<bool>,
    pub image_colorspace: Option<Seq<char>>,
    pub image_color_model: Option<Seq<char>>,
    pub image_pixel_grouping: Option<nat>,
    pub image_grouping_transform: Option<Seq<char>>,
}

/// The content of an optional text.
pub open spec fn string_view(text: Option<String>) -> Option<Seq<char>> {
    match text {
        Some(found) => Some(found@),
        None => None,
    }
}

impl View for ExperimentConfigColumns {
    type V = ColumnsView;

    open spec fn view(&self) -> ColumnsView {
        ColumnsView {
            csv_has_headers: self.csv_has_headers,
            csv_float_storage: string_view(self.csv_float_storage),
            csv_missing_value_policy: string_view(self.csv_missing_value_policy),
            csv_float_scaling: string_view(self.csv_float_scaling),
            csv_max_decimal_scale: match self.csv_max_decimal_scale {
                Some(value) => Some(value as nat),
                None => None,
            },
            csv_integer_zero_normalization: self.csv_integer_zero_normalization,
            entropy_impl: string_view(self.entropy_impl),
            entropy_skip_rows: match self.entropy_skip_rows {
                Some(value) => Some(value as nat),
                None => None,
            },
            use_condensed_samples: self.use_condensed_samples,
            base_table_impl: string_view(self.base_table_impl),
            delta_encode_base_table: self.delta_encode_base_table,
            image_colorspace: string_view(self.image_colorspace),
            image_color_model: string_view(self.image_color_model),
            image_pixel_grouping: match self.image_pixel_grouping {
                Some(value) => Some(value as nat),
                None => None,
            },
            image_grouping_transform: string_view(self.image_grouping_transform),
        }
    }
}

/// The settings where nothing is known of them.
pub open spec fn no_columns() -> ColumnsView {
    ColumnsView {
        csv_has_headers: None,
        csv_float_storage: None,
        csv_missing_value_policy: None,
        csv_float_scaling: None,
        csv_max_decimal_scale: None,
        csv_integer_zero_normalization: None,
        entropy_impl: None,
        entropy_skip_rows: None,
        use_condensed_samples: None,
        base_table_impl: None,
        delta_encode_base_table: None,
        image_colorspace: None,
        image_color_model: None,
        image_pixel_grouping: None,
        image_grouping_transform: None,
    }
}

impl Default for ExperimentConfigColumns {
    fn default() -> (columns: ExperimentConfigColumns)
        ensures
            columns@ == no_columns(),
    {
        ExperimentConfigColumns {
            csv_has_headers: None,
            csv_float_storage: None,
            csv_missing_value_policy: None,
            csv_float_scaling: None,
            csv_max_decimal_scale: None,
            csv_integer_zero_normalization: None,
            entropy_impl: None,
            entropy_skip_rows: None,
            use_condensed_samples: None,
            base_table_impl: None,
            delta_encode_base_table: None,
            image_colorspace: None,
            image_color_model: None,
            image_pixel_grouping: None,
            image_grouping_transform: None,
        }
    }
}

/// The settings of the stages that tables and images have in common.
#[derive(Debug, PartialEq, Eq)]
pub struct StageSetup {
    /// How entropy is measured.
    pub entropy_impl: String,
    /// How many rows are left out between two that are measured.
    pub entropy_skip_rows: usize,
    pub use_condensed_samples: bool,
    /// How the base table is built.
    pub base_table_impl: String,
    pub delta_encode_base_table: bool,
}

/// The settings of the common stages, and nothing else.
pub open spec fn stage_columns(stages: StageSetup) -> ColumnsView {
    ColumnsView {
        entropy_impl: Some(stages.entropy_impl@),
        entropy_skip_rows: Some(stages.entropy_skip_rows as nat),
        use_condensed_samples: Some(stages.use_condensed_samples),
        base_table_impl: Some(stages.base_table_impl@),
        delta_encode_base_table: Some(stages.delta_encode_base_table),
        ..no_columns()
    }
}

/// The settings of a run on a table.
pub open spec fn table_columns(profile: CsvProfileView, stages: StageSetup) -> ColumnsView {
    ColumnsView {
        csv_has_headers: Some(profile.has_headers),
        csv_float_storage: Some(storage_label(profile.float_storage)),
        csv_missing_value_policy: Some(missing_label(profile.missing_value_policy)),
        csv_float_scaling: Some(scaling_label(profile.preprocess.float_scaling)),
        csv_max_decimal_scale: Some(profile.preprocess.decimal_scale as nat),
        csv_integer_zero_normalization: Some(profile.preprocess.integer_zero_normalization),
        ..stage_columns(stages)
    }
}

/// The settings of a run on an image.
pub open spec fn image_columns(profile: ImageProfileView, stages: StageSetup) -> ColumnsView {
    ColumnsView {
        image_colorspace: Some(colorspace_label(profile.build.colorspace)),
        image_color_model: Some(model_label(profile.build.color_model)),
        image_pixel_grouping: Some(profile.build.pixel_grouping as nat),
        image_grouping_transform: Some(transform_label(profile.build.grouping_transform)),
        ..stage_columns(stages)
    }
}

impl ExperimentConfigColumns {
    fn of_stages(stages: StageSetup) -> (columns: ExperimentConfigColumns)
        ensures
            columns@ == stage_columns(stages),
    {
        let mut columns = ExperimentConfigColumns::default();
        columns.entropy_impl = Some(stages.entropy_impl);
        columns.entropy_skip_rows = Some(stages.entropy_skip_rows);
        columns.use_condensed_samples = Some(stages.use_condensed_samples);
        columns.base_table_impl = Some(stages.base_table_impl);
        columns.delta_encode_base_table = Some(stages.delta_encode_base_table);
        columns
    }

    /// The settings of a run on a table.
    pub fn of_table(profile: &CsvPipelineProfile, stages: StageSetup) -> (columns:
        ExperimentConfigColumns)
        ensures
            columns@ == table_columns(profile@, stages),
    {
        let mut columns = ExperimentConfigColumns::of_stages(stages);
        columns.csv_has_headers = Some(profile.has_headers);
        columns.csv_float_storage = Some(storage_name(profile.float_storage).to_owned());
        columns.csv_missing_value_policy = Some(
            missing_name(profile.missing_value_policy).to_owned(),
        );
        columns.csv_float_scaling = Some(
            scaling_name(profile.preprocess.float_scaling).to_owned(),
        );
        columns.csv_max_decimal_scale = Some(profile.preprocess.decimal_scale);
        columns.csv_integer_zero_normalization = Some(
            profile.preprocess.integer_zero_normalization,
        );
        columns
    }

    /// The settings of a run on an image.
    pub fn of_image(profile: &ImagePipelineProfile, stages: StageSetup) -> (columns:
        ExperimentConfigColumns)
        ensures
            columns@ == image_columns(profile@, stages),
    {
        let mut columns = ExperimentConfigColumns::of_stages(stages);
        columns.image_colorspace = Some(colorspace_name(profile.build.colorspace).to_owned());
        columns.image_color_model = Some(model_name(profile.build.color_model).to_owned());
        columns.image_pixel_grouping = Some(profile.build.pixel_grouping);
        columns.image_grouping_transform = Some(
            transform_name(profile.build.grouping_transform).to_owned(),
        );
        columns
    }
}

/// How long the stages of a run took, each as a number of milliseconds in decimal notation.
#[derive(Debug, PartialEq, Eq)]
pub struct CompressionStageDurationsMs {
    pub load_input: String,
    pub preprocess: String,
    pub entropy: String,
    pub condensed_samples: String,
    pub select_bases: String,
    pub encode: String,
    pub total: String,
}

/// What is reported of one run.
#[derive(Debug, PartialEq, Eq)]
pub struct ExperimentRecord {
    pub file_path: String,
    pub kind: InputKind,
    pub preset_name: String,
    pub config: ExperimentConfigColumns,
    pub select_impl: SelectBasesImpl,
    /// How base bits are tried.
    pub base_bit_impl: String,
    pub encode_impl: EncodeImpl,
    pub m_max: usize,
    pub patience: usize,
    pub stage_ms: CompressionStageDurationsMs,
    pub original_bits: usize,
    pub size_breakdown_bits: CompressedSizeBreakdownBits,
}

/// The cell of a truth value.
pub open spec fn flag_cell(flag: bool) -> Seq<char> {
    if flag {
        "true"@
    } else {
        "false"@
    }
}

/// The cell of a text that may be missing.
pub open spec fn text_cell(text: Option<Seq<char>>) -> Seq<char> {
    match text {
        Some(found) => found,
        None => ""@,
    }
}

/// The cell of a truth value that may be missing.
pub open spec fn optional_flag_cell(flag: Option<bool>) -> Seq<char> {
    match flag {
        Some(found) => flag_cell(found),
        None => ""@,
    }
}

/// The cell of a number that may be missing.
pub open spec fn number_cell(number: Option<nat>) -> Seq<char> {
    match number {
        Some(found) => decimal(found),
        None => ""@,
    }
}

/// The cells on the run: its input, its profile and the settings of the stages.
pub open spec fn run_cells(record: ExperimentRecord) -> Seq<Seq<char>> {
    seq![
        record.file_path@,
        kind_label(record.kind),
        record.preset_name@,
        select_label(record.select_impl),
        record.base_bit_impl@,
        text_cell(record.config@.entropy_impl),
        number_cell(record.config@.entropy_skip_rows),
        optional_flag_cell(record.config@.use_condensed_samples),
        text_cell(record.config@.base_table_impl),
        optional_flag_cell(record.config@.delta_encode_base_table),
        encode_label(record.encode_impl),
        decimal(record.m_max as nat),
        decimal(record.patience as nat),
    ]
}

/// The names of the cells on the run: its input, its profile and the settings of the stages.
pub open spec fn run_names() -> Seq<Seq<char>> {
    seq![
        "file_path"@,
        "input_kind"@,
        "preset"@,
        "select_impl"@,
        "base_bit_impl"@,
        "entropy_impl"@,
        "entropy_skip_rows"@,
        "use_condensed_samples"@,
        "base_table_impl"@,
        "delta_encode_base_table"@,
        "encode_impl"@,
        "m_max"@,
        "patience"@,
    ]
}

/// The cells on the settings that belong to tables or to images.
pub open spec fn input_cells(record: ExperimentRecord) -> Seq<Seq<char>> {
    seq![
        optional_flag_cell(record.config@.csv_has_headers),
        text_cell(record.config@.csv_float_storage),
        text_cell(record.config@.csv_missing_value_policy),
        text_cell(record.config@.csv_float_scaling),
        number_cell(record.config@.csv_max_decimal_scale),
        optional_flag_cell(record.config@.csv_integer_zero_normalization),
        text_cell(record.config@.image_colorspace),
        text_cell(record.config@.image_color_model),
        number_cell(record.config@.image_pixel_grouping),
        text_cell(record.config@.image_grouping_transform),
    ]
}

/// The names of the cells on the settings that belong to tables or to images.
pub open spec fn input_names() -> Seq<Seq<char>> {
    seq![
        "csv_has_headers"@,
        "csv_float_storage"@,
        "csv_missing_value_policy"@,
        "csv_float_scaling"@,
        "csv_max_decimal_scale"@,
        "csv_integer_zero_normalization"@,
        "image_colorspace"@,
        "image_color_model"@,
        "image_pixel_grouping"@,
        "image_grouping_transform"@,
    ]
}

/// The cells on the original size and the durations.
pub open spec fn stage_cells(record: ExperimentRecord) -> Seq<Seq<char>> {
    seq![
        decimal(record.original_bits as nat),
        record.stage_ms.load_input@,
        record.stage_ms.preprocess@,
        record.stage_ms.entropy@,
        record.stage_ms.condensed_samples@,
        record.stage_ms.select_bases@,
        record.stage_ms.encode@,
        record.stage_ms.total@,
    ]
}

/// The names of the cells on the original size and the durations.
pub open spec fn stage_names() -> Seq<Seq<char>> {
    seq![
        "original_bits"@,
        "load_ms"@,
        "preprocess_ms"@,
        "entropy_ms"@,
        "condensed_ms"@,
        "select_ms"@,
        "encode_ms"@,
        "total_ms"@,
    ]
}

/// The cells on the sizes.
pub open spec fn size_cells(record: ExperimentRecord) -> Seq<Seq<char>> {
    let sizes = record.size_breakdown_bits;
    seq![
        decimal(sizes.encoded_stream_total as nat),
        decimal(sizes.encoded_payload_bits as nat),
        decimal(sizes.normal_symbol_stream_bits as nat),
        decimal(sizes.rle_symbol_stream_bits as nat),
        decimal(sizes.rle_control_stream_bits as nat),
        decimal(sizes.rle_packet_count as nat),
        decimal(sizes.huffman_pixel_stream_bits as nat),
        decimal(sizes.huffman_row_offsets_bits as nat),
        decimal(sizes.huffman_symbol_table_bits as nat),
        decimal(sizes.huffman_code_lengths_bits as nat),
        decimal(sizes.base_table_patterns as nat),
        decimal(sizes.base_bit_positions as nat),
        decimal(sizes.condensed_weights as nat),
        decimal(sizes.estimated_total as nat),
    ]
}

/// The names of the cells on the sizes.
pub open spec fn size_names() -> Seq<Seq<char>> {
    seq![
        "encoded_stream_total_bits"@,
        "encoded_payload_bits"@,
        "normal_symbol_stream_bits"@,
        "rle_symbol_stream_bits"@,
        "rle_control_stream_bits"@,
        "rle_packet_count"@,
        "huffman_pixel_stream_bits"@,
        "huffman_row_offsets_bits"@,
        "huffman_symbol_table_bits"@,
        "huffman_code_lengths_bits"@,
        "base_table_pattern_bits"@,
        "base_bit_positions_bits"@,
        "condensed_weights_bits"@,
        "estimated_total_bits"@,
    ]
}

/// The cells of the line on a run.
pub open spec fn report_cells(record: ExperimentRecord) -> Seq<Seq<char>> {
    run_cells(record) + input_cells(record) + stage_cells(record) + size_cells(record)
}

/// The names of the cells of a line.
pub open spec fn header_cells() -> Seq<Seq<char>> {
    run_names() + input_names() + stage_names() + size_names()
}

/// Cells with a comma between any two of them.
pub open spec fn comma_separated(cells: Seq<Seq<char>>) -> Seq<char>
    decreases cells.len(),
{
    if cells.len() == 0 {
        Seq::empty()
    } else if cells.len() == 1 {
        cells[0]
    } else {
        comma_separated(cells.drop_last()) + ","@ + cells.last()
    }
}

/// The lines on runs, each with a line feed at its end.
pub open spec fn report_lines(records: Seq<ExperimentRecord>) -> Seq<char>
    decreases records.len(),
{
    if records.len() == 0 {
        Seq::empty()
    } else {
        report_lines(records.drop_last()) + comma_separated(report_cells(records.last())) + "\n"@
    }
}

/// Every line of a report has a cell under each name of its header.
pub proof fn lines_match_header(record: ExperimentRecord)
    ensures
        report_cells(record).len() == header_cells().len(),
{
}

fn push_text(cells: &mut Vec<String>, text: &str)
    ensures
        texts(final(cells)@) == texts(old(cells)@).push(text@),
{
    cells.push(text.to_owned());
    assert(texts(cells@) =~= texts(old(cells)@).push(text@));
}

fn push_number(cells: &mut Vec<String>, number: usize)
    ensures
        texts(final(cells)@) == texts(old(cells)@).push(decimal(number as nat)),
{
    let text = decimal_text(number);
    push_text(cells, text.as_str());
}

fn push_optional_text(cells: &mut Vec<String>, text: &Option<String>)
    ensures
        texts(final(cells)@) == texts(old(cells)@).push(text_cell(string_view(*text))),
{
    match text {
        Some(found) => push_text(cells, found.as_str()),
        None => push_text(cells, ""),
    }
}

fn push_optional_flag(cells: &mut Vec<String>, flag: Option<bool>)
    ensures
        texts(final(cells)@) == texts(old(cells)@).push(optional_flag_cell(flag)),
{
    match flag {
        Some(found) => if found {
            push_text(cells, "true")
        } else {
            push_text(cells, "false")
        },
        None => push_text(cells, ""),
    }
}

fn push_optional_number(cells: &mut Vec<String>, number: Option<usize>)
    ensures
        texts(final(cells)@) == texts(old(cells)@).push(
            number_cell(
                match number {
                    Some(found) => Some(found as nat),
                    None => None,
                },
            ),
        ),
{
    match number {
        Some(found) => push_number(cells, found),
        None => push_text(cells, ""),
    }
}

fn push_run_cells(cells: &mut Vec<String>, record: &ExperimentRecord)
    ensures
        texts(final(cells)@) == texts(old(cells)@) + run_cells(*record),
{
    push_text(cells, record.file_path.as_str());
    push_text(cells, kind_name(record.kind));
    push_text(cells, record.preset_name.as_str());
    push_text(cells, select_name(record.select_impl));
    push_text(cells, record.base_bit_impl.as_str());
    push_optional_text(cells, &record.config.entropy_impl);
    push_optional_number(cells, record.config.entropy_skip_rows);
    push_optional_flag(cells, record.config.use_condensed_samples);
    push_optional_text(cells, &record.config.base_table_impl);
    push_optional_flag(cells, record.config.delta_encode_base_table);
    push_text(cells, encode_name(record.encode_impl));
    push_number(cells, record.m_max);
    push_number(cells, record.patience);
    assert(texts(cells@) =~= texts(old(cells)@) + run_cells(*record));
}

fn push_run_names(cells: &mut Vec<String>)
    ensures
        texts(final(cells)@) == texts(old(cells)@) + run_names(),
{
    push_text(cells, "file_path");
    push_text(cells, "input_kind");
    push_text(cells, "preset");
    push_text(cells, "select_impl");
    push_text(cells, "base_bit_impl");
    push_text(cells, "entropy_impl");
    push_text(cells, "entropy_skip_rows");
    push_text(cells, "use_condensed_samples");
    push_text(cells, "base_table_impl");
    push_text(cells, "delta_encode_base_table");
    push_text(cells, "encode_impl");
    push_text(cells, "m_max");
    push_text(cells, "patience");
    assert(texts(cells@) =~= texts(old(cells)@) + run_names());
}

fn push_input_cells(cells: &mut Vec<String>, record: &ExperimentRecord)
    ensures
        texts(final(cells)@) == texts(old(cells)@) + input_cells(*record),
{
    push_optional_flag(cells, record.config.csv_has_headers);
    push_optional_text(cells, &record.config.csv_float_storage);
    push_optional_text(cells, &record.config.csv_missing_value_policy);
    push_optional_text(cells, &record.config.csv_float_scaling);
    push_optional_number(cells, match record.config.csv_max_decimal_scale {
        Some(value) => Some(value as usize),
        None => None,
    });
    push_optional_flag(cells, record.config.csv_integer_zero_normalization);
    push_optional_text(cells, &record.config.image_colorspace);
    push_optional_text(cells, &record.config.image_color_model);
    push_optional_number(cells, match record.config.image_pixel_grouping {
        Some(value) => Some(value as usize),
        None => None,
    });
    push_optional_text(cells, &record.config.image_grouping_transform);
    assert(texts(cells@) =~= texts(old(cells)@) + input_cells(*record));
}

fn push_input_names(cells: &mut Vec<String>)
    ensures
        texts(final(cells)@) == texts(old(cells)@) + input_names(),
{
    push_text(cells, "csv_has_headers");
    push_text(cells, "csv_float_storage");
    push_text(cells, "csv_missing_value_policy");
    push_text(cells, "csv_float_scaling");
    push_text(cells, "csv_max_decimal_scale");
    push_text(cells, "csv_integer_zero_normalization");
    push_text(cells, "image_colorspace");
    push_text(cells, "image_color_model");
    push_text(cells, "image_pixel_grouping");
    push_text(cells, "image_grouping_transform");
    assert(texts(cells@) =~= texts(old(cells)@) + input_names());
}

fn push_stage_cells(cells: &mut Vec<String>, record: &ExperimentRecord)
    ensures
        texts(final(cells)@) == texts(old(cells)@) + stage_cells(*record),
{
    push_number(cells, record.original_bits);
    push_text(cells, record.stage_ms.load_input.as_str());
    push_text(cells, record.stage_ms.preprocess.as_str());
    push_text(cells, record.stage_ms.entropy.as_str());
    push_text(cells, record.stage_ms.condensed_samples.as_str());
    push_text(cells, record.stage_ms.select_bases.as_str());
    push_text(cells, record.stage_ms.encode.as_str());
    push_text(cells, record.stage_ms.total.as_str());
    assert(texts(cells@) =~= texts(old(cells)@) + stage_cells(*record));
}

fn push_stage_names(cells: &mut Vec<String>)
    ensures
        texts(final(cells)@) == texts(old(cells)@) + stage_names(),
{
    push_text(cells, "original_bits");
    push_text(cells, "load_ms");
    push_text(cells, "preprocess_ms");
    push_text(cells, "entropy_ms");
    push_text(cells, "condensed_ms");
    push_text(cells, "select_ms");
    push_text(cells, "encode_ms");
    push_text(cells, "total_ms");
    assert(texts(cells@) =~= texts(old(cells)@) + stage_names());
}

fn push_size_cells(cells: &mut Vec<String>, record: &ExperimentRecord)
    ensures
        texts(final(cells)@) == texts(old(cells)@) + size_cells(*record),
{
    let sizes = record.size_breakdown_bits;
    push_number(cells, sizes.encoded_stream_total);
    push_number(cells, sizes.encoded_payload_bits);
    push_number(cells, sizes.normal_symbol_stream_bits);
    push_number(cells, sizes.rle_symbol_stream_bits);
    push_number(cells, sizes.rle_control_stream_bits);
    push_number(cells, sizes.rle_packet_count);
    push_number(cells, sizes.huffman_pixel_stream_bits);
    push_number(cells, sizes.huffman_row_offsets_bits);
    push_number(cells, sizes.huffman_symbol_table_bits);
    push_number(cells, sizes.huffman_code_lengths_bits);
    push_number(cells, sizes.base_table_patterns);
    push_number(cells, sizes.base_bit_positions);
    push_number(cells, sizes.condensed_weights);
    push_number(cells, sizes.estimated_total);
    assert(texts(cells@) =~= texts(old(cells)@) + size_cells(*record));
}

fn push_size_names(cells: &mut Vec<String>)
    ensures
        texts(final(cells)@) == texts(old(cells)@) + size_names(),
{
    push_text(cells, "encoded_stream_total_bits");
    push_text(cells, "encoded_payload_bits");
    push_text(cells, "normal_symbol_stream_bits");
    push_text(cells, "rle_symbol_stream_bits");
    push_text(cells, "rle_control_stream_bits");
    push_text(cells, "rle_packet_count");
    push_text(cells, "huffman_pixel_stream_bits");
    push_text(cells, "huffman_row_offsets_bits");
    push_text(cells, "huffman_symbol_table_bits");
    push_text(cells, "huffman_code_lengths_bits");
    push_text(cells, "base_table_pattern_bits");
    push_text(cells, "base_bit_positions_bits");
    push_text(cells, "condensed_weights_bits");
    push_text(cells, "estimated_total_bits");
    assert(texts(cells@) =~= texts(old(cells)@) + size_names());
}

/// Appends cells with a comma between any two of them, and a line feed.
fn append_line(text: &mut String, cells: &Vec<String>)
    ensures
        final(text)@ == old(text)@ + comma_separated(texts(cells@)) + "\n"@,
{
    let mut i: usize = 0;
    let ghost list = texts(cells@);
    while i < cells.len()
        invariant
            i <= cells@.len(),
            list == texts(cells@),
            text@ == old(text)@ + comma_separated(list.take(i as int)),
        decreases cells@.len() - i,
    {
        let ghost before = text@;
        if i > 0 {
            append_text(text, ",");
        }
        append_text(text, cells[i].as_str());
        proof {
            let longer = list.take(i as int + 1);
            assert(longer.drop_last() =~= list.take(i as int));
            assert(longer.last() == cells@[i as int]@);
            if i == 0 {
                assert(before =~= old(text)@);
                assert(comma_separated(longer) == longer[0]);
            } else {
                assert(comma_separated(longer) == comma_separated(longer.drop_last()) + ","@
                    + longer.last());
            }
            assert(text@ =~= old(text)@ + comma_separated(longer));
        }
        i += 1;
    }
    assert(list.take(i as int) =~= list);
    append_text(text, "\n");
}

/// The report on runs: a line of names, then a line for each run.
pub fn write_report_csv(records: &Vec<ExperimentRecord>) -> (text: String)
    ensures
        text@ == comma_separated(header_cells()) + "\n"@ + report_lines(records@),
{
    let mut names: Vec<String> = Vec::new();
    assert(texts(names@) =~= Seq::empty());
    push_run_names(&mut names);
    push_input_names(&mut names);
    push_stage_names(&mut names);
    push_size_names(&mut names);
    assert(texts(names@) =~= header_cells());
    proof {
        reveal_strlit("");
    }
    let mut text = "".to_owned();
    append_line(&mut text, &names);
    let ghost header = comma_separated(header_cells()) + "\n"@;
    assert(text@ =~= header);
    let mut i: usize = 0;
    while i < records.len()
        invariant
            i <= records@.len(),
            text@ == header + report_lines(records@.take(i as int)),
        decreases records@.len() - i,
    {
        let mut cells: Vec<String> = Vec::new();
        assert(texts(cells@) =~= Seq::empty());
        let record = &records[i];
        push_run_cells(&mut cells, record);
        push_input_cells(&mut cells, record);
        push_stage_cells(&mut cells, record);
        push_size_cells(&mut cells, record);
        assert(texts(cells@) =~= report_cells(*record));
        append_line(&mut text, &cells);
        proof {
            let longer = records@.take(i as int + 1);
            assert(longer.drop_last() =~= records@.take(i as int));
            assert(text@ =~= header + report_lines(longer));
        }
        i += 1;
    }
    assert(records@.take(i as int) =~= records@);
    text
}

/// The paths of the files of runs.
pub open spec fn paths(records: Seq<ExperimentRecord>) -> Seq<Seq<char>> {
    Seq::new(records.len(), |i: int| records[i].file_path@)
}

/// How many files were run on: a file counts once, however many runs it had.
pub fn processed_files(records: &Vec<ExperimentRecord>) -> (count: usize)
    ensures
        count == paths(records@).to_set().len(),
{
    let ghost list = paths(records@);
    let mut count: usize = 0;
    let mut i: usize = 0;
    assert(list.take(0).to_set() =~= Set::empty());
    while i < records.len()
        invariant
            i <= records@.len(),
            list == paths(records@),
            count == list.take(i as int).to_set().len(),
            list.take(i as int).to_set().finite(),
            count <= i,
        decreases records@.len() - i,
    {
        let mut k: usize = 0;
        let mut met: bool = false;
        while k < i
            invariant
                k <= i < records@.len(),
                list == paths(records@),
                met == list.take(k as int).contains(list[i as int]),
            decreases i - k,
        {
            let same: bool = same_text(records[k].file_path.as_str(), records[i].file_path.as_str());
            proof {
                let longer = list.take(k as int + 1);
                assert(longer.drop_last() =~= list.take(k as int));
                assert(longer[k as int] == list[k as int]);
                if met {
                    let j = choose|j: int| 0 <= j < k && list.take(k as int)[j] == list[i as int];
                    assert(longer[j] == list[i as int]);
                }
                if longer.contains(list[i as int]) && !same {
                    let j = choose|j: int| 0 <= j < k + 1 && longer[j] == list[i as int];
                    assert(list.take(k as int)[j] == list[i as int]);
                }
            }
            if same {
                met = true;
            }
            k += 1;
        }
        proof {
            let shorter = list.take(i as int);
            let longer = list.take(i as int + 1);
            assert(longer =~= shorter.push(list[i as int]));
            assert(longer.to_set() =~= shorter.to_set().insert(list[i as int])) by {
                assert forall|path: Seq<char>| longer.contains(path) implies shorter.contains(path)
                    || path == list[i as int] by {
                    let j = choose|j: int| 0 <= j < longer.len() && longer[j] == path;
                    if j < i {
                        assert(shorter[j] == path);
                    }
                }
                assert forall|path: Seq<char>| shorter.contains(path) implies longer.contains(path) by {
                    let j = choose|j: int| 0 <= j < shorter.len() && shorter[j] == path;
                    assert(longer[j] == path);
                }
                assert(longer[i as int] == list[i as int]);
            }
        }
        if !met {
            count += 1;
        }
        i += 1;
    }
    assert(list.take(i as int) =~= list);
    count
}

} // verus!
