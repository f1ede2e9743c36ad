//! Which files are compressed, and as what.
use vstd::prelude::*;

use crate::error::EntroGdError;
use crate::text::{same_in_small_letters, small_letters, text_view, text_within};

verus! {

/// What a file is compressed as.
#[derive(Debug, Clone, Copy, PartialEq, Eq, Structural)]
pub enum InputKind {
    Csv,
    Image,
    Unsupported,
}

/// How the files of a run are found.
#[derive(Debug, Clone, Copy, PartialEq, Eq, Structural)]
pub struct ExperimentRunOptions {
    /// Whether the directories inside a directory are searched too.
    pub recursive: bool,
}

impl Default for ExperimentRunOptions {
    fn default() -> (options: ExperimentRunOptions)
        ensures
            !options.recursive,
    {
        ExperimentRunOptions { recursive: false }
    }
}

/// Whether an extension in small letters is that of an image.
pub open spec fn is_image_extension(extension: Seq<char>) -> bool {
    ||| extension == "png"@
    ||| extension == "jpg"@
    ||| extension == "jpeg"@
    ||| extension == "bmp"@
    ||| extension == "gif"@
    ||| extension == "tiff"@
    ||| extension == "webp"@
}

/// What a file with an extension is compressed as.
pub open spec fn kind_of(extension: Option<Seq<char>>) -> InputKind {
    match extension {
        Some(text) => if small_letters(text) == "csv"@ {
            InputKind::Csv
        } else if is_image_extension(small_letters(text)) {
            InputKind::Image
        } else {
            InputKind::Unsupported
        },
        None => InputKind::Unsupported,
    }
}

/// What a file is compressed as, by its extension in capital or small letters.
pub fn detect_input_kind(extension: Option<&str>) -> (kind: InputKind)
    ensures
        kind == kind_of(text_view(extension)),
{
    match extension {
        Some(text) => {
            if same_in_small_letters(text, "csv") {
                InputKind::Csv
            } else if same_in_small_letters(text, "png") || same_in_small_letters(text, "jpg")
                || same_in_small_letters(text, "jpeg") || same_in_small_letters(text, "bmp")
                || same_in_small_letters(text, "gif") || same_in_small_letters(text, "tiff")
                || same_in_small_letters(text, "webp") {
                InputKind::Image
            } else {
                InputKind::Unsupported
            }
        },
        None => InputKind::Unsupported,
    }
}

/// What a path leads to.
#[derive(Debug, Clone, Copy, PartialEq, Eq, Structural)]
pub enum PathTarget {
    File,
    Directory,
    Missing,
}

/// What is done with a path in the search for files.
#[derive(Debug, Clone, Copy, PartialEq, Eq, Structural)]
pub enum PathAction {
    /// It is one of the files.
    Take,
    /// Its entries are looked at.
    Search,
    /// Nothing.
    Pass,
}

/// What is done with the path that a search starts from. A path that leads nowhere is refused.
pub fn collect_input_files(path: &str, target: PathTarget) -> (result: Result<
    PathAction,
    EntroGdError,
>)
    ensures
        match target {
            PathTarget::File => result == Ok::<PathAction, EntroGdError>(PathAction::Take),
            PathTarget::Directory => result == Ok::<PathAction, EntroGdError>(PathAction::Search),
            PathTarget::Missing => result matches Err(EntroGdError::InvalidMetadata { message })
                && message@ == "input path does not exist: "@ + path@,
        },
{
    match target {
        PathTarget::File => Ok(PathAction::Take),
        PathTarget::Directory => Ok(PathAction::Search),
        PathTarget::Missing => {
            proof {
                reveal_strlit("");
            }
            let message = text_within("input path does not exist: ", path, "");
            assert(message@ =~= "input path does not exist: "@ + path@);
            Err(EntroGdError::InvalidMetadata { message })
        },
    }
}

/// What is done with an entry of a directory: files are taken, directories are searched where the
/// search is recursive, and anything else is passed over.
pub fn collect_dir(target: PathTarget, options: ExperimentRunOptions) -> (action: PathAction)
    ensures
        action == (match target {
            PathTarget::File => PathAction::Take,
            PathTarget::Directory => if options.recursive {
                PathAction::Search
            } else {
                PathAction::Pass
            },
            PathTarget::Missing => PathAction::Pass,
        }),
{
    match target {
        PathTarget::File => PathAction::Take,
        PathTarget::Directory => if options.recursive {
            PathAction::Search
        } else {
            PathAction::Pass
        },
        PathTarget::Missing => PathAction::Pass,
    }
}

/// How many runs a file of a kind takes.
pub open spec fn runs_of(kind: InputKind, csv_profiles: nat, image_profiles: nat) -> nat {
    match kind {
        InputKind::Csv => csv_profiles,
        InputKind::Image => image_profiles,
        InputKind::Unsupported => 0,
    }
}

/// How many runs files of some kinds take together.
pub open spec fn runs_of_all(kinds: Seq<InputKind>, csv_profiles: nat, image_profiles: nat) -> nat
    decreases kinds.len(),
{
    if kinds.len() == 0 {
        0
    } else {
        runs_of_all(kinds.drop_last(), csv_profiles, image_profiles) + runs_of(
            kinds.last(),
            csv_profiles,
            image_profiles,
        )
    }
}

/// More files take at least as many runs.
proof fn runs_add_up(kinds: Seq<InputKind>, n: int, csv_profiles: nat, image_profiles: nat)
    requires
        0 <= n <= kinds.len(),
    ensures
        runs_of_all(kinds.take(n), csv_profiles, image_profiles) <= runs_of_all(
            kinds,
            csv_profiles,
            image_profiles,
        ),
    decreases kinds.len(),
{
    if n == kinds.len() {
        assert(kinds.take(n) =~= kinds);
    } else {
        runs_add_up(kinds.drop_last(), n, csv_profiles, image_profiles);
        assert(kinds.drop_last().take(n) =~= kinds.take(n));
    }
}

/// How many runs a file of a kind takes.
pub fn profile_count(kind: InputKind, csv_profiles: usize, image_profiles: usize) -> (runs: usize)
    ensures
        runs == runs_of(kind, csv_profiles as nat, image_profiles as nat),
{
    match kind {
        InputKind::Csv => csv_profiles,
        InputKind::Image => image_profiles,
        InputKind::Unsupported => 0,
    }
}

/// How many runs files of some kinds take together.
pub fn total_runs(kinds: &Vec<InputKind>, csv_profiles: usize, image_profiles: usize) -> (runs:
    usize)
    requires
        runs_of_all(kinds@, csv_profiles as nat, image_profiles as nat) <= usize::MAX,
    ensures
        runs == runs_of_all(kinds@, csv_profiles as nat, image_profiles as nat),
{
    let mut runs: usize = 0;
    let mut i: usize = 0;
    while i < kinds.len()
        invariant
            i <= kinds@.len(),
            runs == runs_of_all(kinds@.take(i as int), csv_profiles as nat, image_profiles as nat),
            runs_of_all(kinds@, csv_profiles as nat, image_profiles as nat) <= usize::MAX,
        decreases kinds@.len() - i,
    {
        proof {
            runs_add_up(kinds@, i as int + 1, csv_profiles as nat, image_profiles as nat);
            assert(kinds@.take(i as int + 1).drop_last() =~= kinds@.take(i as int));
        }
        runs += profile_count(kinds[i], csv_profiles, image_profiles);
        i += 1;
    }
    assert(kinds@.take(i as int) =~= kinds@);
    runs
}

/// How many of the cells of a progress bar are filled.
pub const BAR_WIDTH: usize = 24;

/// The filled cells of a progress bar: the share of the runs that are done, rounded down. The bar
/// is full where there is nothing to run.
pub fn filled_cells(completed_runs: usize, total_runs: usize) -> (cells: usize)
    ensures
        cells == (if total_runs == 0 || completed_runs >= total_runs {
            BAR_WIDTH as int
        } else {
            completed_runs * BAR_WIDTH / total_runs as int
        }),
        cells <= BAR_WIDTH,
        completed_runs < total_runs ==> cells * total_runs <= completed_runs * 24 < (cells + 1)
            * total_runs,
{
    if total_runs == 0 || completed_runs >= total_runs {
        BAR_WIDTH
    } else {
        let product: u128 = completed_runs as u128 * BAR_WIDTH as u128;
        let quotient: u128 = product / total_runs as u128;
        proof {
            let c = completed_runs as int;
            let t = total_runs as int;
            assert((c * 24) / t <= 24) by (nonlinear_arith)
                requires
                    0 <= c < t,
            ;
            let q = (c * 24) / t;
            assert(q * t <= c * 24 < (q + 1) * t) by (nonlinear_arith)
                requires
                    0 <= c < t,
                    q == (c * 24) / t,
            ;
        }
        quotient as usize
    }
}

/// Each table takes one run for each profile of tables, each image one for each profile of images, and
/// no other file takes any.
pub proof fn runs_are_counted(kinds: Seq<InputKind>, csv_profiles: nat, image_profiles: nat)
    ensures
        runs_of_all(kinds, csv_profiles, image_profiles) == kinds.filter(
            |kind: InputKind| kind == InputKind::Csv,
        ).len() * csv_profiles + kinds.filter(
            |kind: InputKind| kind == InputKind::Image,
        ).len() * image_profiles,
    decreases kinds.len(),
{
    reveal(Seq::filter);
    let is_table = |kind: InputKind| kind == InputKind::Csv;
    let is_image = |kind: InputKind| kind == InputKind::Image;
    let tables = kinds.filter(is_table).len() as int;
    let images = kinds.filter(is_image).len() as int;
    if kinds.len() > 0 {
        let before = kinds.drop_last();
        runs_are_counted(before, csv_profiles, image_profiles);
        let fewer_tables = before.filter(is_table).len() as int;
        let fewer_images = before.filter(is_image).len() as int;
        assert(kinds.last() == InputKind::Csv ==> tables == fewer_tables + 1);
        assert(kinds.last() != InputKind::Csv ==> tables == fewer_tables);
        assert(kinds.last() == InputKind::Image ==> images == fewer_images + 1);
        assert(kinds.last() != InputKind::Image ==> images == fewer_images);
        assert((fewer_tables + 1) * csv_profiles == fewer_tables * csv_profiles + csv_profiles)
            by (nonlinear_arith);
        assert((fewer_images + 1) * image_profiles == fewer_images * image_profiles
            + image_profiles) by (nonlinear_arith);
    } else {
        assert(0 * csv_profiles == 0 && 0 * image_profiles == 0);
    }
}

/// Extensions that differ in capital and small letters only stand for the same kind of file.
pub proof fn letter_case_does_not_matter(first: Seq<char>, second: Seq<char>)
    requires
        first.len() == second.len(),
        forall|i: int|
            0 <= i < first.len() ==> {
                ||| #[trigger] first[i] == second[i]
                ||| 'A' <= first[i] <= 'Z' && second[i] as int == first[i] as int + 32
            },
    ensures
        kind_of(Some(first)) == kind_of(Some(second)),
{
    assert(small_letters(first) =~= small_letters(second)) by {
        assert forall|i: int| 0 <= i < first.len() implies #[trigger] small_letters(first)[i]
            == small_letters(second)[i] by {
            let c = first[i];
            let d = second[i];
        }
    }
}

} // verus!
