//! The profiles that a configuration file asks for.
use vstd::prelude::*;

use crate::error::{bad_metadata, EntroGdError};
use crate::pipeline_profiles::choices::ConfigEncodeImpl;
use crate::pipeline_profiles::groups::{
    expand_csv_group, expand_image_group, CsvProfileGroupConfig, ImageProfileGroupConfig,
};
use crate::pipeline_profiles::profiles::{
    csv_views, default_csv, default_image, image_views, CsvPipelineProfile,
    CsvPipelineProfileConfig, CsvProfileView, ImagePipelineProfile, ImagePipelineProfileConfig,
    ImageProfileView, PipelineProfileSet,
};

verus! {

/// What stands in a configuration file.
#[derive(Debug, PartialEq, Eq)]
pub struct ExperimentRunnerConfigFile {
    pub input_path: Option<String>,
    pub recursive: Option<bool>,
    pub csv_profiles: Option<Vec<CsvPipelineProfileConfig>>,
    pub image_profiles: Option<Vec<ImagePipelineProfileConfig>>,
    pub csv_profile_groups: Option<Vec<CsvProfileGroupConfig>>,
    pub image_profile_groups: Option<Vec<ImageProfileGroupConfig>>,
}

impl Default for ExperimentRunnerConfigFile {
    fn default() -> (config: ExperimentRunnerConfigFile)
        ensures
            config.input_path is None,
            config.recursive is None,
            config.csv_profiles is None,
            config.image_profiles is None,
            config.csv_profile_groups is None,
            config.image_profile_groups is None,
    {
        ExperimentRunnerConfigFile {
            input_path: None,
            recursive: None,
            csv_profiles: None,
            image_profiles: None,
            csv_profile_groups: None,
            image_profile_groups: None,
        }
    }
}

/// The profiles for tables of some groups, one behind the other; `None` where a group has none.
pub open spec fn csv_group_profiles(groups: Seq<CsvProfileGroupConfig>) -> Option<
    Seq<CsvProfileView>,
>
    decreases groups.len(),
{
    if groups.len() == 0 {
        Some(Seq::empty())
    } else {
        match (csv_group_profiles(groups.drop_last()), groups.last().profiles()) {
            (Some(before), Some(more)) => Some(before + more),
            _ => None,
        }
    }
}

/// Whether all profiles for tables that stand in a configuration by themselves can be made.
pub open spec fn csv_can_be_made(given: Seq<CsvPipelineProfileConfig>) -> bool {
    forall|i: int| 0 <= i < given.len() ==> (#[trigger] given[i]).encode_impl != ConfigEncodeImpl::Huffman
}

/// The profiles for tables that a configuration asks for: the usual ones where it asks for none.
pub open spec fn csv_profiles(config: ExperimentRunnerConfigFile) -> Option<Seq<CsvProfileView>> {
    let given = match config.csv_profiles {
        Some(profiles) => profiles@,
        None => Seq::empty(),
    };
    let groups = match config.csv_profile_groups {
        Some(groups) => groups@,
        None => Seq::empty(),
    };
    if config.csv_profiles is None && config.csv_profile_groups is None {
        Some(default_csv())
    } else if csv_can_be_made(given) && csv_group_profiles(groups) is Some {
        Some(
            Seq::new(given.len(), |i: int| given[i].profile()) + csv_group_profiles(groups)->0,
        )
    } else {
        None
    }
}

/// Appends the profiles for tables that stand in a configuration by themselves.
fn add_csv_profiles(
    profiles: &mut Vec<CsvPipelineProfile>,
    given: &Vec<CsvPipelineProfileConfig>,
) -> (result: Result<(), EntroGdError>)
    ensures
        result is Ok <==> csv_can_be_made(given@),
        result is Ok ==> csv_views(final(profiles)@) == csv_views(old(profiles)@) + Seq::new(
            given@.len(),
            |i: int| given@[i].profile(),
        ),
        result matches Err(error) ==> error is InvalidMetadata,
{
    let ghost start = profiles@;
    let mut i: usize = 0;
    while i < given.len()
        invariant
            i <= given@.len(),
            profiles@.len() == start.len() + i,
            forall|k: int| 0 <= k < start.len() ==> #[trigger] profiles@[k] == start[k],
            forall|k: int|
                0 <= k < i ==> (#[trigger] given@[k]).encode_impl != ConfigEncodeImpl::Huffman && profiles@[start.len() + k]@
                    == given@[k].profile(),
        decreases given@.len() - i,
    {
        match CsvPipelineProfile::from_config(&given[i]) {
            Ok(profile) => {
                profiles.push(profile);
            },
            Err(error) => {
                return Err(error);
            },
        }
        i += 1;
    }
    proof {
        let goal = csv_views(start) + Seq::new(given@.len(), |k: int| given@[k].profile());
        assert forall|k: int| 0 <= k < goal.len() implies #[trigger] csv_views(profiles@)[k]
            == goal[k] by {
            if k >= start.len() {
                let j = k - start.len();
                assert(given@[j].encode_impl != ConfigEncodeImpl::Huffman);
            }
        }
        assert(csv_views(profiles@) =~= goal);
    }
    Ok(())
}

/// Appends the profiles for tables of the groups of a configuration.
fn add_csv_groups(
    profiles: &mut Vec<CsvPipelineProfile>,
    groups: &Vec<CsvProfileGroupConfig>,
) -> (result: Result<(), EntroGdError>)
    ensures
        result is Ok <==> csv_group_profiles(groups@) is Some,
        result is Ok ==> csv_views(final(profiles)@) == csv_views(old(profiles)@)
            + csv_group_profiles(groups@)->0,
        result matches Err(error) ==> error is InvalidMetadata,
{
    let ghost start = csv_views(profiles@);
    let mut i: usize = 0;
    proof {
        assert(groups@.take(0) =~= Seq::empty());
        assert(start + Seq::<CsvProfileView>::empty() =~= start);
    }
    while i < groups.len()
        invariant
            i <= groups@.len(),
            csv_group_profiles(groups@.take(i as int)) is Some,
            csv_views(profiles@) == start + csv_group_profiles(groups@.take(i as int))->0,
        decreases groups@.len() - i,
    {
        let ghost before = profiles@;
        proof {
            assert(groups@.take(i as int + 1).drop_last() =~= groups@.take(i as int));
        }
        match expand_csv_group(&groups[i]) {
            Ok(found) => {
                let ghost added = found@;
                let mut more = found;
                profiles.append(&mut more);
                proof {
                    assert(csv_views(profiles@) =~= csv_views(before) + csv_views(added));
                    assert(csv_views(profiles@) =~= start + csv_group_profiles(
                        groups@.take(i as int + 1),
                    )->0);
                }
            },
            Err(error) => {
                proof {
                    csv_groups_stay_bad(groups@, i as int + 1);
                }
                return Err(error);
            },
        }
        i += 1;
    }
    assert(groups@.take(i as int) =~= groups@);
    Ok(())
}

/// Groups one of which has no profiles stay without them, whatever follows.
proof fn csv_groups_stay_bad(groups: Seq<CsvProfileGroupConfig>, n: int)
    requires
        0 <= n <= groups.len(),
        csv_group_profiles(groups.take(n)) is None,
    ensures
        csv_group_profiles(groups) is None,
    decreases groups.len() - n,
{
    if n < groups.len() {
        assert(groups.take(n + 1).drop_last() =~= groups.take(n));
        csv_groups_stay_bad(groups, n + 1);
    } else {
        assert(groups.take(n) =~= groups);
    }
}

/// The profiles for images of some groups, one behind the other; `None` where a group has none.
pub open spec fn image_group_profiles(groups: Seq<ImageProfileGroupConfig>) -> Option<
    Seq<ImageProfileView>,
>
    decreases groups.len(),
{
    if groups.len() == 0 {
        Some(Seq::empty())
    } else {
        match (image_group_profiles(groups.drop_last()), groups.last().profiles()) {
            (Some(before), Some(more)) => Some(before + more),
            _ => None,
        }
    }
}

/// Whether all profiles for images that stand in a configuration by themselves can be made.
pub open spec fn image_can_be_made(given: Seq<ImagePipelineProfileConfig>) -> bool {
    forall|i: int| 0 <= i < given.len() ==> (#[trigger] given[i]).build.pixel_grouping != 0
}

/// The profiles for images that a configuration asks for: the usual ones where it asks for none.
pub open spec fn image_profiles(config: ExperimentRunnerConfigFile) -> Option<Seq<ImageProfileView>> {
    let given = match config.image_profiles {
        Some(profiles) => profiles@,
        None => Seq::empty(),
    };
    let groups = match config.image_profile_groups {
        Some(groups) => groups@,
        None => Seq::empty(),
    };
    if config.image_profiles is None && config.image_profile_groups is None {
        Some(default_image())
    } else if image_can_be_made(given) && image_group_profiles(groups) is Some {
        Some(
            Seq::new(given.len(), |i: int| given[i].profile()) + image_group_profiles(groups)->0,
        )
    } else {
        None
    }
}

/// Appends the profiles for images that stand in a configuration by themselves.
fn add_image_profiles(
    profiles: &mut Vec<ImagePipelineProfile>,
    given: &Vec<ImagePipelineProfileConfig>,
) -> (result: Result<(), EntroGdError>)
    ensures
        result is Ok <==> image_can_be_made(given@),
        result is Ok ==> image_views(final(profiles)@) == image_views(old(profiles)@) + Seq::new(
            given@.len(),
            |i: int| given@[i].profile(),
        ),
        result matches Err(error) ==> error is InvalidMetadata,
{
    let ghost start = profiles@;
    let mut i: usize = 0;
    while i < given.len()
        invariant
            i <= given@.len(),
            profiles@.len() == start.len() + i,
            forall|k: int| 0 <= k < start.len() ==> #[trigger] profiles@[k] == start[k],
            forall|k: int|
                0 <= k < i ==> (#[trigger] given@[k]).build.pixel_grouping != 0 && profiles@[start.len() + k]@
                    == given@[k].profile(),
        decreases given@.len() - i,
    {
        match ImagePipelineProfile::from_config(&given[i]) {
            Ok(profile) => {
                profiles.push(profile);
            },
            Err(error) => {
                return Err(error);
            },
        }
        i += 1;
    }
    proof {
        let goal = image_views(start) + Seq::new(given@.len(), |k: int| given@[k].profile());
        assert forall|k: int| 0 <= k < goal.len() implies #[trigger] image_views(profiles@)[k]
            == goal[k] by {
            if k >= start.len() {
                let j = k - start.len();
                assert(given@[j].build.pixel_grouping != 0);
            }
        }
        assert(image_views(profiles@) =~= goal);
    }
    Ok(())
}

/// Appends the profiles for images of the groups of a configuration.
fn add_image_groups(
    profiles: &mut Vec<ImagePipelineProfile>,
    groups: &Vec<ImageProfileGroupConfig>,
) -> (result: Result<(), EntroGdError>)
    ensures
        result is Ok <==> image_group_profiles(groups@) is Some,
        result is Ok ==> image_views(final(profiles)@) == image_views(old(profiles)@)
            + image_group_profiles(groups@)->0,
        result matches Err(error) ==> error is InvalidMetadata,
{
    let ghost start = image_views(profiles@);
    let mut i: usize = 0;
    proof {
        assert(groups@.take(0) =~= Seq::empty());
        assert(start + Seq::<ImageProfileView>::empty() =~= start);
    }
    while i < groups.len()
        invariant
            i <= groups@.len(),
            image_group_profiles(groups@.take(i as int)) is Some,
            image_views(profiles@) == start + image_group_profiles(groups@.take(i as int))->0,
        decreases groups@.len() - i,
    {
        let ghost before = profiles@;
        proof {
            assert(groups@.take(i as int + 1).drop_last() =~= groups@.take(i as int));
        }
        match expand_image_group(&groups[i]) {
            Ok(found) => {
                let ghost added = found@;
                let mut more = found;
                profiles.append(&mut more);
                proof {
                    assert(image_views(profiles@) =~= image_views(before) + image_views(added));
                    assert(image_views(profiles@) =~= start + image_group_profiles(
                        groups@.take(i as int + 1),
                    )->0);
                }
            },
            Err(error) => {
                proof {
                    image_groups_stay_bad(groups@, i as int + 1);
                }
                return Err(error);
            },
        }
        i += 1;
    }
    assert(groups@.take(i as int) =~= groups@);
    Ok(())
}

/// Groups one of which has no profiles stay without them, whatever follows.
proof fn image_groups_stay_bad(groups: Seq<ImageProfileGroupConfig>, n: int)
    requires
        0 <= n <= groups.len(),
        image_group_profiles(groups.take(n)) is None,
    ensures
        image_group_profiles(groups) is None,
    decreases groups.len() - n,
{
    if n < groups.len() {
        assert(groups.take(n + 1).drop_last() =~= groups.take(n));
        image_groups_stay_bad(groups, n + 1);
    } else {
        assert(groups.take(n) =~= groups);
    }
}

impl PipelineProfileSet {
    /// The profiles that a configuration asks for.
    pub fn from_config(config: &ExperimentRunnerConfigFile) -> (result: Result<
        PipelineProfileSet,
        EntroGdError,
    >)
        ensures
            match (csv_profiles(*config), image_profiles(*config)) {
                (Some(csv), Some(image)) => if csv.len() == 0 && image.len() == 0 {
                    result matches Err(error) && error is InvalidMetadata
                } else {
                    result matches Ok(profiles) && csv_views(profiles.csv@) == csv && image_views(
                        profiles.image@,
                    ) == image
                },
                _ => result matches Err(error) && error is InvalidMetadata,
            },
    {
        let mut profiles = PipelineProfileSet::default_profiles();
        if config.csv_profiles.is_some() || config.csv_profile_groups.is_some() {
            profiles.csv = Vec::new();
            assert(csv_views(profiles.csv@) =~= Seq::empty());
        }
        if config.image_profiles.is_some() || config.image_profile_groups.is_some() {
            profiles.image = Vec::new();
            assert(image_views(profiles.image@) =~= Seq::empty());
        }
        let ghost usual_csv = csv_views(profiles.csv@);
        let ghost usual_image = image_views(profiles.image@);
        if let Some(given) = &config.csv_profiles {
            match add_csv_profiles(&mut profiles.csv, given) {
                Ok(()) => {},
                Err(error) => {
                    return Err(error);
                },
            }
        }
        if let Some(given) = &config.image_profiles {
            match add_image_profiles(&mut profiles.image, given) {
                Ok(()) => {},
                Err(error) => {
                    return Err(error);
                },
            }
        }
        if let Some(groups) = &config.csv_profile_groups {
            match add_csv_groups(&mut profiles.csv, groups) {
                Ok(()) => {},
                Err(error) => {
                    return Err(error);
                },
            }
        }
        if let Some(groups) = &config.image_profile_groups {
            match add_image_groups(&mut profiles.image, groups) {
                Ok(()) => {},
                Err(error) => {
                    return Err(error);
                },
            }
        }
        proof {
            assert(csv_profiles(*config) is Some);
            assert(image_profiles(*config) is Some);
            assert(csv_views(profiles.csv@) =~= csv_profiles(*config)->0);
            assert(image_views(profiles.image@) =~= image_profiles(*config)->0);
        }
        if profiles.csv.len() == 0 && profiles.image.len() == 0 {
            return Err(bad_metadata("config produced no profiles"));
        }
        assert(profiles.csv@.len() == csv_views(profiles.csv@).len());
        assert(profiles.image@.len() == image_views(profiles.image@).len());
        Ok(profiles)
    }
}

} // verus!
