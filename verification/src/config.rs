//! Configuration values and the collection of override source ids.

use vstd::prelude::*;
use crate::errors::CargoError;
use crate::source_id::{SourceId, SourceKind};

verus! {

/// A user configuration entry: either a single string or an ordered list of
/// strings.  A caller that expects a list must reject a single string with a
/// typed error rather than coerce it.
#[derive(Debug)]
pub enum ConfigValue {
    Str(String),
    List(Vec<String>),
}

impl ConfigValue {
    /// The empty configuration value: an empty list.
    pub fn new() -> (r: ConfigValue)
        ensures
            r matches ConfigValue::List(l) && l@.len() == 0,
    {
        ConfigValue::List(Vec::new())
    }
}

/// First-match lookup of `key` in a configuration mapping.
pub open spec fn spec_find_config(
    configs: Seq<(String, ConfigValue)>,
    key: Seq<char>,
) -> Option<ConfigValue>
    decreases configs.len(),
{
    if configs.len() == 0 {
        None
    } else if configs[0].0@ == key {
        Some(configs[0].1)
    } else {
        spec_find_config(configs.drop_first(), key)
    }
}

/// What source-id collection yields for a given `"paths"` configuration
/// value: absent means no overrides, a list of N paths means exactly N
/// path-kind ids in order, and a single string is a configuration error.
pub open spec fn paths_config_ok(found: Option<ConfigValue>, r: Result<Vec<SourceId>, CargoError>) -> bool {
    match found {
        None => r matches Ok(ids) && ids@.len() == 0,
        Some(v) => match v {
            ConfigValue::Str(_) => r matches Err(e) && e is Config,
            ConfigValue::List(l) => r matches Ok(ids) && ids@.len() == l@.len()
                && forall|i: int| 0 <= i < l@.len()
                    ==> (#[trigger] ids@[i]).kind == SourceKind::Path && ids@[i].location@ == l@[i]@,
        },
    }
}

/// Computes the override source ids from the loaded configuration mapping.
///
/// Reads only the `"paths"` key.  An absent key yields an empty override
/// set; a list of path strings yields one path-kind `SourceId` per entry,
/// order preserved; a single string is rejected with a configuration-type
/// error.  No side effects: the configuration is already-loaded data.
pub fn source_ids_from_config(configs: &Vec<(String, ConfigValue)>) -> (r: Result<
    Vec<SourceId>,
    CargoError,
>)
    ensures
        paths_config_ok(spec_find_config(configs@, "paths"@), r),
{
    let key: String = "paths".to_owned();
    let mut i: usize = 0;
    proof {
        assert(configs@.skip(0) =~= configs@);
    }
    while i < configs.len()
        invariant
            0 <= i <= configs.len(),
            key@ == "paths"@,
            forall|j: int| 0 <= j < i ==> (#[trigger] configs@[j]).0@ != "paths"@,
            spec_find_config(configs@, "paths"@)
                == spec_find_config(configs@.skip(i as int), "paths"@),
        decreases configs.len() - i,
    {
        proof {
            assert(configs@.skip(i as int).drop_first() =~= configs@.skip(i + 1));
        }
        if configs[i].0 == key {
            assert(configs@.skip(i as int)[0] == configs@[i as int]);
            let ids = match &configs[i].1 {
                ConfigValue::Str(_) => {
                    return Err(CargoError::Config {
                        detail: "the path was configured as a string instead of a list".to_owned(),
                    });
                },
                ConfigValue::List(list) => {
                    let mut ids: Vec<SourceId> = Vec::new();
                    let mut k: usize = 0;
                    while k < list.len()
                        invariant
                            0 <= k <= list.len(),
                            ids@.len() == k,
                            forall|j: int| 0 <= j < k
                                ==> (#[trigger] ids@[j]).kind == SourceKind::Path
                                    && ids@[j].location@ == list@[j]@,
                        decreases list.len() - k,
                    {
                        ids.push(SourceId::for_path(list[k].as_str()));
                        k += 1;
                    }
                    ids
                },
            };
            return Ok(ids);
        }
        i += 1;
    }
    proof {
        assert(configs@.skip(configs@.len() as int) =~= Seq::<(String, ConfigValue)>::empty());
    }
    Ok(Vec::new())
}

} // verus!
