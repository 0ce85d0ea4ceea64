use crate::errors::ConfigError;
use vstd::prelude::*;

verus! {

/// Resolved configuration for one dataset side: where its records live and
/// which fields form the join key, in declared order.
#[derive(Debug)]
pub struct SideConfig {
    pub path: Vec<u8>,
    pub key_fields: Vec<Vec<u8>>,
}

/// Checks one side's raw configuration before any record is processed:
/// the dataset and its key-field list must be present and the list
/// non-empty. Each missing piece surfaces as its own error.
pub fn resolve_side(path: Option<Vec<u8>>, key_fields: Option<Vec<Vec<u8>>>) -> (r: Result<
    SideConfig,
    ConfigError,
>)
    ensures
        match r {
            Ok(sc) => path == Some(sc.path) && key_fields == Some(sc.key_fields)
                && sc.key_fields@.len() > 0,
            Err(e) => match e {
                ConfigError::MissingDataset => path is None,
                ConfigError::MissingKeyFields => path is Some && key_fields is None,
                ConfigError::EmptyKeyFields => path is Some && key_fields is Some
                    && key_fields.unwrap()@.len() == 0,
            },
        },
{
    let p = match path {
        Some(p) => p,
        None => {
            return Err(ConfigError::MissingDataset);
        },
    };
    let kf = match key_fields {
        Some(kf) => kf,
        None => {
            return Err(ConfigError::MissingKeyFields);
        },
    };
    if kf.len() == 0 {
        return Err(ConfigError::EmptyKeyFields);
    }
    Ok(SideConfig { path: p, key_fields: kf })
}

} // verus!
