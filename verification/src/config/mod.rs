//! The engine configuration: its defaults, its validation, and the
//! command-line choice of the configuration file.
use vstd::prelude::*;
use vstd::string::StringExecFns;

use crate::error::Error;

verus! {

/// The default target size of the active memtable: 4 MiB.
pub const DEFAULT_MEMTABLE_BYTES: usize = 4194304;

/// The settings read from `bloomy.json`.
#[derive(Debug, Clone, PartialEq, Eq)]
pub struct BloomyConfig {
    /// The directory where the engine stores its files.
    pub storage_path: String,
    /// The target size of the active memtable before a flush.
    pub memtable_bytes: usize,
}

impl Default for BloomyConfig {
    /// Storage in `./bloomy-data` and a 4 MiB memtable.
    fn default() -> (r: Self)
        ensures
            r.storage_path@ == "./bloomy-data"@,
            r.memtable_bytes == DEFAULT_MEMTABLE_BYTES,
    {
        BloomyConfig {
            storage_path: String::from_str("./bloomy-data"),
            memtable_bytes: DEFAULT_MEMTABLE_BYTES,
        }
    }
}

/// What validating a configuration gives.
pub open spec fn validate_spec(config: BloomyConfig) -> Result<(), Error> {
    if config.storage_path@.len() == 0 {
        Err(Error::EmptyStoragePath)
    } else if config.memtable_bytes == 0 {
        Err(Error::ZeroMemtableBytes)
    } else {
        Ok(())
    }
}

/// Rejects a configuration with an empty storage path or a zero memtable
/// size.
pub fn validate(config: &BloomyConfig) -> (r: Result<(), Error>)
    ensures
        r == validate_spec(*config),
{
    if config.storage_path.as_str().is_empty() {
        return Err(Error::EmptyStoragePath);
    }
    if config.memtable_bytes == 0 {
        return Err(Error::ZeroMemtableBytes);
    }
    Ok(())
}

/// A configuration is accepted exactly when its storage path is not empty
/// and its memtable size is not zero, whatever that size is; an empty path
/// is reported before a zero size.
pub proof fn law_validate_accepts_nonempty_path_and_nonzero_size(config: BloomyConfig)
    ensures
        validate_spec(config) is Ok <==> (config.storage_path@.len() > 0
            && config.memtable_bytes > 0),
        config.storage_path@.len() == 0 ==> validate_spec(config) == Err::<(), Error>(
            Error::EmptyStoragePath,
        ),
        config.storage_path@.len() > 0 && config.memtable_bytes == 0 ==> validate_spec(config)
            == Err::<(), Error>(Error::ZeroMemtableBytes),
{
}

/// Reads the optional `--config <path>` from the program's arguments (the
/// program name left out): no argument gives `None`; any other shape is an
/// error naming the offending argument.
pub fn config_path_from_args(args: Vec<String>) -> (r: Result<Option<String>, Error>)
    ensures
        match r {
            Ok(None) => args@.len() == 0,
            Ok(Some(path)) => {
                &&& args@.len() == 2
                &&& args@[0]@ == "--config"@
                &&& path@ == args@[1]@
            },
            Err(e) => {
                &&& args@.len() > 0
                &&& if args@[0]@ != "--config"@ {
                    e == Error::UnknownArgument { arg: args@[0] }
                } else if args@.len() == 1 {
                    e == Error::MissingFlagValue { flag: args@[0] }
                } else {
                    args@.len() > 2 && e == Error::UnknownArgument { arg: args@[2] }
                }
            },
        },
{
    if args.len() == 0 {
        return Ok(None);
    }
    let flag = args[0].clone();
    if flag != String::from_str("--config") {
        return Err(Error::UnknownArgument { arg: flag });
    }
    if args.len() < 2 {
        return Err(Error::MissingFlagValue { flag });
    }
    if args.len() > 2 {
        return Err(Error::UnknownArgument { arg: args[2].clone() });
    }
    Ok(Some(args[1].clone()))
}

} // verus!
