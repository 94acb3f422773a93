//! Configuration values.
//!
//! A configuration names the source tree, an optional destination tree,
//! the sync mode, and an optional ignore file. Loading it from disk is
//! the caller's affair; this module owns the value itself and what can
//! be read from or changed in it.

use vstd::prelude::*;
use crate::textutil::lines_vec;
use crate::textutil::text_lines;

verus! {

/// The core table of a configuration.
pub struct CoreConfig {
    pub ignore_file: Option<String>,
    pub mode: String,
    pub src: String,
    pub dst: Option<String>,
}

/// A configuration: so far only its core table.
pub struct Config {
    pub core: CoreConfig,
}

/// The error for a configuration that could not be had.
#[derive(Clone)]
pub struct ConfigError;

impl ConfigError {
    /// What went wrong, in words.
    pub fn message(&self) -> (r: String)
        ensures
            r@ == "Failed to get config"@,
    {
        "Failed to get config".to_owned()
    }
}

/// Whether a configuration was there to be had.
pub fn cfg_exists(cfg: &Result<Config, ConfigError>) -> (r: bool)
    ensures
        r == cfg.is_ok(),
{
    cfg.is_ok()
}

/// The source tree's root.
pub fn get_cfg_src_dir(cfg: &Config) -> (r: String)
    ensures
        r@ == cfg.core.src@,
{
    cfg.core.src.clone()
}

/// The destination tree's root, of a configuration that has one set.
pub fn get_cfg_dst_dir(cfg: &Config) -> (r: String)
    requires
        cfg.core.dst.is_some(),
    ensures
        r@ == cfg.core.dst.unwrap()@,
{
    if let Some(d) = &cfg.core.dst {
        d.clone()
    } else {
        vstd::pervasive::unreached()
    }
}

/// Point the configuration at a new destination; nothing else moves.
pub fn cfg_set_dst(cfg: &mut Config, dst: String)
    ensures
        final(cfg).core.dst == Some(dst),
        final(cfg).core.src == old(cfg).core.src,
        final(cfg).core.mode == old(cfg).core.mode,
        final(cfg).core.ignore_file == old(cfg).core.ignore_file,
{
    cfg.core.dst = Some(dst);
}

/// The ignore file's name, if one is set.
pub fn get_ignore_file(cfg: &Config) -> (r: Option<String>)
    ensures
        r == cfg.core.ignore_file,
{
    match &cfg.core.ignore_file {
        Some(f) => Some(f.clone()),
        None => None,
    }
}

/// The sync mode's name.
pub fn get_mode(cfg: &Config) -> (r: String)
    ensures
        r@ == cfg.core.mode@,
{
    cfg.core.mode.clone()
}

/// The patterns of an ignore file's text, one per line.
pub fn get_ignore_patterns(text: &str) -> (r: Vec<String>)
    ensures
        r@.map_values(|p: String| p@) == text_lines(text@),
{
    lines_vec(text)
}

} // verus!
