//! Run settings: the optional configuration file's values and how they
//! combine with command-line settings, and the export formats.
use vstd::prelude::*;

use crate::text::{chars_of, lower_char, lower_seq, same_text, string_of};

verus! {

/// Settings read from a configuration file; every field is optional.
#[derive(Debug, Clone)]
pub struct Config {
    pub model_path: Option<String>,
    pub device: Option<String>,
    pub chunk_tokens: Option<usize>,
    pub chunk_overlap: Option<usize>,
    pub tokenizer_json: Option<String>,
}

/// The settings a run uses.
#[derive(Debug, Clone)]
pub struct Settings {
    pub model_path: Option<String>,
    pub device: String,
    pub tokenizer_path: Option<String>,
}

/// The export formats on offer.
#[derive(Debug, Clone, Copy, PartialEq, Eq, Structural)]
pub enum ExportFormat {
    GraphMl,
}

pub open spec fn opt_view(o: Option<String>) -> Option<Seq<char>> {
    match o {
        Some(s) => Some(s@),
        None => None,
    }
}

fn copy_opt(o: &Option<String>) -> (r: Option<String>)
    ensures
        opt_view(r) == opt_view(*o),
{
    match o {
        Some(s) => Some(s.clone()),
        None => None,
    }
}

impl Config {
    /// A configuration that sets nothing.
    pub fn empty() -> (r: Config)
        ensures
            r.model_path is None,
            r.device is None,
            r.chunk_tokens is None,
            r.chunk_overlap is None,
            r.tokenizer_json is None,
    {
        Config { model_path: None, device: None, chunk_tokens: None, chunk_overlap: None, tokenizer_json: None }
    }
}

impl Settings {
    /// The command-line settings completed from `cfg`: a model path or
    /// tokenizer path not given takes the file's; the device takes the file's
    /// when the command line left it at `cpu`.
    pub fn resolve(model_path: Option<String>, device: String, tokenizer_path: Option<String>, cfg: &Config) -> (r: Settings)
        ensures
            opt_view(r.model_path) == (if model_path is Some { opt_view(model_path) } else { opt_view(cfg.model_path) }),
            r.device@ == (if device@ == "cpu"@ && cfg.device is Some { cfg.device->0@ } else { device@ }),
            opt_view(r.tokenizer_path) == (if tokenizer_path is Some { opt_view(tokenizer_path) } else { opt_view(cfg.tokenizer_json) }),
    {
        let model_path = if model_path.is_some() { model_path } else { copy_opt(&cfg.model_path) };
        let device = if same_text(device.as_str(), "cpu") {
            match &cfg.device {
                Some(d) => d.clone(),
                None => device,
            }
        } else {
            device
        };
        let tokenizer_path = if tokenizer_path.is_some() { tokenizer_path } else { copy_opt(&cfg.tokenizer_json) };
        Settings { model_path, device, tokenizer_path }
    }
}

/// The export format named `name`, matched without regard to ASCII case.
pub fn export_format(name: &str) -> (r: Option<ExportFormat>)
    ensures
        r == (if lower_seq(name@) == "graphml"@ { Some(ExportFormat::GraphMl) } else { None }),
{
    let cs = chars_of(name);
    let mut low: Vec<char> = Vec::new();
    let mut i: usize = 0;
    while i < cs.len()
        invariant
            cs@ == name@,
            i <= cs.len(),
            low@ == lower_seq(name@).take(i as int),
        decreases cs.len() - i,
    {
        low.push(lower_char(cs[i]));
        i = i + 1;
        assert(low@ =~= lower_seq(name@).take(i as int));
    }
    assert(low@ =~= lower_seq(name@));
    let l = string_of(&low);
    if same_text(l.as_str(), "graphml") {
        Some(ExportFormat::GraphMl)
    } else {
        None
    }
}

} // verus!
