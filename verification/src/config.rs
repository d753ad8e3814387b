//! The options of a run, and the configuration that they resolve into.

use vstd::prelude::*;
use crate::format::{DEFAULT_SPACES, Indentation, JSONFormatStyle, MAX_SPACES, MIN_SPACES};

verus! {

/// The options as they were given, nothing resolved yet.
#[derive(Clone, Debug, PartialEq, Eq)]
pub struct JfmtCliOpts {
    /// Fully compacted output.
    pub compact: bool,
    /// Rewrite the input file in place.
    pub in_place: bool,
    /// Indent by this many spaces.
    pub spaces: Option<u8>,
    /// Indent by one tab.
    pub tabs: bool,
    /// The file to write to; standard output where there is none.
    pub output_file: Option<String>,
    /// Whether the output file may take the place of a file that exists.
    pub may_overwrite: bool,
    /// The path to read; `-` for standard input.
    pub input_file: String,
}

/// The configuration of one run. It is made once and never changed.
#[derive(Clone, Debug, PartialEq, Eq)]
pub struct JfmtConfig {
    pub input: String,
    pub output: Option<String>,
    pub in_place: bool,
    /// Whether the output file may take the place of a file that exists. It
    /// may not unless this was asked for.
    pub may_overwrite: bool,
    pub format: JSONFormatStyle,
}

/// A combination of options that cannot be carried out.
#[derive(Clone, Copy, Debug, PartialEq, Eq, Structural)]
pub enum ConfigError {
    /// Compact output was asked for together with an indentation.
    CompactWithIndentation,
    /// Spaces and tabs were both asked for.
    SpacesWithTabs,
    /// The number of spaces is outside the limits.
    SpacesOutOfRange(u8),
    /// An in-place rewrite was asked for, but the input is standard input.
    InPlaceWithStdin,
    /// An in-place rewrite was asked for together with an output file.
    InPlaceWithOutput,
}

/// The indentation that the two selectors stand for: four spaces where
/// neither is given; never both; spaces only within the limits.
pub open spec fn indent_choice(spaces: Option<u8>, tabs: bool) -> Result<Indentation, ConfigError> {
    match spaces {
        None => if tabs {
            Ok(Indentation::Tabs)
        } else {
            Ok(Indentation::Spaces(DEFAULT_SPACES))
        },
        Some(n) => if tabs {
            Err(ConfigError::SpacesWithTabs)
        } else if MIN_SPACES <= n <= MAX_SPACES {
            Ok(Indentation::Spaces(n))
        } else {
            Err(ConfigError::SpacesOutOfRange(n))
        },
    }
}

/// The style that the three selectors stand for: compact excludes both
/// indentations.
pub open spec fn format_choice(compact: bool, spaces: Option<u8>, tabs: bool) -> Result<
    JSONFormatStyle,
    ConfigError,
> {
    if compact {
        if spaces is Some || tabs {
            Err(ConfigError::CompactWithIndentation)
        } else {
            Ok(JSONFormatStyle::Compact)
        }
    } else {
        match indent_choice(spaces, tabs) {
            Ok(ind) => Ok(JSONFormatStyle::Pretty(ind)),
            Err(e) => Err(e),
        }
    }
}

/// Resolves the indentation selectors.
pub fn resolve_indent(opts: &JfmtCliOpts) -> (r: Result<Indentation, ConfigError>)
    ensures
        r == indent_choice(opts.spaces, opts.tabs),
        r matches Ok(ind) ==> ind.valid(),
{
    match opts.spaces {
        None => {
            if opts.tabs {
                Ok(Indentation::Tabs)
            } else {
                Ok(Indentation::Spaces(DEFAULT_SPACES))
            }
        },
        Some(n) => {
            if opts.tabs {
                Err(ConfigError::SpacesWithTabs)
            } else if MIN_SPACES <= n && n <= MAX_SPACES {
                Ok(Indentation::Spaces(n))
            } else {
                Err(ConfigError::SpacesOutOfRange(n))
            }
        },
    }
}

/// Resolves the options into a configuration, or says which of them
/// contradict each other.
pub fn parse_cli(opts: JfmtCliOpts) -> (r: Result<JfmtConfig, ConfigError>)
    ensures
        match r {
            Ok(cfg) => format_choice(opts.compact, opts.spaces, opts.tabs) == Ok::<
                JSONFormatStyle,
                ConfigError,
            >(cfg.format) && cfg.format.valid() && cfg.input == opts.input_file && cfg.output
                == opts.output_file && cfg.in_place == opts.in_place && cfg.may_overwrite
                == opts.may_overwrite,
            Err(e) => format_choice(opts.compact, opts.spaces, opts.tabs) == Err::<
                JSONFormatStyle,
                ConfigError,
            >(e),
        },
{
    let format = if opts.compact {
        if opts.spaces.is_some() || opts.tabs {
            return Err(ConfigError::CompactWithIndentation);
        }
        JSONFormatStyle::Compact
    } else {
        match resolve_indent(&opts) {
            Ok(ind) => JSONFormatStyle::Pretty(ind),
            Err(e) => {
                return Err(e);
            },
        }
    };
    Ok(
        JfmtConfig {
            input: opts.input_file,
            output: opts.output_file,
            in_place: opts.in_place,
            may_overwrite: opts.may_overwrite,
            format,
        },
    )
}

} // verus!
