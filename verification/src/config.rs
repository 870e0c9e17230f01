//! Settings of one run and their validation.

use vstd::prelude::*;

verus! {

/// The extension looked for when none is given: `mp4`.
pub open spec fn default_extension_text() -> Seq<char> {
    seq!['m', 'p', '4']
}

/// Number of newest files that are kept when none is given.
pub const DEFAULT_MIN_FILES: u16 = 10;

/// Days during which a file is kept when none is given.
pub const DEFAULT_KEEP_DAYS: i64 = 14;

/// Why a set of settings is refused.
#[derive(Clone, Copy, Debug, PartialEq, Eq, Structural)]
pub enum ConfigError {
    /// The retention window is shorter than one day.
    KeepDaysNotPositive,
}

/// What is shown to the user for a retention window shorter than one day.
pub open spec fn keep_days_message() -> Seq<char> {
    "keep_days must be greater than 0"@
}

impl ConfigError {
    /// The error in words, for the user.
    pub fn message(&self) -> (text: String)
        ensures
            text@ == keep_days_message(),
    {
        "keep_days must be greater than 0".to_owned()
    }
}

/// The retention window is valid when it spans at least one day.
pub open spec fn keep_days_valid(keep_days: int) -> bool {
    keep_days >= 1
}

/// Accepts a retention window of at least one day and refuses any other.
pub fn validate_keep_days(keep_days: i64) -> (r: Result<(), ConfigError>)
    ensures
        r is Ok <==> keep_days_valid(keep_days as int),
        r matches Err(e) ==> e == ConfigError::KeepDaysNotPositive,
{
    if keep_days < 1 {
        Err(ConfigError::KeepDaysNotPositive)
    } else {
        Ok(())
    }
}

/// The extension `mp4`.
pub fn default_extension() -> (r: String)
    ensures
        r@ == default_extension_text(),
{
    proof {
        reveal_strlit("mp4");
    }
    "mp4".to_owned()
}

/// The extension that a run looks for: the one given, or `mp4` where none
/// is given.
pub open spec fn extension_or_default(file_extension: Option<String>) -> Seq<char> {
    match file_extension {
        Some(extension) => extension@,
        None => default_extension_text(),
    }
}

/// The settings of one run. They do not change while it lasts, and their
/// retention window spans at least one day.
#[derive(Debug)]
pub struct ScanConfig {
    root_path: String,
    extension: String,
    min_files: u16,
    keep_days: i64,
}

/// A [`ScanConfig`] as contracts see it.
pub struct ScanConfigView {
    /// Directory at which the scan starts.
    pub root_path: Seq<char>,
    /// Extension that a file must carry, without its dot.
    pub extension: Seq<char>,
    /// Number of newest files that are kept whatever their age.
    pub min_files: nat,
    /// Days during which every file is kept.
    pub keep_days: int,
}

impl View for ScanConfig {
    type V = ScanConfigView;

    closed spec fn view(&self) -> ScanConfigView {
        ScanConfigView {
            root_path: self.root_path@,
            extension: self.extension@,
            min_files: self.min_files as nat,
            keep_days: self.keep_days as int,
        }
    }
}

impl ScanConfig {
    #[verifier::type_invariant]
    spec fn window_valid(self) -> bool {
        keep_days_valid(self.keep_days as int)
    }

    /// Settings for a scan of `root_path`. Where no extension is given, `mp4`
    /// is looked for. A retention window shorter than one day is refused.
    pub fn new(
        root_path: String,
        file_extension: Option<String>,
        min_files: u16,
        keep_days: i64,
    ) -> (r: Result<ScanConfig, ConfigError>)
        ensures
            r is Ok <==> keep_days_valid(keep_days as int),
            r matches Err(e) ==> e == ConfigError::KeepDaysNotPositive,
            r matches Ok(config) ==> config@ == (ScanConfigView {
                root_path: root_path@,
                extension: extension_or_default(file_extension),
                min_files: min_files as nat,
                keep_days: keep_days as int,
            }),
    {
        if keep_days < 1 {
            return Err(ConfigError::KeepDaysNotPositive);
        }
        let extension = match file_extension {
            Some(extension) => extension,
            None => default_extension(),
        };
        Ok(ScanConfig { root_path, extension, min_files, keep_days })
    }

    /// Settings for a scan of `root_path` for `mp4` files that keeps the ten
    /// newest files and every file of the last fourteen days.
    pub fn with_defaults(root_path: String) -> (config: ScanConfig)
        ensures
            config@ == (ScanConfigView {
                root_path: root_path@,
                extension: default_extension_text(),
                min_files: DEFAULT_MIN_FILES as nat,
                keep_days: DEFAULT_KEEP_DAYS as int,
            }),
    {
        ScanConfig {
            root_path,
            extension: default_extension(),
            min_files: DEFAULT_MIN_FILES,
            keep_days: DEFAULT_KEEP_DAYS,
        }
    }

    /// Directory at which the scan starts.
    pub fn root_path(&self) -> (path: &str)
        ensures
            path@ == self@.root_path,
    {
        self.root_path.as_str()
    }

    /// Extension that a file must carry, without its dot.
    pub fn extension(&self) -> (extension: &str)
        ensures
            extension@ == self@.extension,
    {
        self.extension.as_str()
    }

    /// Number of newest files that are kept whatever their age.
    pub fn min_files(&self) -> (min_files: u16)
        ensures
            min_files == self@.min_files,
    {
        self.min_files
    }

    /// Days during which every file is kept: at least one.
    pub fn keep_days(&self) -> (keep_days: i64)
        ensures
            keep_days == self@.keep_days,
            keep_days_valid(keep_days as int),
    {
        proof {
            use_type_invariant(self);
        }
        self.keep_days
    }
}

} // verus!
