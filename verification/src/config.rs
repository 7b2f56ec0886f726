use vstd::prelude::*;

verus! {

/// The values the indexer core consumes from configuration loading. The
/// surrounding program parses its configuration file, canonicalizes the two
/// directories and normalizes the page root before building this.
pub struct Config {
    /// Canonical absolute path of the served root directory.
    pub file_dir: String,
    /// Canonical absolute path of the thumbnail store directory.
    pub thumbnail_dir: String,
    /// Target width of generated thumbnails, in pixels.
    pub thumbnail_size: u32,
    /// Externally visible path prefix: `/` alone, or `/`-led with no
    /// trailing separator.
    pub page_root: String,
    /// Seconds between two scan passes.
    pub scan_interval_secs: u64,
}

impl Config {
    /// Shape every other contract of the library assumes of a configuration.
    pub open spec fn wf(self) -> bool {
        &&& self.file_dir@.len() > 0
        &&& self.file_dir@[0] == '/'
        &&& self.file_dir@[self.file_dir@.len() - 1] != '/'
        &&& self.page_root@.len() > 0
        &&& self.page_root@[0] == '/'
        &&& (self.page_root@.len() == 1 || self.page_root@[self.page_root@.len() - 1] != '/')
    }
}

/// Failure categories of the indexer core.
#[derive(Clone, Copy, PartialEq, Eq, Structural, Debug)]
pub enum IndexError {
    /// A path did not lie under the expected prefix.
    StripPrefix,
    /// The served root is not a directory.
    FileDirNotDir,
}

/// A named link shown by the surrounding page, taken verbatim from
/// configuration.
#[derive(Clone, Debug)]
pub struct Shortcut {
    pub name: String,
    pub url: String,
}

/// Additive backoff of the scan period: a pass that ran longer than the
/// current period lengthens the period by one base interval, so passes
/// never overlap; once passes fit again the period stays where it is.
pub fn next_period(period_secs: u64, base_secs: u64, elapsed_secs: u64) -> (r: u64)
    ensures
        r == if elapsed_secs > period_secs {
            if period_secs + base_secs > u64::MAX {
                u64::MAX as int
            } else {
                period_secs + base_secs
            }
        } else {
            period_secs as int
        },
{
    if elapsed_secs > period_secs {
        if period_secs > u64::MAX - base_secs {
            u64::MAX
        } else {
            period_secs + base_secs
        }
    } else {
        period_secs
    }
}

/// Default scan interval between two indexing passes, in seconds.
pub fn scan_interval() -> (r: u64)
    ensures
        r == 120,
{
    120
}

/// Default target width of generated thumbnails, in pixels.
pub fn default_thumbnail_size() -> (r: u32)
    ensures
        r == 75,
{
    75
}

/// Default externally visible path prefix.
pub fn default_page_root() -> (r: String)
    ensures
        r@ == seq!['/'],
{
    proof {
        reveal_strlit("/");
    }
    String::from_str("/")
}

} // verus!
