//! Resolution of browser-support queries (`"last 2 versions"`, `"> 0.5%"`,
//! `"not dead"`) into sorted lists of browser versions, against bundled
//! compatibility datasets.
mod data;
mod dates;
mod error;
mod laws;
mod parser;
mod ranges;
mod resolver;
mod selectors;
mod text;
mod usage;
mod version;

pub use data::{
    get_browser_alias, get_browser_stat, to_desktop_name, BrowserStat, Data, ElectronRelease, ReleaseDate, UsageEntry,
    VersionAlias,
};
pub use error::{Distrib, Error, Opts};
pub use laws::{
    lemma_and_intersects, lemma_last_n_of_browser, lemma_last_n_versions_released, lemma_not_cancels, lemma_not_removes, lemma_or_repeat_same_entries, lemma_resolve_and_intersects,
    lemma_resolve_not_cancels, lemma_resolve_repeat, lemma_resolve_since_epoch, lemma_resolved_entries, lemma_since_epoch,
    lemma_sort_is_permutation,
};
pub use parser::{parse, Clause};
pub use resolver::{execute, query, resolve};
pub use selectors::{count_android_filter, should_filter_android};
pub use version::{lemma_version_order_symmetric, lemma_version_order_transitive, semver_compare, semver_loose_compare};
