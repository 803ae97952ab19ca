use vstd::prelude::*;

verus! {

/// Where one blocklist comes from: its URL, and the local file that caches
/// it. The cached copy, where present, is used forever; replacing it is up to
/// whoever calls the download.
pub struct Fetcher {
    cache_path: String,
    url: String,
}

impl Fetcher {
    /// The URL the list is downloaded from.
    pub closed spec fn spec_url(&self) -> Seq<char> {
        self.url@
    }

    /// The path of the file the list is cached in.
    pub closed spec fn spec_cache_path(&self) -> Seq<char> {
        self.cache_path@
    }

    pub fn new(url: &str, cache_path: &str) -> (f: Self)
        ensures
            f.spec_url() == url@,
            f.spec_cache_path() == cache_path@,
    {
        Fetcher { cache_path: cache_path.to_owned(), url: url.to_owned() }
    }

    pub fn url(&self) -> (r: &str)
        ensures
            r@ == self.spec_url(),
    {
        self.url.as_str()
    }

    pub fn cache_path(&self) -> (r: &str)
        ensures
            r@ == self.spec_cache_path(),
    {
        self.cache_path.as_str()
    }
}

/// One step of getting a list's data.
#[derive(Debug, Clone, Copy, PartialEq, Eq, Structural)]
pub enum FetchStep {
    /// Read the cache file.
    ReadCache,
    /// Download the list into the cache file.
    Download,
    /// Read the cache file that the download wrote.
    ReadDownloaded,
}

/// What to do next while getting a list's data.
#[derive(Debug, Clone, Copy, PartialEq, Eq, Structural)]
pub enum FetchAction {
    Perform(FetchStep),
    /// Hand back the data that the last read gave.
    ReturnData,
    /// Hand back the error of the last step.
    ReturnError,
}

/// The cache comes first: a cache that can be read is used as it is;
/// otherwise the list is downloaded into the cache, which is then read.
pub open spec fn fetch_plan(step: FetchStep, succeeded: bool) -> FetchAction {
    match step {
        FetchStep::ReadCache => if succeeded {
            FetchAction::ReturnData
        } else {
            FetchAction::Perform(FetchStep::Download)
        },
        FetchStep::Download => if succeeded {
            FetchAction::Perform(FetchStep::ReadDownloaded)
        } else {
            FetchAction::ReturnError
        },
        FetchStep::ReadDownloaded => if succeeded {
            FetchAction::ReturnData
        } else {
            FetchAction::ReturnError
        },
    }
}

impl Fetcher {
    /// The first step of getting the data: reading the cache.
    pub fn first_step() -> (s: FetchStep)
        ensures
            s == FetchStep::ReadCache,
    {
        FetchStep::ReadCache
    }

    /// What follows `step`, given whether it succeeded.
    pub fn next_action(step: FetchStep, succeeded: bool) -> (a: FetchAction)
        ensures
            a == fetch_plan(step, succeeded),
    {
        match step {
            FetchStep::ReadCache => if succeeded {
                FetchAction::ReturnData
            } else {
                FetchAction::Perform(FetchStep::Download)
            },
            FetchStep::Download => if succeeded {
                FetchAction::Perform(FetchStep::ReadDownloaded)
            } else {
                FetchAction::ReturnError
            },
            FetchStep::ReadDownloaded => if succeeded {
                FetchAction::ReturnData
            } else {
                FetchAction::ReturnError
            },
        }
    }
}

} // verus!
