//! Run configuration: the storage directory, the tracked people with
//! their optional reminder durations, and the ignore list.  Loading the
//! configuration from disk is the caller's business; the core consumes
//! the loaded values read-only.

use vstd::prelude::*;

verus! {

/// A tracked person, with an optional reminder duration such as
/// `"3 months"`.
#[derive(Clone, Debug, PartialEq, Eq)]
pub struct Person {
    pub name: String,
    pub location: String,
    pub themes: Vec<String>,
    pub remind_after: Option<String>,
}

/// The mathematical content of a person's configuration entry.
#[verifier::ext_equal]
pub struct SpecPerson {
    pub name: Seq<char>,
    pub location: Seq<char>,
    pub themes: Seq<Seq<char>>,
    pub remind_after: Option<Seq<char>>,
}

impl View for Person {
    type V = SpecPerson;

    open spec fn view(&self) -> SpecPerson {
        SpecPerson {
            name: self.name@,
            location: self.location@,
            themes: self.themes.deep_view(),
            remind_after: (match self.remind_after {
                Option::Some(ref s) => Option::Some(s@),
                Option::None => Option::None,
            }),
        }
    }
}

impl DeepView for Person {
    type V = SpecPerson;

    open spec fn deep_view(&self) -> SpecPerson {
        self@
    }
}

/// One run's configuration.
#[derive(Clone, Debug)]
pub struct Config {
    pub people_dir: String,
    pub ignore: Vec<String>,
    pub people: Vec<Person>,
}

/// The mathematical content of a configuration.
#[verifier::ext_equal]
pub struct SpecConfig {
    pub people_dir: Seq<char>,
    pub ignore: Seq<Seq<char>>,
    pub people: Seq<SpecPerson>,
}

impl View for Config {
    type V = SpecConfig;

    open spec fn view(&self) -> SpecConfig {
        SpecConfig {
            people_dir: self.people_dir@,
            ignore: self.ignore.deep_view(),
            people: self.people.deep_view(),
        }
    }
}

impl Config {
    /// The directory that holds the per-person log files.
    pub fn get_per_person_dir(&self) -> (r: String)
        ensures
            r@ == self.people_dir@ + "/per-person-logs"@,
    {
        self.people_dir.clone().concat("/per-person-logs")
    }
}

/// Why a configuration could not be loaded.
#[derive(Clone, Debug)]
pub enum ConfigError {
    /// No home directory was found to locate the configuration under.
    HomeNotFound,
    /// No configuration file exists at the expected path.
    ConfigFileNotFound(String),
    /// The configuration file did not parse; the payload says why.
    ConfigFileHasUnsupportedFormat(String),
}

} // verus!
