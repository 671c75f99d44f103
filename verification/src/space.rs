//! Storage policy: how much data the Hub takes, when it warns, and what cleanup may remove.
use crate::json::{flag, get, is_null, json_of, keys_in, lemma_object_of, member, members, natural,
    natural_in, object, object_of, optional_text, pair, text, text_list, text_or_null,
    texts_to_json, Json};
use crate::outside::{optional, pairs_of};
use crate::params::{law_parameters_are_found, lemma_value_of, value_of};
use crate::seqs::lemma_filter;
use crate::state::{by_name, repository_views, RepositoryView, State};
use crate::text::{append, append_decimal, decimal, same, starts_with, texts};
use serde_json::Value;
use vstd::prelude::*;

verus! {

/// The number of bytes in a MiB.
pub const MIB: u64 = 1048576;

/// The largest number of MiB whose bytes fit in 64 bits.
pub const MAX_MIB: u64 = 17592186044415;

// ---------------------------------------------------------------------------
// Policy
// ---------------------------------------------------------------------------

/// The storage settings of a Hub.
#[derive(Clone, Copy, Debug, PartialEq, Eq, Structural)]
pub struct Policy {
    /// Total data admission budget in MiB.
    pub quota_mib: u64,
    /// Percentage of the quota at which the Hub warns.
    pub warn_percent: u8,
    /// Free space of the filesystem, in MiB, below which uploads pause.
    pub min_free_mib: u64,
    /// Age at which abandoned temporary files expire.
    pub temp_max_age_hours: u64,
    /// Time between two cleanup passes.
    pub cleanup_interval_hours: u64,
}

/// Which setting of a policy is out of range.
#[derive(Clone, Copy, Debug, PartialEq, Eq, Structural)]
pub enum PolicyError {
    Quota,
    WarnPercent,
    MinFree,
    TempMaxAge,
    CleanupInterval,
}

impl PolicyError {
    /// The message of the failure.
    pub open spec fn text(self) -> Seq<char> {
        match self {
            PolicyError::Quota => "quota_mib must be positive and fit in bytes"@,
            PolicyError::WarnPercent => "warn_percent must be between 1 and 100"@,
            PolicyError::MinFree => "min_free_mib is too large"@,
            PolicyError::TempMaxAge => "temp_max_age_hours must be between 1 and 876000"@,
            PolicyError::CleanupInterval => "cleanup_interval_hours must be between 1 and 8760"@,
        }
    }

    /// The message for the person who set the policy.
    pub fn message(&self) -> (r: String)
        ensures
            r@ == self.text(),
    {
        match self {
            PolicyError::Quota => "quota_mib must be positive and fit in bytes".to_owned(),
            PolicyError::WarnPercent => "warn_percent must be between 1 and 100".to_owned(),
            PolicyError::MinFree => "min_free_mib is too large".to_owned(),
            PolicyError::TempMaxAge => "temp_max_age_hours must be between 1 and 876000".to_owned(),
            PolicyError::CleanupInterval =>
                "cleanup_interval_hours must be between 1 and 8760".to_owned(),
        }
    }
}

impl Policy {
    /// The first setting that is out of range, in the order of the fields.
    pub open spec fn fault(self) -> Option<PolicyError> {
        if !(0 < self.quota_mib && self.quota_mib * MIB <= u64::MAX) {
            Some(PolicyError::Quota)
        } else if !(1 <= self.warn_percent <= 100) {
            Some(PolicyError::WarnPercent)
        } else if self.min_free_mib * MIB > u64::MAX {
            Some(PolicyError::MinFree)
        } else if !(1 <= self.temp_max_age_hours <= 876000) {
            Some(PolicyError::TempMaxAge)
        } else if !(1 <= self.cleanup_interval_hours <= 8760) {
            Some(PolicyError::CleanupInterval)
        } else {
            None
        }
    }

    /// Whether every setting is in range.
    pub open spec fn valid(self) -> bool {
        self.fault() is None
    }

    /// The quota in bytes.
    pub open spec fn quota(self) -> int {
        self.quota_mib * MIB
    }

    /// The free-space reserve in bytes.
    pub open spec fn reserve(self) -> int {
        self.min_free_mib * MIB
    }

    /// Whether the quota and the reserve can be counted in bytes.
    pub open spec fn fits(self) -> bool {
        self.quota() <= u64::MAX && self.reserve() <= u64::MAX
    }

    /// Checks the range of every setting.
    pub fn validate(&self) -> (r: Result<(), PolicyError>)
        ensures
            match r {
                Ok(()) => self.valid(),
                Err(e) => self.fault() == Some(e),
            },
    {
        if !(self.quota_mib > 0 && self.quota_mib <= MAX_MIB) {
            return Err(PolicyError::Quota);
        }
        if !(1 <= self.warn_percent && self.warn_percent <= 100) {
            return Err(PolicyError::WarnPercent);
        }
        if self.min_free_mib > MAX_MIB {
            return Err(PolicyError::MinFree);
        }
        if !(1 <= self.temp_max_age_hours && self.temp_max_age_hours <= 876000) {
            return Err(PolicyError::TempMaxAge);
        }
        if !(1 <= self.cleanup_interval_hours && self.cleanup_interval_hours <= 8760) {
            return Err(PolicyError::CleanupInterval);
        }
        Ok(())
    }
}

/// The settings of a new Hub: 5 GiB, a warning at 80 percent, a reserve of 3 GiB, and daily
/// cleanup of temporary files that are a week old.
pub open spec fn default_policy() -> Policy {
    Policy {
        quota_mib: 5120,
        warn_percent: 80,
        min_free_mib: 3072,
        temp_max_age_hours: 168,
        cleanup_interval_hours: 24,
    }
}

impl Default for Policy {
    fn default() -> (r: Self)
        ensures
            r == default_policy(),
            r.valid(),
    {
        Policy {
            quota_mib: 5120,
            warn_percent: 80,
            min_free_mib: 3072,
            temp_max_age_hours: 168,
            cleanup_interval_hours: 24,
        }
    }
}

/// A change of some settings of a policy.
#[derive(Clone, Copy, Debug, PartialEq, Eq, Structural)]
pub struct PolicyUpdate {
    /// Total Hub data admission budget: Git, LFS, indexes and temporary files.
    pub quota_mib: Option<u64>,
    /// Warn when this percentage of the quota is used.
    pub warn_percent: Option<u8>,
    /// Pause new uploads below this filesystem free-space reserve.
    pub min_free_mib: Option<u64>,
    /// Retain abandoned temporary files for this long; saved history never expires.
    pub temp_max_age_hours: Option<u64>,
    /// Time between automatic cleanup passes while the server is running.
    pub cleanup_interval_hours: Option<u64>,
}

impl Default for PolicyUpdate {
    fn default() -> (r: Self)
        ensures
            r == no_update(),
    {
        PolicyUpdate {
            quota_mib: None,
            warn_percent: None,
            min_free_mib: None,
            temp_max_age_hours: None,
            cleanup_interval_hours: None,
        }
    }
}

/// The change of nothing.
pub open spec fn no_update() -> PolicyUpdate {
    PolicyUpdate {
        quota_mib: None,
        warn_percent: None,
        min_free_mib: None,
        temp_max_age_hours: None,
        cleanup_interval_hours: None,
    }
}

/// The new setting where there is one, and the current setting elsewhere.
pub open spec fn either<T>(new: Option<T>, current: T) -> T {
    match new {
        Some(x) => x,
        None => current,
    }
}

/// A setting in a JSON object: absent and null leave it alone, and a number must fit.
pub open spec fn setting(j: Json, key: Seq<char>, max: nat) -> Result<Option<u64>, ()> {
    match member(j, key) {
        None => Ok(None),
        Some(Json::Null) => Ok(None),
        Some(Json::Natural(n)) => if n <= max {
            Ok(Some(n))
        } else {
            Err(())
        },
        _ => Err(()),
    }
}

/// Whether a key names a setting.
pub open spec fn is_setting(key: Seq<char>) -> bool {
    ||| key == "quota_mib"@
    ||| key == "warn_percent"@
    ||| key == "min_free_mib"@
    ||| key == "temp_max_age_hours"@
    ||| key == "cleanup_interval_hours"@
}

/// Whether a JSON value is an object of settings.
pub open spec fn is_update(j: Json) -> bool {
    &&& j is Object
    &&& forall|key: Seq<char>| (j->Object_0).contains_key(key) ==> is_setting(key)
    &&& setting(j, "quota_mib"@, u64::MAX as nat) is Ok
    &&& setting(j, "warn_percent"@, u8::MAX as nat) is Ok
    &&& setting(j, "min_free_mib"@, u64::MAX as nat) is Ok
    &&& setting(j, "temp_max_age_hours"@, u64::MAX as nat) is Ok
    &&& setting(j, "cleanup_interval_hours"@, u64::MAX as nat) is Ok
}

/// The settings that a JSON object of settings names.
pub open spec fn update_of(j: Json) -> PolicyUpdate {
    PolicyUpdate {
        quota_mib: setting(j, "quota_mib"@, u64::MAX as nat)->Ok_0,
        warn_percent: match setting(j, "warn_percent"@, u8::MAX as nat)->Ok_0 {
            Some(n) => Some(n as u8),
            None => None,
        },
        min_free_mib: setting(j, "min_free_mib"@, u64::MAX as nat)->Ok_0,
        temp_max_age_hours: setting(j, "temp_max_age_hours"@, u64::MAX as nat)->Ok_0,
        cleanup_interval_hours: setting(j, "cleanup_interval_hours"@, u64::MAX as nat)->Ok_0,
    }
}

fn read_setting(v: &Value, key: &str, max: u64) -> (r: Result<Option<u64>, ()>)
    ensures
        r == setting(json_of(*v), key@, max as nat),
{
    match get(v, key) {
        None => Ok(None),
        Some(x) => {
            if is_null(x) {
                Ok(None)
            } else {
                match natural_in(x) {
                    Some(n) => if n <= max {
                        Ok(Some(n))
                    } else {
                        Err(())
                    },
                    None => Err(()),
                }
            }
        },
    }
}

fn names_setting(key: &str) -> (r: bool)
    ensures
        r == is_setting(key@),
{
    same(key, "quota_mib") || same(key, "warn_percent") || same(key, "min_free_mib") || same(
        key,
        "temp_max_age_hours",
    ) || same(key, "cleanup_interval_hours")
}

impl PolicyUpdate {
    /// The policy with the named settings replaced.
    pub open spec fn merged(self, current: Policy) -> Policy {
        Policy {
            quota_mib: either(self.quota_mib, current.quota_mib),
            warn_percent: either(self.warn_percent, current.warn_percent),
            min_free_mib: either(self.min_free_mib, current.min_free_mib),
            temp_max_age_hours: either(self.temp_max_age_hours, current.temp_max_age_hours),
            cleanup_interval_hours: either(
                self.cleanup_interval_hours,
                current.cleanup_interval_hours,
            ),
        }
    }

    /// Replaces the named settings, if the result is in range.
    pub fn apply(&self, current: &Policy) -> (r: Result<Policy, PolicyError>)
        ensures
            match r {
                Ok(p) => p == self.merged(*current) && p.valid(),
                Err(e) => self.merged(*current).fault() == Some(e),
            },
    {
        let policy = Policy {
            quota_mib: self.quota_mib.unwrap_or(current.quota_mib),
            warn_percent: self.warn_percent.unwrap_or(current.warn_percent),
            min_free_mib: self.min_free_mib.unwrap_or(current.min_free_mib),
            temp_max_age_hours: self.temp_max_age_hours.unwrap_or(current.temp_max_age_hours),
            cleanup_interval_hours: self.cleanup_interval_hours.unwrap_or(
                current.cleanup_interval_hours,
            ),
        };
        match policy.validate() {
            Ok(()) => Ok(policy),
            Err(e) => Err(e),
        }
    }

    /// Reads a partial JSON object of settings; an unknown key or an unfit value is refused.
    pub fn from_json(v: &Value) -> (r: Option<PolicyUpdate>)
        ensures
            match r {
                Some(u) => is_update(json_of(*v)) && u == update_of(json_of(*v)),
                None => !is_update(json_of(*v)),
            },
    {
        let keys = match keys_in(v) {
            Some(keys) => keys,
            None => return None,
        };
        let mut i: usize = 0;
        while i < keys.len()
            invariant
                i <= keys@.len(),
                json_of(*v) is Object,
                forall|key: Seq<char>| #[trigger]
                    texts(keys@).contains(key) == (json_of(*v)->Object_0).contains_key(key),
                forall|k: int| 0 <= k < i ==> is_setting(#[trigger] texts(keys@)[k]),
            decreases keys@.len() - i,
        {
            if !names_setting(keys[i].as_str()) {
                assert(texts(keys@)[i as int] == keys@[i as int]@);
                assert(texts(keys@).contains(keys@[i as int]@));
                return None;
            }
            i += 1;
        }
        assert forall|key: Seq<char>|
            (json_of(*v)->Object_0).contains_key(key) implies is_setting(key) by {
            assert(texts(keys@).contains(key));
        }
        let quota_mib = match read_setting(v, "quota_mib", u64::MAX) {
            Ok(n) => n,
            Err(()) => return None,
        };
        let warn_percent: Option<u8> = match read_setting(v, "warn_percent", 255) {
            Ok(Some(n)) => Some(n as u8),
            Ok(None) => None,
            Err(()) => return None,
        };
        let min_free_mib = match read_setting(v, "min_free_mib", u64::MAX) {
            Ok(n) => n,
            Err(()) => return None,
        };
        let temp_max_age_hours = match read_setting(v, "temp_max_age_hours", u64::MAX) {
            Ok(n) => n,
            Err(()) => return None,
        };
        let cleanup_interval_hours = match read_setting(v, "cleanup_interval_hours", u64::MAX) {
            Ok(n) => n,
            Err(()) => return None,
        };
        Some(
            PolicyUpdate {
                quota_mib,
                warn_percent,
                min_free_mib,
                temp_max_age_hours,
                cleanup_interval_hours,
            },
        )
    }
}

// ---------------------------------------------------------------------------
// Usage
// ---------------------------------------------------------------------------

/// A refusal to store more data, with its reason.
#[derive(Debug)]
pub struct StorageLimit(pub String);

/// Why a storage operation failed.
#[derive(Debug)]
pub enum SpaceError {
    /// The data directory holds a symbolic link at this path.
    Symlink(String),
    /// The sizes of the files do not fit in 64 bits.
    SizeOverflow,
    /// No date is that long ago.
    InvalidCutoff,
    /// What should be a directory of temporary files is something else.
    NotADirectory,
    /// The upload does not fit.
    Limit(StorageLimit),
}

impl SpaceError {
    /// The message of the failure.
    pub open spec fn text(self) -> Seq<char> {
        match self {
            SpaceError::Symlink(path) => "Hub storage must not contain symlinks: "@ + path@,
            SpaceError::SizeOverflow => "Storage size overflow"@,
            SpaceError::InvalidCutoff => "Invalid cleanup cutoff"@,
            SpaceError::NotADirectory => "Temporary directory must be a real directory"@,
            SpaceError::Limit(limit) => limit.0@,
        }
    }

    /// Tells the message of the failure.
    pub fn message(&self) -> (r: String)
        ensures
            r@ == self.text(),
    {
        match self {
            SpaceError::Symlink(path) => {
                let mut s = "Hub storage must not contain symlinks: ".to_owned();
                append(&mut s, path.as_str());
                s
            },
            SpaceError::SizeOverflow => "Storage size overflow".to_owned(),
            SpaceError::InvalidCutoff => "Invalid cleanup cutoff".to_owned(),
            SpaceError::NotADirectory => "Temporary directory must be a real directory".to_owned(),
            SpaceError::Limit(limit) => limit.0.clone(),
        }
    }
}

/// What a directory entry is.
#[derive(Clone, Copy, Debug, PartialEq, Eq, Structural)]
pub enum EntryKind {
    Symlink,
    Directory,
    File,
    Other,
}

/// An entry below the data directory.
pub struct Entry {
    pub kind: EntryKind,
    /// The whole path, for messages.
    pub path: String,
    /// The first component of the path relative to the data directory.
    pub first: String,
    pub size: u64,
}

/// What a file is for.
#[derive(Clone, Copy, Debug, PartialEq, Eq, Structural)]
pub enum Category {
    Database,
    Git,
    Lfs,
    Other,
    Temporary,
}

/// The category of the files below a first path component.
pub open spec fn category_of(first: Seq<char>) -> Category {
    if first == "repos"@ {
        Category::Git
    } else if first == "lfs"@ {
        Category::Lfs
    } else if first == "tmp"@ {
        Category::Temporary
    } else if "hub.sqlite3"@.is_prefix_of(first) {
        Category::Database
    } else {
        Category::Other
    }
}

/// Tells the category of the files below a first path component.
pub fn category(first: &str) -> (r: Category)
    ensures
        r == category_of(first@),
{
    if same(first, "repos") {
        Category::Git
    } else if same(first, "lfs") {
        Category::Lfs
    } else if same(first, "tmp") {
        Category::Temporary
    } else if starts_with(first, "hub.sqlite3") {
        Category::Database
    } else {
        Category::Other
    }
}

/// The bytes of the files of each category that has files.
#[derive(Clone, Copy, Debug, PartialEq, Eq, Structural)]
pub struct Categories {
    pub database: Option<u64>,
    pub git: Option<u64>,
    pub lfs: Option<u64>,
    pub other: Option<u64>,
    pub temporary: Option<u64>,
}

/// The usage of no files.
pub open spec fn no_files() -> Categories {
    Categories { database: None, git: None, lfs: None, other: None, temporary: None }
}

impl Categories {
    /// The bytes of a category, where it has files.
    pub open spec fn at(self, c: Category) -> Option<u64> {
        match c {
            Category::Database => self.database,
            Category::Git => self.git,
            Category::Lfs => self.lfs,
            Category::Other => self.other,
            Category::Temporary => self.temporary,
        }
    }

    /// The usage with the bytes of a category replaced.
    pub open spec fn with(self, c: Category, n: u64) -> Categories {
        match c {
            Category::Database => Categories { database: Some(n), ..self },
            Category::Git => Categories { git: Some(n), ..self },
            Category::Lfs => Categories { lfs: Some(n), ..self },
            Category::Other => Categories { other: Some(n), ..self },
            Category::Temporary => Categories { temporary: Some(n), ..self },
        }
    }

    /// The bytes of all files.
    pub open spec fn total(self) -> int {
        either(self.database, 0) + either(self.git, 0) + either(self.lfs, 0) + either(self.other, 0)
            + either(self.temporary, 0)
    }

    /// The usage of no files.
    pub fn new() -> (r: Self)
        ensures
            r == no_files(),
    {
        Categories { database: None, git: None, lfs: None, other: None, temporary: None }
    }

    fn get(&self, c: Category) -> (r: Option<u64>)
        ensures
            r == self.at(c),
    {
        match c {
            Category::Database => self.database,
            Category::Git => self.git,
            Category::Lfs => self.lfs,
            Category::Other => self.other,
            Category::Temporary => self.temporary,
        }
    }

    fn set(&mut self, c: Category, n: u64)
        ensures
            *final(self) == old(self).with(c, n),
    {
        match c {
            Category::Database => self.database = Some(n),
            Category::Git => self.git = Some(n),
            Category::Lfs => self.lfs = Some(n),
            Category::Other => self.other = Some(n),
            Category::Temporary => self.temporary = Some(n),
        }
    }

    /// Adds up the bytes of all files.
    pub fn sum(&self) -> (r: Option<u64>)
        ensures
            match r {
                Some(n) => n == self.total(),
                None => self.total() > u64::MAX,
            },
    {
        let wide: u128 = self.database.unwrap_or(0) as u128 + self.git.unwrap_or(0) as u128
            + self.lfs.unwrap_or(0) as u128 + self.other.unwrap_or(0) as u128
            + self.temporary.unwrap_or(0) as u128;
        if wide <= u64::MAX as u128 {
            Some(wide as u64)
        } else {
            None
        }
    }

    /// The JSON form: one member for each category that has files.
    pub open spec fn json(self) -> Json {
        Json::Object(
            object_of(
                count_member("database"@, self.database) + count_member("git"@, self.git)
                    + count_member("lfs"@, self.lfs) + count_member("other"@, self.other)
                    + count_member("temporary"@, self.temporary),
            ),
        )
    }

    fn to_json(&self) -> (r: Value)
        ensures
            json_of(r) == self.json(),
    {
        let mut pairs: Vec<(String, Value)> = Vec::new();
        assert(members(pairs@) == Seq::<(Seq<char>, Json)>::empty());
        push_count(&mut pairs, "database", self.database);
        push_count(&mut pairs, "git", self.git);
        push_count(&mut pairs, "lfs", self.lfs);
        push_count(&mut pairs, "other", self.other);
        push_count(&mut pairs, "temporary", self.temporary);
        assert(members(pairs@) == count_member("database"@, self.database) + count_member(
            "git"@,
            self.git,
        ) + count_member("lfs"@, self.lfs) + count_member("other"@, self.other) + count_member(
            "temporary"@,
            self.temporary,
        ));
        object(pairs)
    }
}

/// A category in the JSON form, where it has files.
pub open spec fn count_member(key: Seq<char>, n: Option<u64>) -> Seq<(Seq<char>, Json)> {
    match n {
        Some(n) => seq![(key, Json::Natural(n))],
        None => Seq::empty(),
    }
}

fn push_count(pairs: &mut Vec<(String, Value)>, key: &str, n: Option<u64>)
    ensures
        members(final(pairs)@) == members(old(pairs)@) + count_member(key@, n),
{
    if let Some(n) = n {
        pairs.push(pair(key, natural(n)));
    }
    assert(members(pairs@) == members(old(pairs)@) + count_member(key@, n));
}

/// The usage of a list of entries. The first entry that cannot be counted decides the failure:
/// the path of a symbolic link, or `None` where a size does not fit.
pub open spec fn usage(entries: Seq<Entry>) -> Result<Categories, Option<Seq<char>>>
    decreases entries.len(),
{
    if entries.len() == 0 {
        Ok(no_files())
    } else {
        match usage(entries.drop_last()) {
            Err(e) => Err(e),
            Ok(c) => {
                let entry = entries.last();
                match entry.kind {
                    EntryKind::Symlink => Err(Some(entry.path@)),
                    EntryKind::File => {
                        let category = category_of(entry.first@);
                        let n = either(c.at(category), 0) + entry.size;
                        if n <= u64::MAX {
                            Ok(c.with(category, n as u64))
                        } else {
                            Err(None)
                        }
                    },
                    _ => Ok(c),
                }
            },
        }
    }
}

/// A fault in the first entries is the fault of them all.
pub proof fn lemma_usage_error_stays(entries: Seq<Entry>, k: int)
    requires
        0 <= k <= entries.len(),
        usage(entries.take(k)) is Err,
    ensures
        usage(entries) == usage(entries.take(k)),
    decreases entries.len() - k,
{
    if k < entries.len() {
        assert(entries.take(k + 1).drop_last() == entries.take(k));
        lemma_usage_error_stays(entries, k + 1);
    } else {
        assert(entries.take(k) == entries);
    }
}

/// What an error says of the entries.
pub open spec fn entry_error(e: SpaceError) -> Option<Option<Seq<char>>> {
    match e {
        SpaceError::Symlink(path) => Some(Some(path@)),
        SpaceError::SizeOverflow => Some(None),
        _ => None,
    }
}

/// Adds up the bytes of the files of each category.
pub fn inventory(entries: &Vec<Entry>) -> (r: Result<Categories, SpaceError>)
    ensures
        match r {
            Ok(c) => usage(entries@) == Ok::<Categories, Option<Seq<char>>>(c),
            Err(e) => usage(entries@) is Err && entry_error(e) == Some(usage(entries@)->Err_0),
        },
{
    let mut c = Categories::new();
    let mut i: usize = 0;
    while i < entries.len()
        invariant
            i <= entries@.len(),
            usage(entries@.take(i as int)) == Ok::<Categories, Option<Seq<char>>>(c),
        decreases entries@.len() - i,
    {
        assert(entries@.take(i + 1).drop_last() == entries@.take(i as int));
        let entry = &entries[i];
        match entry.kind {
            EntryKind::Symlink => {
                proof {
                    lemma_usage_error_stays(entries@, i + 1);
                }
                return Err(SpaceError::Symlink(entry.path.clone()));
            },
            EntryKind::File => {
                let category = category(entry.first.as_str());
                let n: u64 = c.get(category).unwrap_or(0);
                if n > u64::MAX - entry.size {
                    proof {
                        lemma_usage_error_stays(entries@, i + 1);
                    }
                    return Err(SpaceError::SizeOverflow);
                }
                c.set(category, n + entry.size);
            },
            _ => {},
        }
        i += 1;
    }
    assert(entries@.take(entries@.len() as int) == entries@);
    Ok(c)
}

/// The bytes of the files among the entries that are of a category.
pub open spec fn bytes_in(entries: Seq<Entry>, c: Category) -> int
    decreases entries.len(),
{
    if entries.len() == 0 {
        0
    } else {
        let entry = entries.last();
        bytes_in(entries.drop_last(), c) + if entry.kind is File && category_of(entry.first@) == c {
            entry.size as int
        } else {
            0
        }
    }
}

/// An inventory succeeds exactly where there is no symbolic link and every category fits in 64
/// bits, and then holds the bytes of each category.
pub proof fn law_inventory_counts_every_file(entries: Seq<Entry>)
    ensures
        usage(entries) is Ok <==> {
            &&& forall|i: int| 0 <= i < entries.len() ==> !((#[trigger] entries[i]).kind is Symlink)
            &&& forall|c: Category| #[trigger] bytes_in(entries, c) <= u64::MAX
        },
        usage(entries) matches Ok(u) ==> forall|c: Category|
            either((#[trigger] u.at(c)), 0) == bytes_in(entries, c),
    decreases entries.len(),
{
    if entries.len() > 0 {
        let init = entries.drop_last();
        let entry = entries.last();
        law_inventory_counts_every_file(init);
        assert forall|c: Category| #[trigger] bytes_in(entries, c) >= bytes_in(init, c) by {}
        if usage(init) is Err {
            if forall|i: int| 0 <= i < entries.len() ==> !((#[trigger] entries[i]).kind is Symlink) {
                assert forall|i: int| 0 <= i < init.len() implies !((
                #[trigger] init[i]).kind is Symlink) by {
                    assert(!(entries[i].kind is Symlink));
                }
                let c = choose|c: Category| #[trigger] bytes_in(init, c) > u64::MAX;
                assert(bytes_in(entries, c) > u64::MAX);
            }
        } else {
            let u = usage(init)->Ok_0;
            assert forall|i: int| 0 <= i < init.len() implies !((
            #[trigger] entries[i]).kind is Symlink) by {
                assert(init[i] == entries[i]);
            }
            let k = category_of(entry.first@);
            assert(either(u.at(k), 0) == bytes_in(init, k));
            if entry.kind is Symlink {
                assert(entries[entries.len() - 1].kind is Symlink);
            } else {
                assert forall|i: int| 0 <= i < entries.len() implies !((
                #[trigger] entries[i]).kind is Symlink) by {}
                if usage(entries) is Ok {
                    let w = usage(entries)->Ok_0;
                    assert forall|c: Category| either((#[trigger] w.at(c)), 0) == bytes_in(
                        entries,
                        c,
                    ) by {
                        assert(either(u.at(c), 0) == bytes_in(init, c));
                    }
                    assert forall|c: Category| #[trigger] bytes_in(entries, c) <= u64::MAX by {
                        assert(either(w.at(c), 0) == bytes_in(entries, c));
                    }
                } else {
                    assert(bytes_in(entries, k) > u64::MAX);
                }
            }
        }
    } else {
        assert forall|c: Category| either((#[trigger] no_files().at(c)), 0) == bytes_in(
            entries,
            c,
        ) by {}
        assert forall|c: Category| #[trigger] bytes_in(entries, c) <= u64::MAX by {}
    }
}

// ---------------------------------------------------------------------------
// Status
// ---------------------------------------------------------------------------

/// The use of the storage at one time.
pub struct Status {
    pub policy: Policy,
    pub used_bytes: u64,
    pub quota_bytes: u64,
    pub available_bytes: u64,
    pub categories: Categories,
    pub state: &'static str,
    pub warning: Option<String>,
    pub uploads_paused: bool,
}

/// How the use of the storage stands to the policy.
pub enum Condition {
    DiskLow,
    QuotaExceeded,
    Warning,
    Normal,
}

/// Free space below the reserve comes first, then a used-up quota, then the warning threshold.
pub open spec fn condition(policy: Policy, used: int, available: int) -> Condition {
    if available < policy.reserve() {
        Condition::DiskLow
    } else if used >= policy.quota() {
        Condition::QuotaExceeded
    } else if used * 100 >= policy.quota() * policy.warn_percent {
        Condition::Warning
    } else {
        Condition::Normal
    }
}

/// The name of a condition.
pub open spec fn state_name(c: Condition) -> Seq<char> {
    match c {
        Condition::DiskLow => "disk_low"@,
        Condition::QuotaExceeded => "quota_exceeded"@,
        Condition::Warning => "warning"@,
        Condition::Normal => "ok"@,
    }
}

/// Whether uploads pause.
pub open spec fn paused(c: Condition) -> bool {
    c is DiskLow || c is QuotaExceeded
}

/// The warning that a condition gives.
pub open spec fn warning_text(policy: Policy, used: nat, available: nat) -> Option<Seq<char>> {
    match condition(policy, used as int, available as int) {
        Condition::DiskLow => Some(
            "Uploads paused: filesystem has "@ + decimal(available)
                + " bytes free, below the "@ + decimal(policy.min_free_mib as nat)
                + " MiB reserve"@,
        ),
        Condition::QuotaExceeded => Some(
            "Uploads paused: Hub uses "@ + decimal(used) + " of "@ + decimal(
                policy.quota() as nat,
            ) + " quota bytes; review storage or increase quota_mib"@,
        ),
        Condition::Warning => Some(
            "Hub storage warning: "@ + decimal(used) + " of "@ + decimal(policy.quota() as nat)
                + " bytes used; configured warning threshold is "@ + decimal(
                policy.warn_percent as nat,
            ) + "%"@,
        ),
        Condition::Normal => None,
    }
}

impl Status {
    /// Whether this is the status of the given use under a policy.
    pub open spec fn describes(
        self,
        policy: Policy,
        used: u64,
        available: u64,
        categories: Categories,
    ) -> bool {
        let c = condition(policy, used as int, available as int);
        &&& self.policy == policy
        &&& self.used_bytes == used
        &&& self.quota_bytes == policy.quota()
        &&& self.available_bytes == available
        &&& self.categories == categories
        &&& self.state@ == state_name(c)
        &&& optional(self.warning) == warning_text(policy, used as nat, available as nat)
        &&& self.uploads_paused == paused(c)
    }

    /// The JSON form, without the percentage.
    pub open spec fn json(self) -> Json {
        Json::Object(
            object_of(
                seq![
                    ("policy"@, policy_json(self.policy)),
                    ("used_bytes"@, Json::Natural(self.used_bytes)),
                    ("quota_bytes"@, Json::Natural(self.quota_bytes)),
                    ("available_bytes"@, Json::Natural(self.available_bytes)),
                    ("categories"@, self.categories.json()),
                    ("state"@, Json::Text(self.state@)),
                    ("warning"@, text_or_null(optional(self.warning))),
                    ("uploads_paused"@, Json::Flag(self.uploads_paused)),
                ],
            ),
        )
    }

    /// Writes the status as JSON. The used percentage is a fraction and is left to the caller.
    pub fn to_json(&self) -> (r: Value)
        ensures
            json_of(r) == self.json(),
    {
        let pairs = vec![
            pair("policy", self.policy.to_json()),
            pair("used_bytes", natural(self.used_bytes)),
            pair("quota_bytes", natural(self.quota_bytes)),
            pair("available_bytes", natural(self.available_bytes)),
            pair("categories", self.categories.to_json()),
            pair("state", text(self.state)),
            pair("warning", optional_text(&self.warning)),
            pair("uploads_paused", flag(self.uploads_paused)),
        ];
        assert(members(pairs@) == seq![
            ("policy"@, policy_json(self.policy)),
            ("used_bytes"@, Json::Natural(self.used_bytes)),
            ("quota_bytes"@, Json::Natural(self.quota_bytes)),
            ("available_bytes"@, Json::Natural(self.available_bytes)),
            ("categories"@, self.categories.json()),
            ("state"@, Json::Text(self.state@)),
            ("warning"@, text_or_null(optional(self.warning))),
            ("uploads_paused"@, Json::Flag(self.uploads_paused)),
        ]);
        object(pairs)
    }

    /// The response headers that tell an authenticated client of the storage.
    pub open spec fn header_pairs(self) -> Seq<(Seq<char>, Seq<char>)> {
        let state = seq![("X-AgentGit-Storage-State"@, self.state@)];
        match self.warning {
            Some(w) => state.push(("X-AgentGit-Storage-Warning"@, w@)),
            None => state,
        }
    }

    /// Writes the response headers that tell an authenticated client of the storage.
    pub fn headers(&self) -> (r: Vec<(String, String)>)
        ensures
            pairs_of(r@) == self.header_pairs(),
    {
        let mut r: Vec<(String, String)> = Vec::new();
        r.push(("X-AgentGit-Storage-State".to_owned(), self.state.to_owned()));
        if let Some(w) = &self.warning {
            r.push(("X-AgentGit-Storage-Warning".to_owned(), w.clone()));
        }
        assert(pairs_of(r@) == self.header_pairs());
        r
    }
}

/// The JSON form of a policy.
pub open spec fn policy_json(p: Policy) -> Json {
    Json::Object(
        object_of(
            seq![
                ("quota_mib"@, Json::Natural(p.quota_mib)),
                ("warn_percent"@, Json::Natural(p.warn_percent as u64)),
                ("min_free_mib"@, Json::Natural(p.min_free_mib)),
                ("temp_max_age_hours"@, Json::Natural(p.temp_max_age_hours)),
                ("cleanup_interval_hours"@, Json::Natural(p.cleanup_interval_hours)),
            ],
        ),
    )
}

impl Policy {
    /// Writes the policy as JSON.
    pub fn to_json(&self) -> (r: Value)
        ensures
            json_of(r) == policy_json(*self),
    {
        let pairs = vec![
            pair("quota_mib", natural(self.quota_mib)),
            pair("warn_percent", natural(self.warn_percent as u64)),
            pair("min_free_mib", natural(self.min_free_mib)),
            pair("temp_max_age_hours", natural(self.temp_max_age_hours)),
            pair("cleanup_interval_hours", natural(self.cleanup_interval_hours)),
        ];
        assert(members(pairs@) == seq![
            ("quota_mib"@, Json::Natural(self.quota_mib)),
            ("warn_percent"@, Json::Natural(self.warn_percent as u64)),
            ("min_free_mib"@, Json::Natural(self.min_free_mib)),
            ("temp_max_age_hours"@, Json::Natural(self.temp_max_age_hours)),
            ("cleanup_interval_hours"@, Json::Natural(self.cleanup_interval_hours)),
        ]);
        object(pairs)
    }
}

/// Judges the use of the storage by a policy.
pub fn evaluate(policy: &Policy, used: u64, available: u64, categories: Categories) -> (r: Status)
    requires
        policy.fits(),
    ensures
        r.describes(*policy, used, available, categories),
{
    let quota: u64 = policy.quota_mib * MIB;
    let reserve: u64 = policy.min_free_mib * MIB;
    let percent: u8 = policy.warn_percent;
    assert(quota * percent <= 18446744073709551615 * 255) by (nonlinear_arith)
        requires
            quota <= 18446744073709551615,
            percent <= 255,
    ;
    let (state, warning, uploads_paused) = if available < reserve {
        let mut s = "Uploads paused: filesystem has ".to_owned();
        append_decimal(&mut s, available);
        append(&mut s, " bytes free, below the ");
        append_decimal(&mut s, policy.min_free_mib);
        append(&mut s, " MiB reserve");
        ("disk_low", Some(s), true)
    } else if used >= quota {
        let mut s = "Uploads paused: Hub uses ".to_owned();
        append_decimal(&mut s, used);
        append(&mut s, " of ");
        append_decimal(&mut s, quota);
        append(&mut s, " quota bytes; review storage or increase quota_mib");
        ("quota_exceeded", Some(s), true)
    } else if used as u128 * 100 >= quota as u128 * percent as u128 {
        let mut s = "Hub storage warning: ".to_owned();
        append_decimal(&mut s, used);
        append(&mut s, " of ");
        append_decimal(&mut s, quota);
        append(&mut s, " bytes used; configured warning threshold is ");
        append_decimal(&mut s, policy.warn_percent as u64);
        append(&mut s, "%");
        ("warning", Some(s), false)
    } else {
        ("ok", None, false)
    };
    Status {
        policy: *policy,
        used_bytes: used,
        quota_bytes: quota,
        available_bytes: available,
        categories,
        state,
        warning,
        uploads_paused,
    }
}

/// The use of a list of entries, as far as it can be told.
pub open spec fn measured(entries: Seq<Entry>) -> Result<Categories, Option<Seq<char>>> {
    match usage(entries) {
        Err(e) => Err(e),
        Ok(c) => if c.total() <= u64::MAX {
            Ok(c)
        } else {
            Err(None)
        },
    }
}

/// The status of a data directory: the entries below it, and the free bytes of its filesystem.
pub fn status_at(entries: &Vec<Entry>, policy: &Policy, available: u64) -> (r: Result<
    Status,
    SpaceError,
>)
    requires
        policy.fits(),
    ensures
        match r {
            Ok(s) => measured(entries@) matches Ok(c) && s.describes(
                *policy,
                c.total() as u64,
                available,
                c,
            ),
            Err(e) => measured(entries@) is Err && entry_error(e) == Some(measured(entries@)->Err_0),
        },
{
    let categories = match inventory(entries) {
        Ok(c) => c,
        Err(e) => return Err(e),
    };
    match categories.sum() {
        Some(used) => Ok(evaluate(policy, used, available, categories)),
        None => Err(SpaceError::SizeOverflow),
    }
}

/// The storage of a Hub, under its own policy.
pub fn status(state: &State, entries: &Vec<Entry>, available: u64) -> (r: Result<
    Status,
    SpaceError,
>)
    requires
        state.config.storage.fits(),
    ensures
        match measured(entries@) {
            Ok(c) => r is Ok && r->Ok_0.describes(
                state.config.storage,
                c.total() as u64,
                available,
                c,
            ),
            Err(e) => r is Err && entry_error(r->Err_0) == Some(e),
        },
{
    status_at(entries, &state.config.storage, available)
}

// ---------------------------------------------------------------------------
// Uploads
// ---------------------------------------------------------------------------

/// A number, or zero where it is negative.
pub open spec fn positive(n: int) -> int {
    if n < 0 {
        0
    } else {
        n
    }
}

/// The bytes that may still be written without exceeding the quota or touching the reserve.
pub open spec fn room(policy: Policy, used: int, available: int) -> int {
    let quota = positive(policy.quota() - used);
    let disk = positive(available - policy.reserve());
    if quota < disk {
        quota
    } else {
        disk
    }
}

/// Why a write of some bytes is refused, if it is.
pub open spec fn refusal(policy: Policy, used: nat, available: nat, additional: nat) -> Option<
    Seq<char>,
> {
    let free = room(policy, used as int, available as int);
    if paused(condition(policy, used as int, available as int)) {
        warning_text(policy, used, available)
    } else if additional > free {
        Some(
            "Upload needs "@ + decimal(additional) + " bytes but only "@ + decimal(free as nat)
                + " bytes remain within the Hub quota and disk reserve"@,
        )
    } else {
        None
    }
}

/// What becomes of a request to write some bytes to a data directory.
pub open spec fn write_check(
    r: Result<(), SpaceError>,
    entries: Seq<Entry>,
    policy: Policy,
    available: u64,
    additional: u64,
) -> bool {
    match measured(entries) {
        Err(e) => r is Err && entry_error(r->Err_0) == Some(e),
        Ok(c) => match refusal(policy, c.total() as nat, available as nat, additional as nat) {
            Some(reason) => r matches Err(SpaceError::Limit(limit)) && limit.0@ == reason,
            None => r is Ok,
        },
    }
}

fn minimum(a: u64, b: u64) -> (r: u64)
    ensures
        r == if a < b {
            a
        } else {
            b
        },
{
    if a < b {
        a
    } else {
        b
    }
}

fn less_by(a: u64, b: u64) -> (r: u64)
    ensures
        r == positive(a - b),
{
    if a >= b {
        a - b
    } else {
        0
    }
}

/// Whether some more bytes may be written.
pub fn check_write_at(entries: &Vec<Entry>, policy: &Policy, available: u64, additional: u64) -> (r:
    Result<(), SpaceError>)
    requires
        policy.fits(),
    ensures
        write_check(r, entries@, *policy, available, additional),
{
    let current = match status_at(entries, policy, available) {
        Ok(s) => s,
        Err(e) => return Err(e),
    };
    if current.uploads_paused {
        match current.warning {
            Some(w) => return Err(SpaceError::Limit(StorageLimit(w))),
            None => {
                assert(false);
            },
        }
    }
    let reserve: u64 = policy.min_free_mib * MIB;
    let room = minimum(
        less_by(current.quota_bytes, current.used_bytes),
        less_by(current.available_bytes, reserve),
    );
    if additional > room {
        let mut s = "Upload needs ".to_owned();
        append_decimal(&mut s, additional);
        append(&mut s, " bytes but only ");
        append_decimal(&mut s, room);
        append(&mut s, " bytes remain within the Hub quota and disk reserve");
        return Err(SpaceError::Limit(StorageLimit(s)));
    }
    Ok(())
}

/// Whether a Hub may store some more bytes, under its own policy.
pub fn check_write(state: &State, entries: &Vec<Entry>, available: u64, additional: u64) -> (r:
    Result<(), SpaceError>)
    requires
        state.config.storage.fits(),
    ensures
        write_check(r, entries@, state.config.storage, available, additional),
{
    check_write_at(entries, &state.config.storage, available, additional)
}

/// What an upload may still write.
pub struct UploadBudget {
    /// The bytes that remain of the quota.
    pub remaining: u64,
    /// The bytes of the filesystem that must stay free.
    pub reserve: u64,
}

impl UploadBudget {
    /// Opens a budget for an upload of an announced size.
    pub fn new(entries: &Vec<Entry>, policy: &Policy, available: u64, announced: Option<usize>) -> (r:
        Result<Self, SpaceError>)
        requires
            policy.fits(),
        ensures
            match r {
                Ok(b) => write_check(
                    Ok(()),
                    entries@,
                    *policy,
                    available,
                    either(announced, 0) as u64,
                ) && b.is_open_for(*policy, measured(entries@)->Ok_0.total()),
                Err(e) => write_check(
                    Err(e),
                    entries@,
                    *policy,
                    available,
                    either(announced, 0) as u64,
                ),
            },
    {
        match check_write_at(entries, policy, available, announced.unwrap_or(0) as u64) {
            Ok(()) => {},
            Err(e) => return Err(e),
        }
        let current = match status_at(entries, policy, available) {
            Ok(s) => s,
            Err(e) => return Err(e),
        };
        Ok(
            UploadBudget {
                remaining: less_by(current.quota_bytes, current.used_bytes),
                reserve: policy.min_free_mib * MIB,
            },
        )
    }

    /// Whether a part fits, with the given free bytes of the filesystem.
    pub open spec fn fits(self, size: int, available: int) -> bool {
        size <= self.remaining && size <= positive(available - self.reserve)
    }

    /// Whether a budget is the one that is opened under a policy beside what is used.
    pub open spec fn is_open_for(self, policy: Policy, used: int) -> bool {
        self.remaining == positive(policy.quota() - used) && self.reserve == policy.reserve()
    }

    /// The budget behind a part, where the part fits.
    pub open spec fn behind(self, size: int, available: int) -> Option<UploadBudget> {
        if self.fits(size, available) {
            Some(UploadBudget { remaining: (self.remaining - size) as u64, ..self })
        } else {
            None
        }
    }

    /// Takes the size of the next part out of the budget before it is written.
    pub fn consume(&mut self, size: usize, available: u64) -> (r: Result<(), SpaceError>)
        ensures
            final(self).reserve == old(self).reserve,
            match old(self).behind(size as int, available as int) {
                Some(b) => r is Ok && *final(self) == b,
                None => *final(self) == *old(self) && (r matches Err(SpaceError::Limit(limit))
                    && limit.0@
                    == "Upload stopped before writing: Hub quota or filesystem reserve would be exceeded"@),
            },
    {
        let size: u64 = size as u64;
        if size > self.remaining || size > less_by(available, self.reserve) {
            return Err(
                SpaceError::Limit(
                    StorageLimit(
                        "Upload stopped before writing: Hub quota or filesystem reserve would be exceeded".to_owned(),
                    ),
                ),
            );
        }
        self.remaining = self.remaining - size;
        Ok(())
    }
}

/// An upload that is being copied part by part.
pub struct UploadCopy {
    pub budget: UploadBudget,
    /// The bytes of the parts so far.
    pub total: u64,
}

impl UploadCopy {
    /// What was copied and what may still be copied fit in 64 bits together.
    pub open spec fn wf(self) -> bool {
        self.total + self.budget.remaining <= u64::MAX
    }

    /// Starts a copy.
    pub fn new(budget: UploadBudget) -> (r: Self)
        ensures
            r.wf(),
            r.budget == budget,
            r.total == 0,
    {
        UploadCopy { budget, total: 0 }
    }

    /// Counts the next part of an upload; it may be written only if this succeeds.
    pub fn copy_upload(&mut self, count: usize, available: u64) -> (r: Result<(), SpaceError>)
        requires
            old(self).wf(),
        ensures
            final(self).wf(),
            final(self).budget.reserve == old(self).budget.reserve,
            match r {
                Ok(()) => old(self).budget.fits(count as int, available as int)
                    && final(self).budget.remaining == old(self).budget.remaining - count
                    && final(self).total == old(self).total + count,
                Err(e) => !old(self).budget.fits(count as int, available as int)
                    && final(self).budget.remaining == old(self).budget.remaining
                    && final(self).total == old(self).total && (e matches SpaceError::Limit(limit)
                    && limit.0@
                    == "Upload stopped before writing: Hub quota or filesystem reserve would be exceeded"@),
            },
    {
        match self.budget.consume(count, available) {
            Ok(()) => {
                self.total = self.total + count as u64;
                Ok(())
            },
            Err(e) => Err(e),
        }
    }
}

/// What remains of a budget after parts of given sizes at given free bytes, if all fit.
pub open spec fn remaining_after(remaining: int, reserve: int, parts: Seq<(int, int)>) -> Option<
    int,
>
    decreases parts.len(),
{
    if parts.len() == 0 {
        Some(remaining)
    } else {
        match remaining_after(remaining, reserve, parts.drop_last()) {
            None => None,
            Some(left) => {
                let (size, available) = parts.last();
                if size <= left && size <= positive(available - reserve) {
                    Some(left - size)
                } else {
                    None
                }
            },
        }
    }
}

/// The sum of the sizes of parts.
pub open spec fn sizes(parts: Seq<(int, int)>) -> int
    decreases parts.len(),
{
    if parts.len() == 0 {
        0
    } else {
        sizes(parts.drop_last()) + parts.last().0
    }
}

/// However an upload is cut into parts, what is written stays within the quota.
pub proof fn law_upload_stays_within_quota(
    policy: Policy,
    used: nat,
    available: nat,
    announced: nat,
    parts: Seq<(int, int)>,
)
    requires
        refusal(policy, used, available, announced) is None,
        forall|i: int| 0 <= i < parts.len() ==> (#[trigger] parts[i]).0 >= 0,
        remaining_after(positive(policy.quota() - used), policy.reserve(), parts) is Some,
    ensures
        used + sizes(parts) <= policy.quota(),
{
    lemma_remaining(positive(policy.quota() - used), policy.reserve(), parts);
}

proof fn lemma_remaining(remaining: int, reserve: int, parts: Seq<(int, int)>)
    requires
        remaining >= 0,
        remaining_after(remaining, reserve, parts) is Some,
    ensures
        remaining_after(remaining, reserve, parts) == Some(remaining - sizes(parts)),
        sizes(parts) <= remaining,
    decreases parts.len(),
{
    if parts.len() > 0 {
        lemma_remaining(remaining, reserve, parts.drop_last());
    }
}

/// A write that is not refused keeps the quota and leaves the reserve free.
pub proof fn law_accepted_write_keeps_quota_and_reserve(
    policy: Policy,
    used: nat,
    available: nat,
    additional: nat,
)
    requires
        refusal(policy, used, available, additional) is None,
    ensures
        used + additional <= policy.quota(),
        available - additional >= policy.reserve(),
{
}

/// At the quota, or with the free space below the reserve, uploads pause and every write is
/// refused.
pub proof fn law_paused_uploads_refuse_every_write(
    policy: Policy,
    used: nat,
    available: nat,
    additional: nat,
)
    ensures
        paused(condition(policy, used as int, available as int)) <==> (used >= policy.quota()
            || available < policy.reserve()),
        paused(condition(policy, used as int, available as int)) ==> refusal(
            policy,
            used,
            available,
            additional,
        ) is Some,
{
}

/// A larger quota refuses nothing that a smaller one took.
pub proof fn law_larger_quota_refuses_no_more(
    policy: Policy,
    larger: Policy,
    used: nat,
    available: nat,
    additional: nat,
)
    requires
        larger.quota_mib >= policy.quota_mib,
        larger.min_free_mib == policy.min_free_mib,
        refusal(policy, used, available, additional) is None,
    ensures
        refusal(larger, used, available, additional) is None,
{
}

/// An update that names no setting changes nothing, and one that names some leaves the others
/// alone.
pub proof fn law_update_leaves_other_settings_alone(update: PolicyUpdate, current: Policy)
    ensures
        no_update().merged(current) == current,
        update.quota_mib is None ==> update.merged(current).quota_mib == current.quota_mib,
        update.warn_percent is None ==> update.merged(current).warn_percent == current.warn_percent,
        update.min_free_mib is None ==> update.merged(current).min_free_mib == current.min_free_mib,
        update.temp_max_age_hours is None ==> update.merged(current).temp_max_age_hours
            == current.temp_max_age_hours,
        update.cleanup_interval_hours is None ==> update.merged(current).cleanup_interval_hours
            == current.cleanup_interval_hours,
        update.merged(update.merged(current)) == update.merged(current),
{
}

// ---------------------------------------------------------------------------
// Cleanup
// ---------------------------------------------------------------------------

/// A file that cleanup looks at.
pub struct TempEntry {
    /// The path relative to the data directory.
    pub path: String,
    /// The last component of the path.
    pub name: String,
    pub is_file: bool,
    pub is_symlink: bool,
    /// When the file was last modified, in nanoseconds since 1970.
    pub modified: i128,
    pub size: u64,
    /// Whether the file lies among completed attachments rather than in the temporary directory.
    pub legacy_lfs: bool,
}

/// What cleanup may remove: regular files that were not modified after the cutoff, and among
/// completed attachments only those whose name marks them as temporary.
pub open spec fn expired(file: TempEntry, cutoff: int) -> bool {
    &&& file.is_file
    &&& !file.is_symlink
    &&& file.modified <= cutoff
    &&& file.legacy_lfs ==> ".tmp"@.is_prefix_of(file.name@)
}

/// What a cleanup pass found and removed.
#[derive(Debug)]
pub struct CleanupReport {
    pub applied: bool,
    pub candidate_files: usize,
    pub candidate_bytes: u64,
    pub removed_files: usize,
    pub removed_bytes: u64,
    pub files: Vec<String>,
}

/// The expired files of a listing, in its order.
pub open spec fn expired_files(files: Seq<TempEntry>, cutoff: int) -> Seq<TempEntry> {
    files.filter(|f: TempEntry| expired(f, cutoff))
}

/// The bytes of files.
pub open spec fn total_bytes(files: Seq<TempEntry>) -> int
    decreases files.len(),
{
    if files.len() == 0 {
        0
    } else {
        total_bytes(files.drop_last()) + files.last().size
    }
}

/// The paths of files.
pub open spec fn paths(files: Seq<TempEntry>) -> Seq<Seq<char>> {
    Seq::new(files.len(), |i: int| files[i].path@)
}

impl CleanupReport {
    /// Whether this reports a pass over a listing.
    pub open spec fn reports(self, files: Seq<TempEntry>, cutoff: int, apply: bool) -> bool {
        let found = expired_files(files, cutoff);
        &&& self.applied == apply
        &&& self.candidate_files == found.len()
        &&& self.candidate_bytes == total_bytes(found)
        &&& self.removed_files == if apply {
            found.len()
        } else {
            0
        }
        &&& self.removed_bytes == if apply {
            total_bytes(found)
        } else {
            0
        }
        &&& texts(self.files@) == paths(found)
    }

    /// The JSON form.
    pub open spec fn json(self) -> Json {
        Json::Object(
            object_of(
                seq![
                    ("applied"@, Json::Flag(self.applied)),
                    ("candidate_files"@, Json::Natural(self.candidate_files as u64)),
                    ("candidate_bytes"@, Json::Natural(self.candidate_bytes)),
                    ("removed_files"@, Json::Natural(self.removed_files as u64)),
                    ("removed_bytes"@, Json::Natural(self.removed_bytes)),
                    ("files"@, text_list(texts(self.files@))),
                ],
            ),
        )
    }

    /// Writes the report as JSON.
    pub fn to_json(&self) -> (r: Value)
        ensures
            json_of(r) == self.json(),
    {
        let pairs = vec![
            pair("applied", flag(self.applied)),
            pair("candidate_files", natural(self.candidate_files as u64)),
            pair("candidate_bytes", natural(self.candidate_bytes)),
            pair("removed_files", natural(self.removed_files as u64)),
            pair("removed_bytes", natural(self.removed_bytes)),
            pair("files", texts_to_json(&self.files)),
        ];
        assert(members(pairs@) == seq![
            ("applied"@, Json::Flag(self.applied)),
            ("candidate_files"@, Json::Natural(self.candidate_files as u64)),
            ("candidate_bytes"@, Json::Natural(self.candidate_bytes)),
            ("removed_files"@, Json::Natural(self.removed_files as u64)),
            ("removed_bytes"@, Json::Natural(self.removed_bytes)),
            ("files"@, text_list(texts(self.files@))),
        ]);
        object(pairs)
    }
}

/// When a temporary file must have been modified last to have expired by now; times are in
/// nanoseconds since 1970.
pub fn cleanup_cutoff(policy: &Policy, now: i128) -> (r: Result<i128, SpaceError>)
    requires
        policy.temp_max_age_hours * 3600 <= u64::MAX,
    ensures
        match r {
            Ok(t) => t == now - policy.temp_max_age_hours * 3600 * 1000000000,
            Err(e) => e is InvalidCutoff && now - policy.temp_max_age_hours * 3600 * 1000000000
                < i128::MIN,
        },
{
    let age: i128 = policy.temp_max_age_hours as i128 * 3600 * 1000000000;
    if now < i128::MIN + age {
        return Err(SpaceError::InvalidCutoff);
    }
    Ok(now - age)
}

/// Finds the expired files of a listing. With `apply` the caller removes every file that the
/// report lists; without it nothing is removed.
pub fn cleanup(files: &Vec<TempEntry>, cutoff: i128, apply: bool) -> (r: Result<
    CleanupReport,
    SpaceError,
>)
    ensures
        match r {
            Ok(report) => report.reports(files@, cutoff as int, apply),
            Err(e) => e is SizeOverflow && total_bytes(expired_files(files@, cutoff as int))
                > u64::MAX,
        },
{
    let mut count: usize = 0;
    let mut bytes: u64 = 0;
    let mut found: Vec<String> = Vec::new();
    let mut i: usize = 0;
    proof {
        reveal(Seq::filter);
        assert(expired_files(files@.take(0), cutoff as int) == Seq::<TempEntry>::empty());
        assert(texts(found@) == paths(expired_files(files@.take(0), cutoff as int)));
    }
    while i < files.len()
        invariant
            i <= files@.len(),
            count <= i,
            count == expired_files(files@.take(i as int), cutoff as int).len(),
            bytes == total_bytes(expired_files(files@.take(i as int), cutoff as int)),
            texts(found@) == paths(expired_files(files@.take(i as int), cutoff as int)),
        decreases files@.len() - i,
    {
        let f = &files[i];
        let ghost before = expired_files(files@.take(i as int), cutoff as int);
        let ghost after = expired_files(files@.take(i + 1), cutoff as int);
        proof {
            reveal(Seq::filter);
            assert(files@.take(i + 1).drop_last() == files@.take(i as int));
            assert(after == if expired(*f, cutoff as int) {
                before.push(*f)
            } else {
                before
            });
        }
        if f.is_file && !f.is_symlink && f.modified <= cutoff && (!f.legacy_lfs || starts_with(
            f.name.as_str(),
            ".tmp",
        )) {
            assert(after.drop_last() == before);
            if bytes > u64::MAX - f.size {
                proof {
                    lemma_expired_bytes_grow(files@, cutoff as int, i + 1);
                }
                return Err(SpaceError::SizeOverflow);
            }
            count += 1;
            bytes += f.size;
            let ghost paths_before = texts(found@);
            found.push(f.path.clone());
            assert(texts(found@) == paths_before.push(f.path@));
            assert(paths(after) == paths(before).push(f.path@));
        }
        i += 1;
    }
    assert(files@.take(files@.len() as int) == files@);
    Ok(
        CleanupReport {
            applied: apply,
            candidate_files: count,
            candidate_bytes: bytes,
            removed_files: if apply {
                count
            } else {
                0
            },
            removed_bytes: if apply {
                bytes
            } else {
                0
            },
            files: found,
        },
    )
}

proof fn lemma_expired_bytes_grow(files: Seq<TempEntry>, cutoff: int, k: int)
    requires
        0 <= k <= files.len(),
    ensures
        total_bytes(expired_files(files.take(k), cutoff)) <= total_bytes(
            expired_files(files, cutoff),
        ),
    decreases files.len() - k,
{
    if k < files.len() {
        reveal(Seq::filter);
        assert(files.take(k + 1).drop_last() == files.take(k));
        let before = expired_files(files.take(k), cutoff);
        let after = expired_files(files.take(k + 1), cutoff);
        assert(after == before || after.drop_last() == before);
        lemma_expired_bytes_grow(files, cutoff, k + 1);
    } else {
        assert(files.take(k) == files);
    }
}

proof fn lemma_expired_is_listed(files: Seq<TempEntry>, cutoff: int, k: int)
    requires
        0 <= k < expired_files(files, cutoff).len(),
    ensures
        expired(expired_files(files, cutoff)[k], cutoff),
        exists|i: int| 0 <= i < files.len() && #[trigger] files[i] == expired_files(files, cutoff)[k],
    decreases files.len(),
{
    reveal(Seq::filter);
    if files.len() > 0 {
        let init = files.drop_last();
        let found = expired_files(files, cutoff);
        if k < expired_files(init, cutoff).len() {
            lemma_expired_is_listed(init, cutoff, k);
            let i = choose|i: int|
                0 <= i < init.len() && #[trigger] init[i] == expired_files(init, cutoff)[k];
            assert(files[i] == found[k]);
        } else {
            assert(files[files.len() - 1] == found[k]);
        }
    }
}

/// Cleanup lists a file only if it is a regular file that has expired, and a completed
/// attachment never; a preview removes nothing.
pub proof fn law_cleanup_spares_saved_data(
    report: CleanupReport,
    files: Seq<TempEntry>,
    cutoff: int,
    apply: bool,
    listed: int,
)
    requires
        report.reports(files, cutoff, apply),
        0 <= listed < report.files@.len(),
    ensures
        exists|i: int|
            {
                &&& 0 <= i < files.len()
                &&& (#[trigger] files[i]).path@ == report.files@[listed]@
                &&& files[i].is_file && !files[i].is_symlink && files[i].modified <= cutoff
                &&& files[i].legacy_lfs ==> ".tmp"@.is_prefix_of(files[i].name@)
            },
        !apply ==> report.removed_files == 0 && report.removed_bytes == 0,
{
    let found = expired_files(files, cutoff);
    assert(texts(report.files@).len() == paths(found).len());
    assert(texts(report.files@)[listed] == paths(found)[listed]);
    lemma_expired_is_listed(files, cutoff, listed);
    let i = choose|i: int| 0 <= i < files.len() && #[trigger] files[i] == found[listed];
    assert(files[i].path@ == report.files@[listed]@);
}

/// A preview of a cleanup lists exactly the files that the cleanup removes, and their bytes.
pub proof fn law_preview_lists_what_is_removed(
    files: Seq<TempEntry>,
    cutoff: int,
    preview: CleanupReport,
    applied: CleanupReport,
)
    requires
        preview.reports(files, cutoff, false),
        applied.reports(files, cutoff, true),
    ensures
        texts(preview.files@) == texts(applied.files@),
        preview.candidate_files == applied.removed_files,
        preview.candidate_bytes == applied.removed_bytes,
        preview.removed_files == 0,
        preview.removed_bytes == 0,
{
}

/// Whether a cleanup pass is due: at the start, and then whenever the interval has passed.
/// Times are in seconds.
pub fn cleanup_due(policy: &Policy, last: Option<u64>, now: u64) -> (r: bool)
    ensures
        r == match last {
            None => true,
            Some(t) => now - t >= policy.cleanup_interval_hours * 3600,
        },
{
    match last {
        None => true,
        Some(t) => now >= t && (now - t) as u128 >= policy.cleanup_interval_hours as u128 * 3600,
    }
}

/// The directories that hold temporary files, relative to the data directory, and whether they
/// hold saved objects too: that of the Hub, and that of each repository's objects.
pub open spec fn temporary_directories(repos: Seq<RepositoryView>) -> Seq<(Seq<char>, bool)> {
    seq![("tmp"@, false)] + Seq::new(repos.len(), |i: int| ("lfs/"@ + repos[i].id, true))
}

/// The directories, seen through their characters.
pub open spec fn directory_views(v: Seq<(String, bool)>) -> Seq<(Seq<char>, bool)> {
    Seq::new(v.len(), |i: int| (v[i].0@, v[i].1))
}

/// The directories that a cleanup looks into.
pub fn cleanup_directories(state: &State) -> (r: Vec<(String, bool)>)
    ensures
        directory_views(r@) == temporary_directories(by_name(state@.records)),
{
    let repos = state.repositories();
    let ghost all = repository_views(repos@);
    let mut directories: Vec<(String, bool)> = vec![("tmp".to_owned(), false)];
    let mut i: usize = 0;
    while i < repos.len()
        invariant
            i <= repos@.len(),
            all == repository_views(repos@),
            all == by_name(state@.records),
            directories@.len() == i + 1,
            directories@[0].0@ == "tmp"@,
            !directories@[0].1,
            forall|k: int|
                0 <= k < i ==> (#[trigger] directories@[k + 1]).0@ == "lfs/"@ + all[k].id
                    && directories@[k + 1].1,
        decreases repos@.len() - i,
    {
        let mut path = "lfs/".to_owned();
        append(&mut path, repos[i].id.as_str());
        let ghost past = directories@;
        directories.push((path, true));
        assert forall|k: int| 0 <= k < i + 1 implies (#[trigger] directories@[k + 1]).0@ == "lfs/"@
            + all[k].id && directories@[k + 1].1 by {
            if k < i {
                assert(directories@[k + 1] == past[k + 1]);
            }
        }
        i = i + 1;
    }
    proof {
        let want = temporary_directories(all);
        let have = directory_views(directories@);
        assert forall|k: int| 0 <= k < want.len() implies have[k] == want[k] by {
            if k > 0 {
                assert(directories@[k - 1 + 1].0@ == "lfs/"@ + all[k - 1].id);
            }
        }
        assert(have == want);
    }
    directories
}

/// Checks that a directory of temporary files is one.
pub fn check_directory(is_directory: bool, is_symlink: bool) -> (r: Result<(), SpaceError>)
    ensures
        r is Ok <==> is_directory && !is_symlink,
        r is Err ==> r->Err_0 is NotADirectory,
{
    if is_directory && !is_symlink {
        Ok(())
    } else {
        Err(SpaceError::NotADirectory)
    }
}

// ---------------------------------------------------------------------------
// Laws of policies and of storage
// ---------------------------------------------------------------------------

/// Which policies are valid, in bytes, percents and hours.
pub proof fn law_which_policies_are_valid(p: Policy)
    ensures
        p.valid() <==> {
            &&& 1 <= p.quota_mib && p.quota_mib * 1048576 <= 18446744073709551615
            &&& 1 <= p.warn_percent <= 100
            &&& p.min_free_mib * 1048576 <= 18446744073709551615
            &&& 1 <= p.temp_max_age_hours <= 876000
            &&& 1 <= p.cleanup_interval_hours <= 8760
        },
        p.quota() == p.quota_mib * 1048576,
        p.reserve() == p.min_free_mib * 1048576,
{
}

/// An update sets what it names, and nothing else.
pub proof fn law_updates_set_what_they_name(current: Policy, n: u64, percent: u8)
    ensures
        (PolicyUpdate { quota_mib: Some(n), ..no_update() }).merged(current) == (Policy {
            quota_mib: n,
            ..current
        }),
        (PolicyUpdate { warn_percent: Some(percent), ..no_update() }).merged(current) == (Policy {
            warn_percent: percent,
            ..current
        }),
        (PolicyUpdate { min_free_mib: Some(n), ..no_update() }).merged(current) == (Policy {
            min_free_mib: n,
            ..current
        }),
        (PolicyUpdate { temp_max_age_hours: Some(n), ..no_update() }).merged(current) == (Policy {
            temp_max_age_hours: n,
            ..current
        }),
        (PolicyUpdate { cleanup_interval_hours: Some(n), ..no_update() }).merged(current) == (
        Policy { cleanup_interval_hours: n, ..current }),
{
}

/// What is set is read from the members of that name; a member that is null is as good as none, and
/// an unknown one or one that is no number spoils the update.
pub proof fn law_updates_are_read_by_name(j: Json, key: Seq<char>)
    requires
        is_update(j),
    ensures
        ({
            let update = update_of(j);
            let read = |name: Seq<char>, value: Option<u64>|
                match value {
                    Some(n) => member(j, name) == Some(Json::Natural(n)),
                    None => member(j, name) is None || member(j, name) == Some(Json::Null),
                };
            &&& read("quota_mib"@, update.quota_mib)
            &&& read("min_free_mib"@, update.min_free_mib)
            &&& read("temp_max_age_hours"@, update.temp_max_age_hours)
            &&& read("cleanup_interval_hours"@, update.cleanup_interval_hours)
            &&& match update.warn_percent {
                Some(n) => member(j, "warn_percent"@) == Some(Json::Natural(n as u64)),
                None => member(j, "warn_percent"@) is None || member(j, "warn_percent"@) == Some(
                    Json::Null,
                ),
            }
        }),
        member(j, key) is Some ==> key == "quota_mib"@ || key == "warn_percent"@ || key
            == "min_free_mib"@ || key == "temp_max_age_hours"@ || key == "cleanup_interval_hours"@,
{
    if member(j, key) is Some {
        assert((j->Object_0).contains_key(key));
        assert(is_setting(key));
    }
}

/// A write is accepted exactly where the Hub is within its quota and its reserve, and stays so.
pub proof fn law_which_writes_are_accepted(
    policy: Policy,
    used: nat,
    available: nat,
    additional: nat,
)
    ensures
        refusal(policy, used, available, additional) is None <==> {
            &&& used < policy.quota_mib * 1048576
            &&& used + additional <= policy.quota_mib * 1048576
            &&& available >= policy.min_free_mib * 1048576
            &&& available - additional >= policy.min_free_mib * 1048576
        },
{
}

/// What the state of the storage is called: low on disk below the reserve, else over the quota at
/// the quota, else a warning from the configured share of it on. There is a warning exactly where
/// it is not well.
pub proof fn law_states_of_the_storage(policy: Policy, used: nat, available: nat)
    ensures
        ({
            let c = condition(policy, used as int, available as int);
            let low = available < policy.min_free_mib * 1048576;
            let full = used >= policy.quota_mib * 1048576;
            let near = used * 100 >= policy.quota_mib * 1048576 * policy.warn_percent;
            &&& low ==> state_name(c) == "disk_low"@
            &&& !low && full ==> state_name(c) == "quota_exceeded"@
            &&& !low && !full && near ==> state_name(c) == "warning"@
            &&& !low && !full && !near ==> state_name(c) == "ok"@
            &&& paused(c) <==> low || full
            &&& warning_text(policy, used, available) is Some <==> low || full || near
        }),
{
}

/// Where the files of a data directory are counted: repositories, attachments and temporary files
/// by the directory they are in, the database by the beginning of its name, and the rest apart.
pub proof fn law_files_are_counted_by_place(rest: Seq<char>, first: Seq<char>)
    ensures
        category_of("hub.sqlite3"@ + rest) == Category::Database,
        category_of(first) == Category::Git <==> first == "repos"@,
        category_of(first) == Category::Lfs <==> first == "lfs"@,
        category_of(first) == Category::Temporary <==> first == "tmp"@,
{
    reveal_strlit("hub.sqlite3");
    reveal_strlit("repos");
    reveal_strlit("lfs");
    reveal_strlit("tmp");
    let name = "hub.sqlite3"@ + rest;
    assert("hub.sqlite3"@.is_prefix_of(name));
    assert(name[0] == 'h');
    assert("repos"@[0] == 'r' && "lfs"@[0] == 'l' && "tmp"@[0] == 't');
    assert("repos"@.len() == 5 && "lfs"@.len() == 3 && "tmp"@.len() == 3);
}

/// The report on the storage tells the bytes of each kind of file under its name, where there are
/// such files.
pub proof fn law_each_kind_is_reported_under_its_name(entries: Seq<Entry>)
    requires
        usage(entries) is Ok,
    ensures
        ({
            let j = (usage(entries)->Ok_0).json();
            let told = |name: Seq<char>, c: Category|
                match member(j, name) {
                    Some(v) => v == Json::Natural(bytes_in(entries, c) as u64),
                    None => bytes_in(entries, c) == 0,
                };
            &&& told("database"@, Category::Database)
            &&& told("git"@, Category::Git)
            &&& told("lfs"@, Category::Lfs)
            &&& told("other"@, Category::Other)
            &&& told("temporary"@, Category::Temporary)
        }),
        (usage(entries)->Ok_0).total() == bytes_in(entries, Category::Database) + bytes_in(
            entries,
            Category::Git,
        ) + bytes_in(entries, Category::Lfs) + bytes_in(entries, Category::Other) + bytes_in(
            entries,
            Category::Temporary,
        ),
{
    law_inventory_counts_every_file(entries);
    let c = usage(entries)->Ok_0;
    assert(either(c.at(Category::Database), 0) == bytes_in(entries, Category::Database));
    assert(either(c.at(Category::Git), 0) == bytes_in(entries, Category::Git));
    assert(either(c.at(Category::Lfs), 0) == bytes_in(entries, Category::Lfs));
    assert(either(c.at(Category::Other), 0) == bytes_in(entries, Category::Other));
    assert(either(c.at(Category::Temporary), 0) == bytes_in(entries, Category::Temporary));
    lemma_categories_json(c);
}

proof fn lemma_categories_json(c: Categories)
    ensures
        member(c.json(), "database"@) == count_json(c.database),
        member(c.json(), "git"@) == count_json(c.git),
        member(c.json(), "lfs"@) == count_json(c.lfs),
        member(c.json(), "other"@) == count_json(c.other),
        member(c.json(), "temporary"@) == count_json(c.temporary),
{
    reveal_strlit("database");
    reveal_strlit("git");
    reveal_strlit("lfs");
    reveal_strlit("other");
    reveal_strlit("temporary");
    assert("database"@.len() == 8 && "git"@.len() == 3 && "lfs"@.len() == 3 && "other"@.len() == 5
        && "temporary"@.len() == 9 && "git"@[0] != "lfs"@[0]);
    let none = Seq::<(Seq<char>, Json)>::empty();
    let p1 = none + count_member("database"@, c.database);
    let p2 = p1 + count_member("git"@, c.git);
    let p3 = p2 + count_member("lfs"@, c.lfs);
    let p4 = p3 + count_member("other"@, c.other);
    let p5 = p4 + count_member("temporary"@, c.temporary);
    assert(p1 =~= count_member("database"@, c.database));
    lemma_count_member(none, "database"@, c.database);
    lemma_count_member(p1, "git"@, c.git);
    lemma_count_member(p2, "lfs"@, c.lfs);
    lemma_count_member(p3, "other"@, c.other);
    lemma_count_member(p4, "temporary"@, c.temporary);
    assert forall|key: Seq<char>| (#[trigger] member(Json::Object(object_of(none)), key)) is None by {}
}

/// The JSON form of a count, where there is one.
pub open spec fn count_json(n: Option<u64>) -> Option<Json> {
    match n {
        Some(n) => Some(Json::Natural(n)),
        None => None,
    }
}

proof fn lemma_count_member(pairs: Seq<(Seq<char>, Json)>, key: Seq<char>, n: Option<u64>)
    ensures
        ({
            let more = Json::Object(object_of(pairs + count_member(key, n)));
            let j = Json::Object(object_of(pairs));
            &&& n is Some ==> member(more, key) == count_json(n)
            &&& n is None ==> member(more, key) == member(j, key)
            &&& forall|other: Seq<char>|
                other != key ==> #[trigger] member(more, other) == member(j, other)
        }),
{
    let all = pairs + count_member(key, n);
    if n is Some {
        assert(all.drop_last() =~= pairs);
    } else {
        assert(all =~= pairs);
    }
}

/// Every file that has expired is found by a cleanup, and counts with its size.
pub proof fn law_every_expired_file_is_found(
    report: CleanupReport,
    files: Seq<TempEntry>,
    cutoff: int,
    apply: bool,
    i: int,
)
    requires
        report.reports(files, cutoff, apply),
        0 <= i < files.len(),
        files[i].is_file,
        !files[i].is_symlink,
        files[i].modified <= cutoff,
        files[i].legacy_lfs ==> ".tmp"@.is_prefix_of(files[i].name@),
    ensures
        texts(report.files@).contains(files[i].path@),
        apply ==> report.removed_files == report.files@.len() && report.removed_bytes
            >= files[i].size,
        report.candidate_files == report.files@.len(),
        report.candidate_bytes >= files[i].size,
{
    let pred = |f: TempEntry| expired(f, cutoff);
    let found = expired_files(files, cutoff);
    lemma_filter(files, pred);
    assert(pred(files[i]));
    assert(found.contains(files[i]));
    let k = choose|k: int| 0 <= k < found.len() && found[k] == files[i];
    assert(paths(found)[k] == files[i].path@);
    assert(texts(report.files@)[k] == files[i].path@);
    lemma_total_bytes(found, k);
    assert(texts(report.files@).len() == report.files@.len());
}

proof fn lemma_total_bytes(files: Seq<TempEntry>, k: int)
    requires
        0 <= k < files.len(),
    ensures
        total_bytes(files) >= files[k].size,
        total_bytes(files) >= 0,
    decreases files.len(),
{
    lemma_total_bytes_positive(files.drop_last());
    if k < files.len() - 1 {
        lemma_total_bytes(files.drop_last(), k);
    }
}

proof fn lemma_total_bytes_positive(files: Seq<TempEntry>)
    ensures
        total_bytes(files) >= 0,
    decreases files.len(),
{
    if files.len() > 0 {
        lemma_total_bytes_positive(files.drop_last());
    }
}

/// Temporary files are looked for in the directory of the Hub, and in that of the objects of each
/// repository, where only those that are named as such are.
pub proof fn law_where_temporary_files_are(repos: Seq<RepositoryView>, i: int)
    requires
        0 <= i < repos.len(),
    ensures
        temporary_directories(repos).contains(("tmp"@, false)),
        temporary_directories(repos).contains(("lfs/"@ + repos[i].id, true)),
        temporary_directories(repos).len() == repos.len() + 1,
{
    let all = temporary_directories(repos);
    assert(all[0] == ("tmp"@, false));
    assert(all[i + 1] == ("lfs/"@ + repos[i].id, true));
}

/// What the report on the storage says.
pub proof fn law_the_storage_is_reported(s: Status)
    ensures
        member(s.json(), "used_bytes"@) == Some(Json::Natural(s.used_bytes)),
        member(s.json(), "quota_bytes"@) == Some(Json::Natural(s.quota_bytes)),
        member(s.json(), "available_bytes"@) == Some(Json::Natural(s.available_bytes)),
        member(s.json(), "state"@) == Some(Json::Text(s.state@)),
        member(s.json(), "warning"@) == Some(
            match s.warning {
                Some(w) => Json::Text(w@),
                None => Json::Null,
            },
        ),
        member(s.json(), "uploads_paused"@) == Some(Json::Flag(s.uploads_paused)),
        member(s.json(), "policy"@) == Some(policy_json(s.policy)),
        member(s.json(), "categories"@) == Some(s.categories.json()),
        value_of(s.header_pairs(), "X-AgentGit-Storage-State"@) == Some(s.state@),
        value_of(s.header_pairs(), "X-AgentGit-Storage-Warning"@) == optional(s.warning),
{
    reveal_strlit("policy");
    reveal_strlit("used_bytes");
    reveal_strlit("quota_bytes");
    reveal_strlit("available_bytes");
    reveal_strlit("categories");
    reveal_strlit("state");
    reveal_strlit("warning");
    reveal_strlit("uploads_paused");
    reveal_strlit("X-AgentGit-Storage-State");
    reveal_strlit("X-AgentGit-Storage-Warning");
    let pairs = seq![
        ("policy"@, policy_json(s.policy)),
        ("used_bytes"@, Json::Natural(s.used_bytes)),
        ("quota_bytes"@, Json::Natural(s.quota_bytes)),
        ("available_bytes"@, Json::Natural(s.available_bytes)),
        ("categories"@, s.categories.json()),
        ("state"@, Json::Text(s.state@)),
        ("warning"@, text_or_null(optional(s.warning))),
        ("uploads_paused"@, Json::Flag(s.uploads_paused)),
    ];
    assert(pairs[0].0.len() == 6);
    assert(pairs[1].0.len() == 10 && pairs[1].0[0] == 'u');
    assert(pairs[2].0.len() == 11);
    assert(pairs[3].0.len() == 15);
    assert(pairs[4].0.len() == 10 && pairs[4].0[0] == 'c');
    assert(pairs[5].0.len() == 5);
    assert(pairs[6].0.len() == 7);
    assert(pairs[7].0.len() == 14);
    lemma_object_of(pairs, 0);
    lemma_object_of(pairs, 1);
    lemma_object_of(pairs, 2);
    lemma_object_of(pairs, 3);
    lemma_object_of(pairs, 4);
    lemma_object_of(pairs, 5);
    lemma_object_of(pairs, 6);
    lemma_object_of(pairs, 7);
    assert("X-AgentGit-Storage-State"@.len() == 24 && "X-AgentGit-Storage-Warning"@.len() == 26);
    let told = s.header_pairs();
    assert(told[0].0 == "X-AgentGit-Storage-State"@);
    lemma_value_of(told, 0);
    if s.warning is Some {
        assert(told[1].0 == "X-AgentGit-Storage-Warning"@);
        lemma_value_of(told, 1);
    } else {
        law_parameters_are_found(told, "X-AgentGit-Storage-Warning"@);
    }
}

/// What the JSON form of a policy says.
pub proof fn law_policies_are_written_field_by_field(p: Policy)
    ensures
        member(policy_json(p), "quota_mib"@) == Some(Json::Natural(p.quota_mib)),
        member(policy_json(p), "warn_percent"@) == Some(Json::Natural(p.warn_percent as u64)),
        member(policy_json(p), "min_free_mib"@) == Some(Json::Natural(p.min_free_mib)),
        member(policy_json(p), "temp_max_age_hours"@) == Some(Json::Natural(p.temp_max_age_hours)),
        member(policy_json(p), "cleanup_interval_hours"@) == Some(
            Json::Natural(p.cleanup_interval_hours),
        ),
{
    reveal_strlit("quota_mib");
    reveal_strlit("warn_percent");
    reveal_strlit("min_free_mib");
    reveal_strlit("temp_max_age_hours");
    reveal_strlit("cleanup_interval_hours");
    let pairs = seq![
        ("quota_mib"@, Json::Natural(p.quota_mib)),
        ("warn_percent"@, Json::Natural(p.warn_percent as u64)),
        ("min_free_mib"@, Json::Natural(p.min_free_mib)),
        ("temp_max_age_hours"@, Json::Natural(p.temp_max_age_hours)),
        ("cleanup_interval_hours"@, Json::Natural(p.cleanup_interval_hours)),
    ];
    assert(pairs[0].0.len() == 9);
    assert(pairs[1].0.len() == 12 && pairs[1].0[0] == 'w');
    assert(pairs[2].0.len() == 12 && pairs[2].0[0] == 'm');
    assert(pairs[3].0.len() == 18);
    assert(pairs[4].0.len() == 22);
    lemma_object_of(pairs, 0);
    lemma_object_of(pairs, 1);
    lemma_object_of(pairs, 2);
    lemma_object_of(pairs, 3);
    lemma_object_of(pairs, 4);
}

/// What the report on a cleanup says.
pub proof fn law_cleanups_are_reported(r: CleanupReport)
    ensures
        member(r.json(), "applied"@) == Some(Json::Flag(r.applied)),
        member(r.json(), "candidate_files"@) == Some(Json::Natural(r.candidate_files as u64)),
        member(r.json(), "candidate_bytes"@) == Some(Json::Natural(r.candidate_bytes)),
        member(r.json(), "removed_files"@) == Some(Json::Natural(r.removed_files as u64)),
        member(r.json(), "removed_bytes"@) == Some(Json::Natural(r.removed_bytes)),
        member(r.json(), "files"@) == Some(text_list(texts(r.files@))),
{
    reveal_strlit("applied");
    reveal_strlit("candidate_files");
    reveal_strlit("candidate_bytes");
    reveal_strlit("removed_files");
    reveal_strlit("removed_bytes");
    reveal_strlit("files");
    let pairs = seq![
        ("applied"@, Json::Flag(r.applied)),
        ("candidate_files"@, Json::Natural(r.candidate_files as u64)),
        ("candidate_bytes"@, Json::Natural(r.candidate_bytes)),
        ("removed_files"@, Json::Natural(r.removed_files as u64)),
        ("removed_bytes"@, Json::Natural(r.removed_bytes)),
        ("files"@, text_list(texts(r.files@))),
    ];
    assert(pairs[0].0.len() == 7);
    assert(pairs[1].0.len() == 15 && pairs[1].0[10] == 'f');
    assert(pairs[2].0.len() == 15 && pairs[2].0[10] == 'b');
    assert(pairs[3].0.len() == 13 && pairs[3].0[8] == 'f');
    assert(pairs[4].0.len() == 13 && pairs[4].0[8] == 'b');
    assert(pairs[5].0.len() == 5);
    lemma_object_of(pairs, 0);
    lemma_object_of(pairs, 1);
    lemma_object_of(pairs, 2);
    lemma_object_of(pairs, 3);
    lemma_object_of(pairs, 4);
    lemma_object_of(pairs, 5);
}

/// A budget is what is left of the quota: together with what is used it makes up the quota. A part
/// is taken out of it exactly where it is left and leaves the reserve free.
pub proof fn law_budgets_are_what_is_left(
    b: UploadBudget,
    policy: Policy,
    used: nat,
    size: nat,
    available: nat,
)
    requires
        size > 0,
    ensures
        b.is_open_for(policy, used as int) && used <= policy.quota_mib * 1048576 ==> used
            + b.remaining == policy.quota_mib * 1048576 && b.reserve == policy.min_free_mib
            * 1048576,
        b.is_open_for(policy, used as int) && used > policy.quota_mib * 1048576 ==> b.remaining
            == 0,
        b.behind(size as int, available as int) is Some <==> size <= b.remaining && available - size
            >= b.reserve,
        b.behind(size as int, available as int) matches Some(c) ==> c.remaining + size
            == b.remaining && c.reserve == b.reserve,
{
}

/// When the next cleanup is due: at once where none was made, never before the interval is over,
/// and ever after.
pub proof fn law_when_a_cleanup_is_due(policy: Policy, last: u64, now: u64, later: u64, r: bool, s: bool)
    requires
        call_ensures(cleanup_due, (&policy, Some(last), now), r),
        call_ensures(cleanup_due, (&policy, Some(last), later), s),
        now <= later,
    ensures
        r ==> s,
        now == last + policy.cleanup_interval_hours * 3600 ==> r,
        now + 1 == last + policy.cleanup_interval_hours * 3600 ==> !r,
        forall|first: bool| call_ensures(cleanup_due, (&policy, None, now), first) ==> first,
{
}

/// How far back the files of a cleanup reach: by the greatest age of a temporary file.
pub proof fn law_where_the_cutoff_is(policy: Policy, now: i128, r: Result<i128, SpaceError>)
    requires
        call_ensures(cleanup_cutoff, (&policy, now), r),
    ensures
        r matches Ok(t) ==> t + policy.temp_max_age_hours * 3600000000000 == now,
        now >= 0 ==> r is Ok,
        r matches Err(e) ==> e is InvalidCutoff,
{
}

/// A cleanup works in directories alone, and follows no symbolic link.
pub proof fn law_where_a_cleanup_works(is_directory: bool, r: Result<(), SpaceError>)
    ensures
        call_ensures(check_directory, (is_directory, true), r) ==> r is Err,
        call_ensures(check_directory, (false, false), r) ==> r is Err,
        call_ensures(check_directory, (true, false), r) ==> r is Ok,
{
}

/// A hub that nothing is set of takes up to 5 GiB, warns at four fifths of it, leaves 3 GiB free,
/// keeps temporary files for a week and looks for them once a day.
pub proof fn law_what_is_set_at_first()
    ensures
        default_policy().valid(),
        default_policy().quota() == 5 * 1073741824,
        default_policy().warn_percent * 5 == 4 * 100,
        default_policy().reserve() == 3 * 1073741824,
        default_policy().temp_max_age_hours == 7 * 24,
        default_policy().cleanup_interval_hours == 24,
{
}

/// A file adds its size to the files of its place and to no others; what is no file adds nothing,
/// and a symbolic link is named and ends the count.
pub proof fn law_each_file_adds_its_size(entries: Seq<Entry>, entry: Entry, c: Category)
    requires
        usage(entries) is Ok,
    ensures
        ({
            let before = usage(entries)->Ok_0;
            let after = usage(entries.push(entry));
            &&& entry.kind is Symlink ==> after == Err::<Categories, _>(Some(entry.path@))
            &&& entry.kind is File && before.total() + entry.size <= u64::MAX ==> {
                &&& after is Ok
                &&& (after->Ok_0).total() == before.total() + entry.size
                &&& c == category_of(entry.first@) ==> (after->Ok_0).at(c) == Some(
                    (either(before.at(c), 0) + entry.size) as u64,
                )
                &&& c != category_of(entry.first@) ==> (after->Ok_0).at(c) == before.at(c)
            }
            &&& !(entry.kind is File) && !(entry.kind is Symlink) ==> after == Ok::<
                Categories,
                Option<Seq<char>>,
            >(before)
        }),
        usage(Seq::empty()) is Ok,
        (usage(Seq::empty())->Ok_0).total() == 0,
        (usage(Seq::empty())->Ok_0).at(c) is None,
{
    assert(entries.push(entry).drop_last() =~= entries);
}

/// A write is accepted where it keeps the files of the hub within the quota and leaves the reserve
/// free, and no other.
pub proof fn law_writes_are_held_against_the_files(
    entries: Vec<Entry>,
    policy: Policy,
    available: u64,
    additional: u64,
    r: Result<(), SpaceError>,
)
    requires
        call_ensures(check_write_at, (&entries, &policy, available, additional), r),
    ensures
        r is Ok ==> usage(entries@) is Ok,
        usage(entries@) matches Ok(c) ==> (r is Ok <==> {
            &&& c.total() < policy.quota_mib * 1048576
            &&& c.total() + additional <= policy.quota_mib * 1048576
            &&& available - additional >= policy.min_free_mib * 1048576
            &&& c.total() <= u64::MAX
        }),
{
    if usage(entries@) is Ok {
        let c = usage(entries@)->Ok_0;
        law_which_writes_are_accepted(
            policy,
            c.total() as nat,
            available as nat,
            additional as nat,
        );
    }
}

/// What a status says: how much the files take up, what is free, and whether uploads wait.
pub proof fn law_what_a_status_says(
    entries: Vec<Entry>,
    policy: Policy,
    available: u64,
    r: Result<Status, SpaceError>,
)
    requires
        call_ensures(status_at, (&entries, &policy, available), r),
    ensures
        r matches Ok(s) ==> {
            &&& usage(entries@) == Ok::<Categories, Option<Seq<char>>>(s.categories)
            &&& s.used_bytes == s.categories.total()
            &&& s.quota_bytes == policy.quota_mib * 1048576
            &&& s.available_bytes == available
            &&& s.policy == policy
            &&& s.uploads_paused <==> available < policy.min_free_mib * 1048576 || s.used_bytes
                >= policy.quota_mib * 1048576
            &&& s.uploads_paused ==> s.warning is Some
            &&& s.warning is None <==> s.state@ == "ok"@
        },
        usage(entries@) matches Ok(c) ==> (r is Ok <==> c.total() <= u64::MAX),
        usage(entries@) is Err ==> r is Err,
{
    reveal_strlit("ok");
    reveal_strlit("disk_low");
    reveal_strlit("quota_exceeded");
    reveal_strlit("warning");
    assert("ok"@.len() == 2 && "disk_low"@.len() == 8 && "quota_exceeded"@.len() == 14
        && "warning"@.len() == 7);
}

} // verus!
