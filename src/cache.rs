//! Where provider responses are stored, and the keys they are stored under.
use vstd::prelude::*;
use crate::date::{Date, julian_day_of};

verus! {

/// The path `file` joined onto the directory `dir`.
pub uninterp spec fn joined_path(dir: Seq<char>, file: Seq<char>) -> Seq<char>;

/// Relies on `std::path::Path::join`, which appends a relative `file` to
/// `dir` with one separator between them.
#[verifier::external_body]
fn join_path(dir: &str, file: &str) -> (r: String)
    ensures
        r@ == joined_path(dir@, file@),
{
    std::path::Path::new(dir).join(file).to_string_lossy().into_owned()
}

/// The place of the response cache: one database file in a directory.
pub struct ClientCache {
    db_path: String,
}

impl ClientCache {
    pub closed spec fn db_path_view(&self) -> Seq<char> {
        self.db_path@
    }

    /// The cache whose database is `db.sqlite` in `cache_dir`.
    pub fn new(cache_dir: String) -> (r: ClientCache)
        ensures
            r.db_path_view() == joined_path(cache_dir@, "db.sqlite"@),
    {
        ClientCache { db_path: join_path(cache_dir.as_str(), "db.sqlite") }
    }

    /// The path of the database file.
    pub fn db_path(&self) -> (r: &str)
        ensures
            r@ == self.db_path_view(),
    {
        self.db_path.as_str()
    }
}

/// The key of a date in the response cache: days since 1970-01-01.
pub open spec fn cache_key_of(date: Date) -> int {
    date.day() - julian_day_of(1970, 1, 1)
}

/// The key of a date in the response cache: the number of days since
/// 1970-01-01, so that later dates have greater keys.
pub fn get_key(date: &Date) -> (r: i64)
    ensures
        r == cache_key_of(*date),
{
    let epoch = match Date::from_calendar_date(1970, 1, 1) {
        Some(d) => d,
        None => {
            proof {
                assert(false);
            }
            *date
        },
    };
    epoch.days_until(date)
}

/// Keys order dates as the calendar does.
pub proof fn lemma_key_order(a: Date, b: Date)
    ensures
        a.day() < b.day() <==> cache_key_of(a) < cache_key_of(b),
        a.day() == b.day() <==> cache_key_of(a) == cache_key_of(b),
        cache_key_of(b) - cache_key_of(a) == b.day() - a.day(),
{
}

} // verus!
