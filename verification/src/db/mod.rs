//! The provider database, which the library only ever reads.

pub mod provider;

pub use provider::{Provider, ProviderDao, ProviderRow};

use crate::error::{AppError, AppResult};
use crate::utils::fs::{borrowed, fails_on_home, home_text, join_path, joined};
use vstd::prelude::*;
use vstd::string::*;

verus! {

/// The database file. It is opened read-only, once for each query.
pub struct Database {
    path: String,
}

/// The path of the database for a home directory.
pub open spec fn database_path(home: Seq<char>) -> Seq<char> {
    joined(home, ".cc-switch/cc-switch.db"@)
}

/// Whether `r` reports the database path for `home`, or that no home
/// directory is known.
pub open spec fn reports_database_path(r: AppResult<String>, home: Option<Seq<char>>) -> bool {
    match r {
        Ok(path) => home is Some && path@ == database_path(home->0),
        Err(e) => home is None && e is HomeDirUnavailable,
    }
}

impl Database {
    /// The path of the database file.
    pub closed spec fn location(&self) -> Seq<char> {
        self.path@
    }

    /// The path of the database for the given home directory.
    pub fn default_path_in(home: Option<&str>) -> (r: AppResult<String>)
        ensures
            reports_database_path(
                r,
                match home {
                    Some(h) => Some(h@),
                    None => None,
                },
            ),
    {
        match home {
            Some(h) => Ok(join_path(h, ".cc-switch/cc-switch.db")),
            None => Err(AppError::HomeDirUnavailable),
        }
    }

    /// The path of the database for the user's home directory.
    pub fn default_path() -> (r: AppResult<String>)
        ensures
            fails_on_home(r) || exists|home: Option<Seq<char>>| reports_database_path(r, home),
    {
        let home = match home_text() {
            Ok(home) => home,
            Err(e) => {
                return Err(e);
            },
        };
        let r = Self::default_path_in(borrowed(&home));
        proof {
            let h: Option<Seq<char>> = match home {
                Some(text) => Some(text@),
                None => None,
            };
            assert(reports_database_path(r, h));
        }
        r
    }

    /// Opens the database at `path`, given whether a file is there. A
    /// missing file is an error that names the path.
    pub fn open(path: String, present: bool) -> (r: AppResult<Database>)
        ensures
            match r {
                Ok(db) => present && db.location() == path@,
                Err(AppError::DatabaseMissing { path: missing }) => !present && missing@ == path@,
                Err(_) => false,
            },
    {
        if present {
            Ok(Database { path })
        } else {
            Err(AppError::DatabaseMissing { path })
        }
    }

    /// The path to connect to.
    pub fn path(&self) -> (path: &str)
        ensures
            path@ == self.location(),
    {
        self.path.as_str()
    }

    /// The reader of the provider table.
    pub fn providers(&self) -> (dao: ProviderDao<'_>)
        ensures
            dao.database() == self,
    {
        ProviderDao::new(self)
    }
}

} // verus!
