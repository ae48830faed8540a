//! Providers as the database holds them.
//!
//! The queries are run by the caller, read-only, and their rows handed to
//! [`ProviderDao`], which turns them into providers.

use super::Database;
use crate::utils::json::{
    json_writable, null_text, null_value, parse_value, parsed_json, pretty_json,
};
use crate::utils::sorting::views;
use vstd::prelude::*;
use vstd::string::*;

verus! {

/// A provider with its settings document.
#[derive(Debug, Clone)]
pub struct Provider {
    pub id: String,
    pub name: String,
    pub settings_config: serde_json::Value,
}

/// A row of the provider table as it was fetched: the settings are still
/// text.
#[derive(Debug, Clone)]
pub struct ProviderRow {
    pub id: String,
    pub name: String,
    pub settings_config: String,
}

/// Reader of the provider table of a database.
pub struct ProviderDao<'a> {
    db: &'a Database,
}

/// Whether `doc` is the settings document for the text of a row: the
/// document that the text holds, or the null document where the text holds
/// none.
pub open spec fn is_row_settings(doc: serde_json::Value, text: Seq<char>) -> bool {
    match parsed_json(text) {
        Some(parsed) => pretty_json(doc) == parsed,
        None => pretty_json(doc) == null_text() && json_writable(doc),
    }
}

/// Whether `provider` is the provider of `row`.
pub open spec fn is_provider_of(provider: Provider, row: ProviderRow) -> bool {
    &&& provider.id@ == row.id@
    &&& provider.name@ == row.name@
    &&& is_row_settings(provider.settings_config, row.settings_config@)
}

/// The names of rows, in order.
pub open spec fn row_names(rows: Seq<ProviderRow>) -> Seq<Seq<char>> {
    Seq::new(rows.len(), |i: int| rows[i].name@)
}

/// Whether `providers` are the providers of `rows`, row by row.
pub open spec fn are_providers_of(providers: Seq<Provider>, rows: Seq<ProviderRow>) -> bool {
    &&& providers.len() == rows.len()
    &&& forall|i: int| 0 <= i < rows.len() ==> is_provider_of(#[trigger] providers[i], rows[i])
}

/// The provider of a row. Settings that are not JSON become the null
/// document, so that one bad row does not hide the others.
pub fn provider_of_row(row: &ProviderRow) -> (provider: Provider)
    ensures
        is_provider_of(provider, *row),
{
    let settings = match parse_value(row.settings_config.as_str()) {
        Ok(doc) => doc,
        Err(_) => null_value(),
    };
    Provider { id: row.id.clone(), name: row.name.clone(), settings_config: settings }
}

impl<'a> ProviderDao<'a> {
    /// The query for all providers of an application, in the order of the
    /// sort key and then of the name. Its one parameter is the application.
    pub const LIST_ALL: &'static str =
        "SELECT id, name, settings_config FROM providers WHERE app_type = ?1 ORDER BY sort_index, name";

    /// The query for the provider of a name. Its parameters are the
    /// application and the name.
    pub const GET_BY_NAME: &'static str =
        "SELECT id, name, settings_config FROM providers WHERE app_type = ?1 AND name = ?2";

    /// The database that is read.
    pub closed spec fn database(&self) -> &Database {
        self.db
    }

    pub fn new(db: &'a Database) -> (dao: Self)
        ensures
            dao.database() == db,
    {
        ProviderDao { db }
    }

    /// The database to connect to.
    pub fn db(&self) -> (db: &'a Database)
        ensures
            db == self.database(),
    {
        self.db
    }

    /// The providers of the rows that [`Self::LIST_ALL`] returned, in their
    /// order.
    pub fn list_all(&self, rows: &Vec<ProviderRow>) -> (providers: Vec<Provider>)
        ensures
            are_providers_of(providers@, rows@),
    {
        let n = rows.len();
        let mut providers: Vec<Provider> = Vec::with_capacity(n);
        let mut i: usize = 0;
        while i < n
            invariant
                i <= n,
                n == rows.len(),
                providers.len() == i,
                forall|j: int| 0 <= j < i ==> is_provider_of(#[trigger] providers@[j], rows@[j]),
            decreases n - i,
        {
            providers.push(provider_of_row(&rows[i]));
            i += 1;
        }
        providers
    }

    /// The provider of a name among the rows that [`Self::GET_BY_NAME`]
    /// returned: that of the first row with the name, or none where no row
    /// has it. That no provider has the name is an answer, not an error.
    pub fn get_by_name(&self, name: &str, rows: &Vec<ProviderRow>) -> (found: Option<Provider>)
        ensures
            match row_names(rows@).index_of_first(name@) {
                Some(at) => found matches Some(provider) && is_provider_of(provider, rows@[at]),
                None => found is None,
            },
    {
        let wanted = name.to_owned();
        let n = rows.len();
        let ghost names = row_names(rows@);
        proof {
            names.index_of_first_ensures(name@);
        }
        let mut i: usize = 0;
        while i < n
            invariant
                i <= n,
                n == rows.len(),
                wanted@ == name@,
                names == row_names(rows@),
                forall|j: int| 0 <= j < i ==> names[j] != name@,
            decreases n - i,
        {
            if rows[i].name == wanted {
                proof {
                    names.index_of_first_ensures(name@);
                    assert(names[i as int] == name@);
                    assert(names.contains(name@));
                    assert(names.index_of_first(name@) == Some(i as int));
                }
                return Some(provider_of_row(&rows[i]));
            }
            i += 1;
        }
        proof {
            assert(!names.contains(name@));
        }
        None
    }

    /// The names of the rows that [`Self::LIST_ALL`] returned, in their
    /// order.
    pub fn list_names(&self, rows: &Vec<ProviderRow>) -> (names: Vec<String>)
        ensures
            views(names@) == row_names(rows@),
    {
        let n = rows.len();
        let mut names: Vec<String> = Vec::with_capacity(n);
        let mut i: usize = 0;
        while i < n
            invariant
                i <= n,
                n == rows.len(),
                names.len() == i,
                forall|j: int| 0 <= j < i ==> (#[trigger] names@[j])@ == rows@[j].name@,
            decreases n - i,
        {
            names.push(rows[i].name.clone());
            i += 1;
        }
        assert(views(names@) =~= row_names(rows@));
        names
    }
}

} // verus!
