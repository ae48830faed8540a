//! The shape of the provider document.

use vstd::prelude::*;

verus! {

/// One provider of the document.
#[derive(Debug, Clone)]
pub struct Provider {
    /// Identifier, possibly empty.
    pub id: String,
    /// The name the user chose, possibly empty.
    pub name: String,
    /// The settings document, written out verbatim when materialised.
    pub settings_config: serde_json::Value,
}

/// The providers of one application, each under its key in the document.
///
/// The document is a mapping; here its entries stand in a list. No key occurs
/// twice in a list built with [`ClaudeConfig::new`] and
/// [`ClaudeConfig::insert`].
#[derive(Debug)]
pub struct ClaudeConfig {
    pub providers: Vec<(String, Provider)>,
}

/// The whole document.
#[derive(Debug)]
pub struct ConfigCollection {
    pub claude: ClaudeConfig,
}

impl ClaudeConfig {
    /// The keys of the entries, in order.
    pub open spec fn keys(&self) -> Seq<Seq<char>> {
        Seq::new(self.providers@.len(), |i: int| self.providers@[i].0@)
    }

    /// No key occurs twice.
    pub open spec fn well_formed(&self) -> bool {
        self.keys().no_duplicates()
    }

    /// A configuration without providers.
    pub fn new() -> (config: Self)
        ensures
            config.providers@.len() == 0,
            config.well_formed(),
    {
        ClaudeConfig { providers: Vec::new() }
    }

    /// Puts a provider under a key. The first entry that holds the key is
    /// replaced where it stands; where there is none, the entry is added at
    /// the end.
    pub fn insert(&mut self, key: String, provider: Provider)
        ensures
            final(self).providers@ == match old(self).keys().index_of_first(key@) {
                Some(at) => old(self).providers@.update(at, (key, provider)),
                None => old(self).providers@.push((key, provider)),
            },
            old(self).well_formed() ==> final(self).well_formed(),
    {
        let n = self.providers.len();
        let ghost keys = self.keys();
        proof {
            keys.index_of_first_ensures(key@);
        }
        let mut i: usize = 0;
        while i < n
            invariant
                i <= n,
                n == self.providers.len(),
                *self == *old(self),
                keys == self.keys(),
                forall|j: int| 0 <= j < i ==> keys[j] != key@,
            decreases n - i,
        {
            if self.providers[i].0 == key {
                proof {
                    keys.index_of_first_ensures(key@);
                    assert(keys[i as int] == key@);
                    assert(keys.contains(key@));
                    assert(keys.index_of_first(key@) == Some(i as int));
                }
                self.providers.set(i, (key, provider));
                proof {
                    assert(self.keys() =~= keys);
                }
                return ;
            }
            i += 1;
        }
        proof {
            assert(!keys.contains(key@));
        }
        self.providers.push((key, provider));
        proof {
            assert(self.keys() =~= keys.push(key@));
        }
    }
}

} // verus!
