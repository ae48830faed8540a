//! Candidates for the completion of a provider name.

use crate::utils::sorting::views;
use crate::utils::text::has_prefix;
use vstd::prelude::*;
use vstd::string::*;

verus! {

/// The text in lower case, as `str::to_lowercase` gives it.
pub uninterp spec fn lowercased(text: Seq<char>) -> Seq<char>;

/// Whether a name completes what was typed: in lower case, the name begins
/// with what was typed.
pub open spec fn completes(typed: Seq<char>, name: Seq<char>) -> bool {
    lowercased(typed).is_prefix_of(lowercased(name))
}

/// The names that complete what was typed, in their order.
pub open spec fn candidates(names: Seq<Seq<char>>, typed: Seq<char>) -> Seq<Seq<char>> {
    names.filter(|name: Seq<char>| completes(typed, name))
}

/// `str::to_lowercase`: the text with every character in lower case, by the
/// rules of Unicode.
#[verifier::external_body]
fn to_lower(text: &str) -> (r: String)
    ensures
        r@ == lowercased(text@),
{
    text.to_lowercase()
}

/// The names that begin with what was typed, case aside. Every name is one
/// where nothing was typed.
pub fn config_name_completer(current: &str, names: &Vec<String>) -> (found: Vec<String>)
    ensures
        views(found@) == candidates(views(names@), current@),
{
    let typed = to_lower(current);
    let n = names.len();
    let ghost all = views(names@);
    let ghost keep = |name: Seq<char>| completes(current@, name);
    let mut found: Vec<String> = Vec::new();
    let mut i: usize = 0;
    proof {
        reveal(Seq::filter);
        assert(all.take(0) =~= Seq::<Seq<char>>::empty());
    }
    while i < n
        invariant
            i <= n,
            n == names.len(),
            all == views(names@),
            typed@ == lowercased(current@),
            keep == (|name: Seq<char>| completes(current@, name)),
            views(found@) == all.take(i as int).filter(keep),
        decreases n - i,
    {
        proof {
            reveal(Seq::filter);
            let upto = all.take(i + 1);
            assert(upto.drop_last() =~= all.take(i as int));
            assert(upto.last() == names@[i as int]@);
        }
        let ghost before = found@;
        if has_prefix(to_lower(names[i].as_str()).as_str(), typed.as_str()) {
            found.push(names[i].clone());
            assert(views(found@) =~= views(before).push(names@[i as int]@));
        }
        i += 1;
    }
    assert(all.take(n as int) =~= all);
    found
}

} // verus!
