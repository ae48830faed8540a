//! The listing of provider names.

use vstd::prelude::*;
use vstd::string::*;

verus! {

/// The characters that a shell does not take literally in a word.
pub open spec fn is_shell_special(c: char) -> bool {
    c == ' ' || c == '\t' || c == '\n' || c == '"' || c == '\'' || c == '\\' || c == '*' || c
        == '?' || c == '[' || c == ']' || c == '(' || c == ')' || c == '{' || c == '}' || c == '$'
        || c == '&' || c == '|' || c == ';' || c == '<' || c == '>'
}

/// Whether a name holds a character that a shell does not take literally.
pub open spec fn wants_quotes(name: Seq<char>) -> bool {
    exists|i: int| 0 <= i < name.len() && is_shell_special(#[trigger] name[i])
}

/// A name as it is listed: between double quotes where it wants them.
pub open spec fn listed(name: Seq<char>) -> Seq<char> {
    if wants_quotes(name) {
        seq!['"'] + name + seq!['"']
    } else {
        name
    }
}

fn shell_special(c: char) -> (r: bool)
    ensures
        r == is_shell_special(c),
{
    c == ' ' || c == '\t' || c == '\n' || c == '"' || c == '\'' || c == '\\' || c == '*' || c
        == '?' || c == '[' || c == ']' || c == '(' || c == ')' || c == '{' || c == '}' || c == '$'
        || c == '&' || c == '|' || c == ';' || c == '<' || c == '>'
}

/// Whether a name must stand between double quotes to be one word to a
/// shell.
pub fn needs_quoting(name: &str) -> (r: bool)
    ensures
        r == wants_quotes(name@),
{
    let n = name.unicode_len();
    let mut i: usize = 0;
    while i < n
        invariant
            i <= n,
            n == name@.len(),
            forall|j: int| 0 <= j < i ==> !is_shell_special(#[trigger] name@[j]),
        decreases n - i,
    {
        if shell_special(name.get_char(i)) {
            return true;
        }
        i += 1;
    }
    false
}

/// The lines that list the names, one for each name in order, or nothing
/// where there is no name to list.
pub fn list_configs(names: &Vec<String>) -> (lines: Option<Vec<String>>)
    ensures
        lines is None <==> names@.len() == 0,
        lines matches Some(shown) ==> {
            &&& shown@.len() == names@.len()
            &&& forall|i: int|
                0 <= i < names@.len() ==> (#[trigger] shown@[i])@ == listed(names@[i]@)
        },
{
    let n = names.len();
    if n == 0 {
        return None;
    }
    let mut shown: Vec<String> = Vec::with_capacity(n);
    let mut i: usize = 0;
    while i < n
        invariant
            i <= n,
            n == names.len(),
            shown.len() == i,
            forall|j: int| 0 <= j < i ==> (#[trigger] shown@[j])@ == listed(names@[j]@),
        decreases n - i,
    {
        let line = if needs_quoting(names[i].as_str()) {
            proof {
                reveal_strlit("\"");
                assert("\""@ =~= seq!['"']);
            }
            let mut quoted = "\"".to_owned();
            quoted.append(names[i].as_str());
            quoted.append("\"");
            quoted
        } else {
            names[i].clone()
        };
        shown.push(line);
        i += 1;
    }
    Some(shown)
}

} // verus!
