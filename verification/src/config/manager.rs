//! Extraction of the providers of a document: display names, their order,
//! unique names and file-name tokens.

use crate::config::cache::{
    content_at, lemma_after_appended, lemma_after_one_more, lemma_replace_reaches, lemma_settings_file_is_no_temp,
    lemma_tokens_have_files_of_their_own, list_managed_names, managed_names, path_of_token,
    push_replace_steps, replace_steps, same_at, temp_path, token_path,
};
use crate::config::parser::{ConfigCollection, Provider};
use crate::error::{AppError, AppResult};
use crate::utils::fs::{
    after_steps, creation_steps, plan_of, ConfigPaths, DirEntry, FsStep, Step,
};
use crate::utils::json::{json_writable, pretty_json, to_pretty_bytes};
use crate::utils::encoding::{encode_config_name, encoded_name, push_char};
use crate::utils::sorting::{
    arranged, is_stable_order, sorted_names, stable_order, views,
};
use vstd::prelude::*;
use vstd::seq_lib::*;
use vstd::string::*;

verus! {

pub struct ConfigManager;

/// How often `name` occurs in `names`.
pub open spec fn count_of(names: Seq<Seq<char>>, name: Seq<char>) -> nat
    decreases names.len(),
{
    if names.len() == 0 {
        0
    } else {
        count_of(names.drop_last(), name) + if names.last() == name {
            1nat
        } else {
            0nat
        }
    }
}

/// The how-manieth occurrence of its name the name at position `i` is,
/// counting from one.
pub open spec fn occurrence(names: Seq<Seq<char>>, i: int) -> nat {
    count_of(names.take(i + 1), names[i])
}

/// The decimal digits of a number, without leading zeros.
pub open spec fn decimal(n: nat) -> Seq<char>
    decreases n,
{
    if n < 10 {
        seq![(0x30 + n) as char]
    } else {
        decimal(n / 10).push((0x30 + n % 10) as char)
    }
}

/// The unique name for position `i`: the name itself at its first occurrence,
/// and the name, a hyphen and the number of the occurrence after that. A name
/// made in this way may be the same as another name of the list: see
/// [`lemma_unique_names_are_distinct`].
pub open spec fn unique_name(names: Seq<Seq<char>>, i: int) -> Seq<char> {
    if occurrence(names, i) == 1 {
        names[i]
    } else {
        names[i] + seq!['-'] + decimal(occurrence(names, i))
    }
}

/// The unique names for a list of names, position by position.
pub open spec fn deduped(names: Seq<Seq<char>>) -> Seq<Seq<char>> {
    Seq::new(names.len(), |i: int| unique_name(names, i))
}

/// What `str::trim` leaves of a text: the text without the white space, as
/// Unicode defines it, at its two ends.
pub uninterp spec fn trimmed(text: Seq<char>) -> Seq<char>;

/// Whether `part` is a run of consecutive characters of `whole`.
pub open spec fn is_part_of(part: Seq<char>, whole: Seq<char>) -> bool {
    exists|i: int, j: int| 0 <= i <= j <= whole.len() && part == whole.subrange(i, j)
}

/// The name under which a provider is materialised: its name without the
/// white space around it; if that is empty, its identifier without the white
/// space around it; if that is empty too, `default`.
pub open spec fn display_name_of(name: Seq<char>, id: Seq<char>) -> Seq<char> {
    if trimmed(name).len() > 0 {
        trimmed(name)
    } else if trimmed(id).len() > 0 {
        trimmed(id)
    } else {
        "default"@
    }
}

/// The display names of a list of providers, position by position.
pub open spec fn display_names(providers: Seq<(String, Provider)>) -> Seq<Seq<char>> {
    Seq::new(providers.len(), |i: int| display_name_of(providers[i].1.name@, providers[i].1.id@))
}

fn digit_char(d: usize) -> (c: char)
    requires
        d < 10,
    ensures
        c == (0x30 + d) as char,
{
    match d {
        0 => '0',
        1 => '1',
        2 => '2',
        3 => '3',
        4 => '4',
        5 => '5',
        6 => '6',
        7 => '7',
        8 => '8',
        _ => '9',
    }
}

/// The last `taken` characters of `low`, the very last first.
spec fn low_digits(low: Seq<char>, taken: int) -> Seq<char> {
    Seq::new(taken as nat, |i: int| low[low.len() - 1 - i])
}

/// The decimal digits of a number, without leading zeros.
pub fn decimal_string(n: usize) -> (text: String)
    ensures
        text@ == decimal(n as nat),
{
    let mut rest = n;
    let mut low: Vec<char> = Vec::new();
    assert(decimal(n as nat) =~= decimal(rest as nat) + low_digits(low@, 0));
    while rest >= 10
        invariant
            decimal(n as nat) == decimal(rest as nat) + low_digits(low@, low@.len() as int),
        decreases rest,
    {
        let ghost before = low@;
        let digit = digit_char(rest % 10);
        low.push(digit);
        proof {
            assert(decimal(rest as nat) == decimal((rest / 10) as nat).push(digit));
            assert(low_digits(low@, low@.len() as int) =~= seq![digit] + low_digits(
                before,
                before.len() as int,
            ));
            assert(decimal((rest / 10) as nat).push(digit) + low_digits(before, before.len() as int)
                =~= decimal((rest / 10) as nat) + low_digits(low@, low@.len() as int));
        }
        rest = rest / 10;
    }
    let mut text = String::new();
    push_char(&mut text, digit_char(rest));
    let mut left = low.len();
    assert(text@ =~= decimal(rest as nat) + low_digits(low@, 0));
    while left > 0
        invariant
            left <= low.len(),
            rest < 10,
            text@ == decimal(rest as nat) + low_digits(low@, low@.len() - left),
        decreases left,
    {
        let ghost before = text@;
        left -= 1;
        push_char(&mut text, low[left]);
        assert(text@ =~= decimal(rest as nat) + low_digits(low@, low@.len() - left));
    }
    text
}

/// `str::trim`: the part of the text between the white space at its ends.
#[verifier::external_body]
fn trim_text(text: &str) -> (r: &str)
    ensures
        r@ == trimmed(text@),
        is_part_of(r@, text@),
{
    text.trim()
}

proof fn lemma_count_of_absent(names: Seq<Seq<char>>, name: Seq<char>)
    requires
        !names.contains(name),
    ensures
        count_of(names, name) == 0,
    decreases names.len(),
{
    if names.len() > 0 {
        assert(names.last() == names[names.len() - 1]);
        assert forall|j: int| 0 <= j < names.drop_last().len() implies names.drop_last()[j]
            != name by {
            assert(names[j] == names.drop_last()[j]);
        }
        lemma_count_of_absent(names.drop_last(), name);
    }
}

/// A list in which no name occurs twice is its own list of unique names.
pub proof fn lemma_dedupe_keeps_distinct_names(names: Seq<Seq<char>>)
    requires
        names.no_duplicates(),
    ensures
        deduped(names) == names,
{
    assert forall|i: int| 0 <= i < names.len() implies unique_name(names, i) == names[i] by {
        let upto = names.take(i + 1);
        assert(upto.drop_last() =~= names.take(i));
        assert(upto.last() == names[i]);
        assert(!names.take(i).contains(names[i]));
        lemma_count_of_absent(names.take(i), names[i]);
    }
    assert(deduped(names) =~= names);
}

/// Whether no name of the list is what the rule for later occurrences makes
/// of a name of the list: none is another, a hyphen and a number from two
/// on.
pub open spec fn free_of_numbered_names(names: Seq<Seq<char>>) -> bool {
    forall|j: int, k: nat|
        0 <= j < names.len() && 2 <= k ==> !names.contains(#[trigger] numbered(names[j], k))
}

/// A name, a hyphen and a number.
pub open spec fn numbered(name: Seq<char>, k: nat) -> Seq<char> {
    name + seq!['-'] + decimal(k)
}

proof fn lemma_decimal_is_digits(n: nat)
    ensures
        decimal(n).len() >= 1,
        forall|i: int| 0 <= i < decimal(n).len() ==> '0' <= #[trigger] decimal(n)[i] <= '9',
    decreases n,
{
    if n >= 10 {
        lemma_decimal_is_digits(n / 10);
    }
}

proof fn lemma_decimal_is_injective(m: nat, n: nat)
    requires
        decimal(m) == decimal(n),
    ensures
        m == n,
    decreases m,
{
    lemma_decimal_is_digits(m / 10);
    lemma_decimal_is_digits(n / 10);
    if m < 10 && n < 10 {
        assert(decimal(m)[0] == decimal(n)[0]);
        assert(((0x30 + m) as char) as int == 0x30 + m);
        assert(((0x30 + n) as char) as int == 0x30 + n);
        assert(decimal(m)[0] == (0x30 + m) as char);
        assert(decimal(n)[0] == (0x30 + n) as char);
    } else if m >= 10 && n >= 10 {
        let (a, b) = (decimal(m / 10), decimal(n / 10));
        let (x, y) = ((0x30 + m % 10) as char, (0x30 + n % 10) as char);
        assert(a.push(x).last() == b.push(y).last());
        assert(a.push(x).drop_last() =~= a);
        assert(b.push(y).drop_last() =~= b);
        assert(x as int == 0x30 + m % 10);
        assert(y as int == 0x30 + n % 10);
        lemma_decimal_is_injective(m / 10, n / 10);
    } else if m < 10 {
        assert(decimal(m).len() == 1);
        assert(decimal(n).len() == decimal(n / 10).len() + 1);
    } else {
        assert(decimal(n).len() == 1);
        assert(decimal(m).len() == decimal(m / 10).len() + 1);
    }
}

proof fn lemma_numbered_is_injective(a: Seq<char>, m: nat, b: Seq<char>, n: nat)
    requires
        numbered(a, m) == numbered(b, n),
    ensures
        a == b,
        m == n,
{
    let (s, t) = (numbered(a, m), numbered(b, n));
    lemma_decimal_is_digits(m);
    lemma_decimal_is_digits(n);
    assert(s.len() == a.len() + 1 + decimal(m).len());
    assert(t.len() == b.len() + 1 + decimal(n).len());
    assert(s[a.len() as int] == '-');
    assert(t[b.len() as int] == '-');
    if a.len() < b.len() {
        let at = b.len() - a.len() - 1;
        assert(0 <= at < decimal(m).len());
        assert(s[b.len() as int] == decimal(m)[at]);
    } else if b.len() < a.len() {
        let at = a.len() - b.len() - 1;
        assert(0 <= at < decimal(n).len());
        assert(t[a.len() as int] == decimal(n)[at]);
    }
    assert(a =~= s.subrange(0, a.len() as int));
    assert(b =~= t.subrange(0, b.len() as int));
    assert(decimal(m) =~= s.subrange(a.len() as int + 1, s.len() as int));
    assert(decimal(n) =~= t.subrange(b.len() as int + 1, t.len() as int));
    lemma_decimal_is_injective(m, n);
}

proof fn lemma_count_grows(names: Seq<Seq<char>>, name: Seq<char>, i: int, j: int)
    requires
        0 <= i <= j <= names.len(),
    ensures
        count_of(names.take(i), name) <= count_of(names.take(j), name),
    decreases j - i,
{
    if i < j {
        lemma_count_grows(names, name, i, j - 1);
        assert(names.take(j).drop_last() =~= names.take(j - 1));
    }
}

proof fn lemma_occurrences_differ(names: Seq<Seq<char>>, i: int, j: int)
    requires
        0 <= i < j < names.len(),
        names[i] == names[j],
    ensures
        1 <= occurrence(names, i) < occurrence(names, j),
{
    let name = names[i];
    assert(names.take(i + 1).drop_last() =~= names.take(i));
    assert(names.take(j + 1).drop_last() =~= names.take(j));
    lemma_count_grows(names, name, i + 1, j);
}

/// The unique names of a list are distinct, provided that no name of the
/// list is another with a hyphen and a number from two on: then the rule
/// for later occurrences cannot make a name that is there already.
pub proof fn lemma_unique_names_are_distinct(names: Seq<Seq<char>>)
    requires
        free_of_numbered_names(names),
    ensures
        deduped(names).no_duplicates(),
{
    let unique = deduped(names);
    assert forall|i: int, j: int| 0 <= i < j < unique.len() implies unique[i] != unique[j] by {
        let (ci, cj) = (occurrence(names, i), occurrence(names, j));
        assert(names.take(i + 1).drop_last() =~= names.take(i));
        assert(names.take(j + 1).drop_last() =~= names.take(j));
        assert(ci >= 1 && cj >= 1);
        if unique[i] == unique[j] {
            if ci == 1 && cj == 1 {
                lemma_occurrences_differ(names, i, j);
            } else if ci == 1 {
                assert(names[i] == numbered(names[j], cj));
                assert(names.contains(names[i]));
            } else if cj == 1 {
                assert(names[j] == numbered(names[i], ci));
                assert(names.contains(names[j]));
            } else {
                lemma_numbered_is_injective(names[i], ci, names[j], cj);
                lemma_occurrences_differ(names, i, j);
            }
        }
    }
}

/// Lists that hold the same names, each as often, give the same names in
/// order and the same unique names, however the lists themselves are ordered.
pub proof fn lemma_extraction_ignores_input_order(a: Seq<Seq<char>>, b: Seq<Seq<char>>)
    requires
        a.to_multiset() == b.to_multiset(),
    ensures
        sorted_names(a) == sorted_names(b),
        deduped(sorted_names(a)) == deduped(sorted_names(b)),
{
    crate::utils::sorting::lemma_name_order_total();
    a.lemma_sort_by_ensures(crate::utils::sorting::name_order());
    crate::utils::sorting::lemma_sorted_names_unique(b, sorted_names(a));
}

/// Whether `items` is what the providers give when they are taken in the
/// order `order`: each item holds the display name of its provider, the unique
/// name for its position among the display names in ascending order, the token
/// of that unique name, and settings with the text of those of its provider.
pub open spec fn is_extraction(
    providers: Seq<(String, Provider)>,
    order: Seq<usize>,
    items: Seq<(String, String, String, serde_json::Value)>,
) -> bool {
    let names = display_names(providers);
    let unique = deduped(sorted_names(names));
    &&& is_stable_order(names, order)
    &&& items.len() == providers.len()
    &&& forall|k: int|
        0 <= k < items.len() ==> {
            &&& (#[trigger] items[k]).0@ == names[order[k] as int]
            &&& items[k].0@ == sorted_names(names)[k]
            &&& items[k].1@ == unique[k]
            &&& items[k].2@ == encoded_name(unique[k])
            &&& pretty_json(items[k].3) == pretty_json(
                providers[order[k] as int].1.settings_config,
            )
            &&& json_writable(items[k].3) == json_writable(
                providers[order[k] as int].1.settings_config,
            )
        }
}

/// Two extractions of providers with the same display names, each as often,
/// agree in every name, unique name and token, position by position, however
/// the providers were ordered when they were read.
pub proof fn lemma_extraction_is_deterministic(
    first: Seq<(String, Provider)>,
    first_order: Seq<usize>,
    first_items: Seq<(String, String, String, serde_json::Value)>,
    second: Seq<(String, Provider)>,
    second_order: Seq<usize>,
    second_items: Seq<(String, String, String, serde_json::Value)>,
)
    requires
        is_extraction(first, first_order, first_items),
        is_extraction(second, second_order, second_items),
        display_names(first).to_multiset() == display_names(second).to_multiset(),
    ensures
        first_items.len() == second_items.len(),
        forall|k: int|
            0 <= k < first_items.len() ==> {
                &&& (#[trigger] first_items[k]).0@ == second_items[k].0@
                &&& first_items[k].1@ == second_items[k].1@
                &&& first_items[k].2@ == second_items[k].2@
            },
{
    to_multiset_len(display_names(first));
    to_multiset_len(display_names(second));
    lemma_extraction_ignores_input_order(display_names(first), display_names(second));
    assert(display_names(first).len() == display_names(second).len());
    assert forall|k: int| 0 <= k < first_items.len() implies {
        &&& (#[trigger] first_items[k]).0@ == second_items[k].0@
        &&& first_items[k].1@ == second_items[k].1@
        &&& first_items[k].2@ == second_items[k].2@
    } by {
        let _ = second_items[k];
    }
}

/// Two extractions of the same providers are the same, settings included.
pub proof fn lemma_extraction_is_repeatable(
    providers: Seq<(String, Provider)>,
    first_order: Seq<usize>,
    first_items: Seq<(String, String, String, serde_json::Value)>,
    second_order: Seq<usize>,
    second_items: Seq<(String, String, String, serde_json::Value)>,
)
    requires
        is_extraction(providers, first_order, first_items),
        is_extraction(providers, second_order, second_items),
    ensures
        first_order == second_order,
        first_items.len() == second_items.len(),
        forall|k: int|
            0 <= k < first_items.len() ==> {
                &&& (#[trigger] first_items[k]).0@ == second_items[k].0@
                &&& first_items[k].1@ == second_items[k].1@
                &&& first_items[k].2@ == second_items[k].2@
                &&& pretty_json(first_items[k].3) == pretty_json(second_items[k].3)
            },
{
    crate::utils::sorting::lemma_stable_order_unique(
        display_names(providers),
        first_order,
        second_order,
    );
    assert forall|k: int| 0 <= k < first_items.len() implies {
        &&& (#[trigger] first_items[k]).0@ == second_items[k].0@
        &&& first_items[k].1@ == second_items[k].1@
        &&& first_items[k].2@ == second_items[k].2@
        &&& pretty_json(first_items[k].3) == pretty_json(second_items[k].3)
    } by {
        let _ = second_items[k];
    }
}

/// The settings files to write, and the steps that write them.
pub struct SeparatedPlan {
    /// The steps to perform.
    pub steps: Vec<FsStep>,
    /// The paths of the files that the steps write, item by item.
    pub written: Vec<String>,
}

/// The token and the text to write for each extracted item.
pub open spec fn files_of(items: Seq<(String, String, String, serde_json::Value)>) -> Seq<
    (Seq<char>, Seq<u8>),
> {
    Seq::new(items.len(), |i: int| (items[i].2@, pretty_json(items[i].3)))
}

/// Whether the settings of every item can be written as JSON.
pub open spec fn all_writable(items: Seq<(String, String, String, serde_json::Value)>) -> bool {
    forall|i: int| 0 <= i < items.len() ==> json_writable(#[trigger] items[i].3)
}

/// Tokens and contents as texts and bytes.
pub open spec fn file_views(files: Seq<(String, Vec<u8>)>) -> Seq<(Seq<char>, Seq<u8>)> {
    Seq::new(files.len(), |i: int| (files[i].0@, files[i].1@))
}

/// The steps that write one settings file for each token and content, in
/// order, each through its temporary file.
pub open spec fn separated_steps(dir: Seq<char>, files: Seq<(Seq<char>, Seq<u8>)>) -> Seq<Step>
    decreases files.len(),
{
    if files.len() == 0 {
        Seq::empty()
    } else {
        separated_steps(dir, files.drop_last()) + replace_steps(
            token_path(dir, files.last().0),
            files.last().1,
        )
    }
}

/// All the steps that write the given contents under the given tokens: first
/// the directory is made sure of, then the files are written in order.
pub open spec fn separated_plan_steps(
    dir: Seq<char>,
    dir_present: bool,
    files: Seq<(Seq<char>, Seq<u8>)>,
) -> Seq<Step> {
    creation_steps(dir, dir_present) + separated_steps(dir, files)
}

/// Whether a path is the temporary file of none of the writes.
pub open spec fn is_no_temp_of(path: Seq<char>, dir: Seq<char>, files: Seq<(Seq<char>, Seq<u8>)>) -> bool {
    forall|i: int| 0 <= i < files.len() ==> path != temp_path(token_path(dir, #[trigger] files[i].0))
}

/// Whether a path holds all of the content that one of the writes puts
/// there.
pub open spec fn holds_a_written_file(
    reached: Map<Seq<char>, Seq<u8>>,
    path: Seq<char>,
    dir: Seq<char>,
    files: Seq<(Seq<char>, Seq<u8>)>,
) -> bool {
    exists|i: int|
        0 <= i < files.len() && path == token_path(dir, #[trigger] files[i].0) && content_at(
            reached,
            path,
        ) == Some(files[i].1)
}

proof fn lemma_separated_steps_split(
    dir: Seq<char>,
    dir_present: bool,
    files: Seq<(Seq<char>, Seq<u8>)>,
)
    requires
        files.len() > 0,
    ensures
        separated_plan_steps(dir, dir_present, files) == separated_plan_steps(
            dir,
            dir_present,
            files.drop_last(),
        ) + replace_steps(token_path(dir, files.last().0), files.last().1),
        replace_steps(token_path(dir, files.last().0), files.last().1).len() == 3,
{
    let head = creation_steps(dir, dir_present);
    let body = separated_steps(dir, files.drop_last());
    let tail = replace_steps(token_path(dir, files.last().0), files.last().1);
    assert(head + (body + tail) =~= (head + body) + tail);
}

/// However far the writing of the settings files gets, every path that is
/// not a temporary file of the plan holds what it held before or all of the
/// content that the plan writes there: no settings file is ever seen half
/// written, and no other file is touched.
pub proof fn lemma_separated_write_never_partial(
    before: Map<Seq<char>, Seq<u8>>,
    dir: Seq<char>,
    dir_present: bool,
    files: Seq<(Seq<char>, Seq<u8>)>,
    done: int,
    path: Seq<char>,
)
    requires
        0 <= done <= separated_plan_steps(dir, dir_present, files).len(),
        is_no_temp_of(path, dir, files),
    ensures
        ({
            let reached = after_steps(
                before,
                separated_plan_steps(dir, dir_present, files).take(done),
            );
            same_at(reached, before, path) || holds_a_written_file(reached, path, dir, files)
        }),
    decreases files.len(),
{
    let steps = separated_plan_steps(dir, dir_present, files);
    let reached = after_steps(before, steps.take(done));
    if files.len() == 0 {
        let head = creation_steps(dir, dir_present);
        assert(steps =~= head);
        if done == 0 {
            assert(steps.take(0) =~= Seq::<Step>::empty());
        } else {
            assert(steps.take(1) =~= Seq::<Step>::empty().push(head[0]));
            lemma_after_one_more(before, Seq::empty(), head[0]);
        }
        assert(reached == before);
    } else {
        let init = files.drop_last();
        let earlier = separated_plan_steps(dir, dir_present, init);
        let target = token_path(dir, files.last().0);
        let data = files.last().1;
        let tail = replace_steps(target, data);
        lemma_separated_steps_split(dir, dir_present, files);
        assert forall|i: int| 0 <= i < init.len() implies path != temp_path(
            token_path(dir, #[trigger] init[i].0),
        ) by {
            assert(init[i] == files[i]);
        }
        let _ = files[files.len() - 1];
        assert(path != temp_path(target));
        if done <= earlier.len() {
            assert(steps.take(done) =~= earlier.take(done));
            lemma_separated_write_never_partial(before, dir, dir_present, init, done, path);
            if holds_a_written_file(reached, path, dir, init) {
                let i = choose|i: int|
                    0 <= i < init.len() && path == token_path(dir, #[trigger] init[i].0)
                        && content_at(reached, path) == Some(init[i].1);
                assert(files[i] == init[i]);
            }
        } else {
            let more = done - earlier.len();
            assert(steps.take(done) =~= earlier + tail.take(more));
            assert(earlier.take(earlier.len() as int) =~= earlier);
            let through = after_steps(before, earlier);
            lemma_after_appended(before, earlier, tail.take(more));
            lemma_replace_reaches(through, target, data, more);
            lemma_separated_write_never_partial(
                before,
                dir,
                dir_present,
                init,
                earlier.len() as int,
                path,
            );
            if more == 3 && path == target {
                assert(content_at(reached, path) == Some(data));
            } else {
                assert(content_at(reached, path) == content_at(through, path));
                if holds_a_written_file(through, path, dir, init) {
                    let i = choose|i: int|
                        0 <= i < init.len() && path == token_path(dir, #[trigger] init[i].0)
                            && content_at(through, path) == Some(init[i].1);
                    assert(files[i] == init[i]);
                }
            }
        }
    }
}

/// When the writing of the settings files is through, the file for a token
/// holds the content that was given for it, or the last such content where
/// the token was given more than once.
pub proof fn lemma_separated_write_completes(
    before: Map<Seq<char>, Seq<u8>>,
    dir: Seq<char>,
    dir_present: bool,
    files: Seq<(Seq<char>, Seq<u8>)>,
    i: int,
)
    requires
        0 <= i < files.len(),
        forall|j: int| i < j < files.len() ==> (#[trigger] files[j]).0 != files[i].0,
    ensures
        content_at(
            after_steps(before, separated_plan_steps(dir, dir_present, files)),
            token_path(dir, files[i].0),
        ) == Some(files[i].1),
    decreases files.len(),
{
    let init = files.drop_last();
    let earlier = separated_plan_steps(dir, dir_present, init);
    let target = token_path(dir, files.last().0);
    let data = files.last().1;
    let tail = replace_steps(target, data);
    lemma_separated_steps_split(dir, dir_present, files);
    let through = after_steps(before, earlier);
    lemma_after_appended(before, earlier, tail);
    assert(tail.take(3) =~= tail);
    lemma_replace_reaches(through, target, data, 3);
    if i < files.len() - 1 {
        let mine = token_path(dir, files[i].0);
        assert(init[i] == files[i]);
        assert forall|j: int| i < j < init.len() implies (#[trigger] init[j]).0 != init[i].0 by {
            assert(init[j] == files[j]);
        }
        lemma_separated_write_completes(before, dir, dir_present, init, i);
        let _ = files[files.len() - 1];
        if mine == target {
            lemma_tokens_have_files_of_their_own(dir, files[i].0, files.last().0);
        }
        lemma_settings_file_is_no_temp(dir, files[i].0, target);
    }
}

/// Whether `plan` writes the given contents under the given tokens: first the
/// directory is made sure of, then the files are written in order.
pub open spec fn is_separated_plan(
    plan: SeparatedPlan,
    dir: Seq<char>,
    dir_present: bool,
    files: Seq<(Seq<char>, Seq<u8>)>,
) -> bool {
    &&& plan_of(plan.steps@) == separated_plan_steps(dir, dir_present, files)
    &&& plan.written@.len() == files.len()
    &&& forall|i: int|
        0 <= i < files.len() ==> (#[trigger] plan.written@[i])@ == token_path(dir, files[i].0)
}

impl ConfigManager {
    /// The plan that writes one settings file for each token and content,
    /// given whether the directory exists.
    pub fn separated_plan(paths: &ConfigPaths, files: &Vec<(String, Vec<u8>)>, dir_present: bool) -> (plan:
        SeparatedPlan)
        ensures
            is_separated_plan(plan, paths.separated_dir@, dir_present, file_views(files@)),
    {
        let dir = paths.separated_dir.as_str();
        let n = files.len();
        let ghost all = file_views(files@);
        let mut steps = crate::utils::fs::ensure_dir_exists(dir, dir_present);
        let mut written: Vec<String> = Vec::with_capacity(n);
        let mut i: usize = 0;
        assert(all.take(0) =~= Seq::<(Seq<char>, Seq<u8>)>::empty());
        assert(plan_of(steps@) =~= creation_steps(dir@, dir_present) + separated_steps(
            dir@,
            all.take(0),
        ));
        while i < n
            invariant
                i <= n,
                n == files.len(),
                dir@ == paths.separated_dir@,
                all == file_views(files@),
                plan_of(steps@) == creation_steps(dir@, dir_present) + separated_steps(
                    dir@,
                    all.take(i as int),
                ),
                written.len() == i,
                forall|j: int|
                    0 <= j < i ==> (#[trigger] written@[j])@ == token_path(dir@, all[j].0),
            decreases n - i,
        {
            proof {
                assert(all.take(i + 1).drop_last() =~= all.take(i as int));
                assert(all.take(i + 1).last() == (files@[i as int].0@, files@[i as int].1@));
            }
            let target = path_of_token(dir, files[i].0.as_str());
            push_replace_steps(&mut steps, target.as_str(), files[i].1.as_slice());
            assert(plan_of(steps@) =~= creation_steps(dir@, dir_present) + separated_steps(
                dir@,
                all.take(i + 1),
            ));
            written.push(target);
            i += 1;
        }
        assert(all.take(n as int) =~= all);
        SeparatedPlan { steps, written }
    }

    /// The plan that writes the settings file of each extracted item into
    /// the directory of materialised files, given whether the directory
    /// exists. Fails, with no step to perform, exactly where some settings
    /// cannot be written as JSON.
    pub fn write_separated_configs(
        paths: &ConfigPaths,
        items: &[(String, String, String, serde_json::Value)],
        dir_present: bool,
    ) -> (r: AppResult<SeparatedPlan>)
        ensures
            r is Ok <==> all_writable(items@),
            match r {
                Ok(plan) => is_separated_plan(
                    plan,
                    paths.separated_dir@,
                    dir_present,
                    files_of(items@),
                ),
                Err(e) => e is Serialization,
            },
    {
        let n = items.len();
        let mut files: Vec<(String, Vec<u8>)> = Vec::with_capacity(n);
        let mut i: usize = 0;
        while i < n
            invariant
                i <= n,
                n == items.len(),
                files.len() == i,
                forall|j: int|
                    0 <= j < i ==> {
                        &&& (#[trigger] files@[j]).0@ == items@[j].2@
                        &&& files@[j].1@ == pretty_json(items@[j].3)
                    },
                forall|j: int| 0 <= j < i ==> json_writable(#[trigger] items@[j].3),
            decreases n - i,
        {
            match to_pretty_bytes(&items[i].3) {
                Ok(content) => {
                    files.push((items[i].2.clone(), content));
                },
                Err(_) => {
                    return Err(AppError::Serialization);
                },
            }
            i += 1;
        }
        assert(file_views(files@) =~= files_of(items@));
        Ok(Self::separated_plan(paths, &files, dir_present))
    }

    /// The path of the settings file for a provider name, given whether the
    /// file exists. A missing file is an error that names the provider and
    /// the path.
    pub fn find_config_file(paths: &ConfigPaths, name: &str, present: bool) -> (r: AppResult<
        String,
    >)
        ensures
            match r {
                Ok(path) => present && path@ == token_path(
                    paths.separated_dir@,
                    encoded_name(name@),
                ),
                Err(AppError::NotFound { name: missing, path }) => {
                    &&& !present
                    &&& missing@ == name@
                    &&& path@ == token_path(paths.separated_dir@, encoded_name(name@))
                },
                Err(_) => false,
            },
    {
        let path = path_of_token(paths.separated_dir.as_str(), encode_config_name(name).as_str());
        if present {
            Ok(path)
        } else {
            Err(AppError::NotFound { name: name.to_owned(), path })
        }
    }

    /// The provider names that have a settings file, in ascending order,
    /// given the entries of the directory of materialised files (none where
    /// it is missing). Entries that are no settings files are passed over.
    pub fn list_configs(entries: &Vec<DirEntry>) -> (names: Vec<String>)
        ensures
            views(names@) == sorted_names(managed_names(entries@)),
    {
        list_managed_names(entries)
    }

    /// Lists the providers of a document by ascending display name, providers
    /// with the same display name in the order of the document, and gives
    /// each its unique name and file-name token.
    pub fn extract_providers(collection: &ConfigCollection) -> (items: Vec<
        (String, String, String, serde_json::Value),
    >)
        ensures
            exists|order: Seq<usize>| is_extraction(collection.claude.providers@, order, items@),
    {
        let providers = &collection.claude.providers;
        let n = providers.len();
        let ghost wanted = display_names(providers@);
        let mut names: Vec<String> = Vec::with_capacity(n);
        let mut i: usize = 0;
        while i < n
            invariant
                i <= n,
                n == providers.len(),
                wanted == display_names(providers@),
                names.len() == i,
                forall|j: int| 0 <= j < i ==> (#[trigger] names@[j])@ == wanted[j],
            decreases n - i,
        {
            names.push(Self::display_name(&providers[i].1));
            i += 1;
        }
        assert(views(names@) =~= wanted);
        let order = stable_order(&names);
        let ghost sorted = sorted_names(wanted);
        let mut base: Vec<String> = Vec::with_capacity(n);
        let mut k: usize = 0;
        while k < n
            invariant
                k <= n,
                n == names.len(),
                views(names@) == wanted,
                is_stable_order(wanted, order@),
                arranged(wanted, order@) == sorted,
                base.len() == k,
                forall|j: int| 0 <= j < k ==> (#[trigger] base@[j])@ == sorted[j],
            decreases n - k,
        {
            assert(order@[k as int] < n);
            assert(sorted[k as int] == wanted[order@[k as int] as int]);
            assert(wanted[order@[k as int] as int] == names@[order@[k as int] as int]@);
            base.push(names[order[k]].clone());
            k += 1;
        }
        assert(views(base@) =~= sorted);
        let unique = Self::handle_duplicate_names(base.as_slice());
        let ghost fresh = deduped(sorted);
        assert(views(unique@).len() == unique@.len());
        let mut items: Vec<(String, String, String, serde_json::Value)> = Vec::with_capacity(n);
        let mut k: usize = 0;
        while k < n
            invariant
                k <= n,
                n == providers.len(),
                n == base.len(),
                n == unique.len(),
                wanted == display_names(providers@),
                sorted == sorted_names(wanted),
                fresh == deduped(sorted),
                views(base@) == sorted,
                views(unique@) == fresh,
                is_stable_order(wanted, order@),
                arranged(wanted, order@) == sorted,
                items.len() == k,
                forall|j: int|
                    0 <= j < k ==> {
                        &&& (#[trigger] items@[j]).0@ == wanted[order@[j] as int]
                        &&& items@[j].0@ == sorted[j]
                        &&& items@[j].1@ == fresh[j]
                        &&& items@[j].2@ == encoded_name(fresh[j])
                        &&& pretty_json(items@[j].3) == pretty_json(
                            providers@[order@[j] as int].1.settings_config,
                        )
                        &&& json_writable(items@[j].3) == json_writable(
                            providers@[order@[j] as int].1.settings_config,
                        )
                    },
            decreases n - k,
        {
            assert(order@[k as int] < n);
            assert(sorted[k as int] == wanted[order@[k as int] as int]);
            assert(views(base@)[k as int] == base@[k as int]@);
            assert(views(unique@)[k as int] == unique@[k as int]@);
            let token = encode_config_name(unique[k].as_str());
            let settings = providers[order[k]].1.settings_config.clone();
            items.push((base[k].clone(), unique[k].clone(), token, settings));
            k += 1;
        }
        assert(is_extraction(providers@, order@, items@));
        items
    }

    /// Makes the names of a list unique: a name stays as it is where it
    /// occurs first, and gets `-2`, `-3`, ... where it occurs again.
    pub fn handle_duplicate_names(names: &[String]) -> (result: Vec<String>)
        ensures
            views(result@) == deduped(views(names@)),
    {
        let n = names.len();
        let ghost all = views(names@);
        let mut result: Vec<String> = Vec::with_capacity(n);
        let mut i: usize = 0;
        while i < n
            invariant
                i <= n,
                n == names.len(),
                all == views(names@),
                result.len() == i,
                forall|k: int| 0 <= k < i ==> (#[trigger] result@[k])@ == unique_name(all, k),
            decreases n - i,
        {
            let mut count: usize = 0;
            let mut j: usize = 0;
            assert(all.take(0) =~= Seq::<Seq<char>>::empty());
            while j <= i
                invariant
                    j <= i + 1,
                    i < n,
                    n == names.len(),
                    all == views(names@),
                    count <= j,
                    count == count_of(all.take(j as int), all[i as int]),
                decreases i + 1 - j,
            {
                proof {
                    let upto = all.take(j + 1);
                    assert(upto.drop_last() =~= all.take(j as int));
                    assert(upto.last() == all[j as int]);
                    assert(all[j as int] == names@[j as int]@);
                    assert(all[i as int] == names@[i as int]@);
                }
                if names[j] == names[i] {
                    count += 1;
                }
                j += 1;
            }
            let unique = if count == 1 {
                names[i].clone()
            } else {
                let mut text = names[i].clone();
                text.append("-");
                text.append(decimal_string(count).as_str());
                proof {
                    reveal_strlit("-");
                    assert("-"@ =~= seq!['-']);
                }
                text
            };
            assert(unique@ == unique_name(all, i as int));
            result.push(unique);
            i += 1;
        }
        assert(views(result@) =~= deduped(all));
        result
    }

    /// The name under which a provider is materialised. It is never empty,
    /// and is `default` for a provider without name and identifier.
    pub fn display_name(provider: &Provider) -> (name: String)
        ensures
            name@ == display_name_of(provider.name@, provider.id@),
            name@.len() > 0,
            provider.name@.len() == 0 && provider.id@.len() == 0 ==> name@ == "default"@,
    {
        proof {
            reveal_strlit("default");
        }
        let name = trim_text(provider.name.as_str());
        if !name.is_empty() {
            return name.to_owned();
        }
        let id = trim_text(provider.id.as_str());
        if !id.is_empty() {
            id.to_owned()
        } else {
            "default".to_owned()
        }
    }
}

} // verus!
