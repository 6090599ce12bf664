//! What the commands print.

use crate::error;
use crate::error::Error;
use crate::microsoft::models as products;
use crate::models;
use crate::models::Language;
use crate::text;
use vstd::prelude::*;
use vstd::string::*;

verus! {

// ---------------------------------------------------------------------------
// Versions
// ---------------------------------------------------------------------------
/// The architectures of a product.
pub open spec fn archs(p: products::ProductView) -> Seq<Seq<char>> {
    p.editions.map_values(|e: products::EditionView| e.arch)
}

/// The line for a product: its version, and its architectures.
pub open spec fn product_line(p: products::ProductView) -> Seq<char> {
    "  "@ + text::replaced(p.key, "windows"@, ""@) + " — "@ + text::joined(archs(p), ", "@)
}

/// The line for a product.
fn line_of_product(p: &products::Product) -> (r: String)
    ensures
        r@ == product_line(p@),
{
    let n: usize = p.editions.len();
    let mut names: Vec<String> = Vec::new();
    let mut i: usize = 0;
    while i < n
        invariant
            i <= n,
            n == p.editions@.len(),
            names@.len() == i,
            forall|k: int| 0 <= k < i ==> (#[trigger] names@[k])@ == p@.editions[k].arch,
        decreases n - i,
    {
        assert(p@.editions[i as int] == p.editions@[i as int]@);
        names.push(p.editions[i].arch.to_owned());
        i += 1;
    }
    assert(text::texts(names@) =~= archs(p@));
    proof {
        reveal_strlit("windows");
    }
    let version = text::replace_all(p.key, "windows", "");
    let list = text::join(&names, ", ");
    let head = text::concat3("  ", version.as_str(), " — ");
    text::concat(head.as_str(), list.as_str())
}

/// The lines that list the versions.
pub fn version_lines() -> (r: Vec<String>)
    ensures
        text::texts(r@) == seq![
            "Available Windows Versions:\n"@,
            product_line(products::windows11()),
            product_line(products::windows10()),
            "\nUse: winiso list --version 11 to see available languages."@,
        ],
{
    let all = products::products();
    assert(products::product_views(all@).len() == 2);
    assert(products::product_views(all@)[0] == all@[0]@);
    assert(products::product_views(all@)[1] == all@[1]@);
    let mut r: Vec<String> = Vec::new();
    r.push("Available Windows Versions:\n".to_owned());
    r.push(line_of_product(&all[0]));
    r.push(line_of_product(&all[1]));
    r.push("\nUse: winiso list --version 11 to see available languages.".to_owned());
    assert(text::texts(r@) =~= seq![
        "Available Windows Versions:\n"@,
        product_line(products::windows11()),
        product_line(products::windows10()),
        "\nUse: winiso list --version 11 to see available languages."@,
    ]);
    r
}

// ---------------------------------------------------------------------------
// Languages
// ---------------------------------------------------------------------------
/// `s` with spaces before it, so that it is at least three characters long.
pub open spec fn three_wide(s: Seq<char>) -> Seq<char> {
    if s.len() == 1 {
        "  "@ + s
    } else if s.len() == 2 {
        " "@ + s
    } else {
        s
    }
}

/// The line for the `i`-th of the languages that are listed, counted from one.
pub open spec fn language_line(i: nat, l: models::LanguageView) -> Seq<char> {
    "  "@ + three_wide(text::decimal(i)) + ") "@ + l.name + " ("@ + l.id + ")"@
        + match l.friendly_filename {
        Some(f) => if f.len() == 0 {
            Seq::empty()
        } else {
            " — "@ + f
        },
        None => Seq::empty(),
    }
}

/// The line for the `i`-th of the languages that are listed.
pub fn line_of_language(i: usize, l: &Language) -> (r: String)
    ensures
        r@ == language_line(i as nat, l@),
{
    let digits = text::decimal_text(i as u128);
    let chars = text::chars_of(digits.as_str());
    let mut r = "  ".to_owned();
    if chars.len() == 1 {
        r.append("  ");
    } else if chars.len() == 2 {
        r.append(" ");
    }
    r.append(digits.as_str());
    r.append(") ");
    r.append(l.name.as_str());
    r.append(" (");
    r.append(l.id.as_str());
    r.append(")");
    match &l.friendly_filename {
        Some(f) => {
            if !f.as_str().is_empty() {
                r.append(" — ");
                r.append(f.as_str());
            }
        },
        None => {},
    }
    assert(r@ =~= language_line(i as nat, l@));
    r
}

/// A language as the JSON list has it: an object with its name, its code and its file name, which
/// is null where there is none.
pub open spec fn language_object(l: models::LanguageView) -> Seq<(Seq<char>, Option<Seq<char>>)> {
    seq![("name"@, Some(l.name)), ("code"@, Some(l.id)), ("filename"@, l.friendly_filename)]
}

/// The members of an object.
pub open spec fn member_views(v: Seq<(String, Option<String>)>) -> Seq<
    (Seq<char>, Option<Seq<char>>),
> {
    v.map_values(|x: (String, Option<String>)| (x.0@, text::opt_text(x.1)))
}

/// The objects of a list.
pub open spec fn object_views(v: Seq<Vec<(String, Option<String>)>>) -> Seq<
    Seq<(Seq<char>, Option<Seq<char>>)>,
> {
    v.map_values(|x: Vec<(String, Option<String>)>| member_views(x@))
}

/// A JSON list of objects with these members, written with indentation.
pub uninterp spec fn pretty_json(rows: Seq<Seq<(Seq<char>, Option<Seq<char>>)>>) -> Seq<char>;

/// `serde_json::to_string_pretty`, of an array of objects with these members, strings or null: a
/// function of the members, named `pretty_json`.
#[verifier::external_body]
fn write_pretty_json(rows: &Vec<Vec<(String, Option<String>)>>) -> (r: String)
    ensures
        r@ == pretty_json(object_views(rows@)),
{
    let member = |(k, v): &(String, Option<String>)| (k.clone(), serde_json::Value::from(v.clone()));
    let object = |o: &Vec<(String, Option<String>)>| -> serde_json::Map<String, serde_json::Value> {
        o.iter().map(member).collect()
    };
    serde_json::to_string_pretty(&rows.iter().map(object).collect::<Vec<_>>()).unwrap()
}

/// The members of the object for a language.
fn members_of_language(l: &Language) -> (r: Vec<(String, Option<String>)>)
    ensures
        member_views(r@) == language_object(l@),
{
    let mut r: Vec<(String, Option<String>)> = Vec::new();
    r.push(("name".to_owned(), Some(l.name.clone())));
    r.push(("code".to_owned(), Some(l.id.clone())));
    r.push(("filename".to_owned(), text::clone_opt(&l.friendly_filename)));
    assert(member_views(r@) =~= language_object(l@));
    r
}

/// The objects of the JSON list of languages.
pub fn language_rows(languages: &Vec<Language>) -> (r: Vec<Vec<(String, Option<String>)>>)
    ensures
        object_views(r@) == models::language_views(languages@).map_values(
            |l: models::LanguageView| language_object(l),
        ),
{
    let n: usize = languages.len();
    let ghost goal = models::language_views(languages@).map_values(
        |l: models::LanguageView| language_object(l),
    );
    let mut r: Vec<Vec<(String, Option<String>)>> = Vec::new();
    let mut i: usize = 0;
    while i < n
        invariant
            i <= n,
            n == languages@.len(),
            goal == models::language_views(languages@).map_values(
                |l: models::LanguageView| language_object(l),
            ),
            r@.len() == i,
            forall|k: int| 0 <= k < i ==> member_views((#[trigger] r@[k])@) == goal[k],
        decreases n - i,
    {
        let l = &languages[i];
        assert(models::language_views(languages@)[i as int] == l@);
        r.push(members_of_language(l));
        i += 1;
    }
    assert(object_views(r@) =~= goal);
    r
}

/// The languages as a JSON list.
pub fn languages_json(languages: &Vec<Language>) -> (r: String)
    ensures
        r@ == pretty_json(
            models::language_views(languages@).map_values(
                |l: models::LanguageView| language_object(l),
            ),
        ),
{
    let rows = language_rows(languages);
    write_pretty_json(&rows)
}

// ---------------------------------------------------------------------------
// Failures
// ---------------------------------------------------------------------------
/// How a language is named in a list of available ones.
pub open spec fn language_label(l: models::LanguageView) -> Seq<char> {
    l.name + " ("@ + l.id + ")"@
}

/// The names of the first ten languages.
pub open spec fn first_labels(l: Seq<models::LanguageView>) -> Seq<Seq<char>> {
    l.take(
        if l.len() < 10 {
            l.len() as int
        } else {
            10
        },
    ).map_values(|x: models::LanguageView| language_label(x))
}

/// What is said of a language that is asked for and not there.
pub open spec fn not_found_words(
    l: Seq<models::LanguageView>,
    asked: Option<Seq<char>>,
) -> Seq<char> {
    "Language '"@ + match asked {
        Some(s) => s,
        None => Seq::empty(),
    } + "' not found. Available: "@ + text::joined(first_labels(l), ", "@) + "..."@
}

/// The error for a language that is asked for and not there.
pub fn language_not_found(languages: &Vec<Language>, asked: Option<&str>) -> (r: Error)
    ensures
        r@ == error::ErrorView::Other(
            not_found_words(models::language_views(languages@), text::opt_str(asked)),
        ),
{
    let n: usize = if languages.len() < 10 {
        languages.len()
    } else {
        10
    };
    let ghost goal = first_labels(models::language_views(languages@));
    let mut labels: Vec<String> = Vec::new();
    let mut i: usize = 0;
    while i < n
        invariant
            i <= n,
            n <= languages@.len(),
            n == goal.len(),
            goal == first_labels(models::language_views(languages@)),
            labels@.len() == i,
            forall|k: int| 0 <= k < i ==> (#[trigger] labels@[k])@ == goal[k],
        decreases n - i,
    {
        let l = &languages[i];
        assert(models::language_views(languages@)[i as int] == l@);
        let mut label = text::concat3(l.name.as_str(), " (", l.id.as_str());
        label.append(")");
        labels.push(label);
        i += 1;
    }
    assert(text::texts(labels@) =~= goal);
    let list = text::join(&labels, ", ");
    let mut message = "Language '".to_owned();
    match asked {
        Some(s) => {
            message.append(s);
        },
        None => {
            assert(message@ + Seq::<char>::empty() =~= message@);
        },
    }
    message.append("' not found. Available: ");
    message.append(list.as_str());
    message.append("...");
    Error::Other(message)
}

} // verus!
