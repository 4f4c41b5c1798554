//! The rules of the script store: how a script is laid out in a table row
//! and read back, which stored script a new one replaces, how a fresh id
//! is made, and which scripts run on a page.
use vstd::prelude::*;
use crate::json::{json_array, json_list_of, json_of_strings, parse_json_strings};
use crate::matcher::{is_url_matched, url_matched};
use crate::models::{ScriptModel, ScriptSpec, copy_strings, strings_view};
use crate::text::{chars_of, decimal, push_decimal, string_of};

verus! {

/// The columns of one row of the `scripts` table. List fields are held as
/// JSON text; `enabled` as the integer the column holds.
pub struct ScriptRow {
    pub id: String,
    pub name: String,
    pub namespace: String,
    pub version: String,
    pub homepage: String,
    pub icon: String,
    pub update_url: String,
    pub matches: String,
    pub includes: String,
    pub excludes: String,
    pub run_at: String,
    pub requires: String,
    pub grants: String,
    pub code: String,
    pub enabled: i32,
}

/// The list held by a JSON column: the parsed list, or an empty one when
/// the text is not a JSON list of strings.
pub open spec fn column_list(text: Seq<char>) -> Seq<Seq<char>> {
    match json_list_of(text) {
        Some(v) => v,
        None => Seq::empty(),
    }
}

/// The row that stores script `s`.
pub open spec fn row_of(s: ScriptSpec) -> (Seq<Seq<char>>, Seq<Seq<char>>, int) {
    (
        seq![s.id, s.name, s.namespace, s.version, s.homepage, s.icon, s.update_url, s.run_at, s.code],
        seq![json_array(s.matches), json_array(s.includes), json_array(s.excludes), json_array(s.requires), json_array(s.grants)],
        if s.enabled { 1 } else { 0 },
    )
}

/// The text columns and JSON columns of a row, and its flag.
pub open spec fn row_view(r: ScriptRow) -> (Seq<Seq<char>>, Seq<Seq<char>>, int) {
    (
        seq![r.id@, r.name@, r.namespace@, r.version@, r.homepage@, r.icon@, r.update_url@, r.run_at@, r.code@],
        seq![r.matches@, r.includes@, r.excludes@, r.requires@, r.grants@],
        r.enabled as int,
    )
}

/// The script that a row holds.
pub open spec fn script_of_row(r: ScriptRow) -> ScriptSpec {
    ScriptSpec {
        id: r.id@,
        name: r.name@,
        namespace: r.namespace@,
        version: r.version@,
        homepage: r.homepage@,
        icon: r.icon@,
        update_url: r.update_url@,
        matches: column_list(r.matches@),
        includes: column_list(r.includes@),
        excludes: column_list(r.excludes@),
        run_at: r.run_at@,
        requires: column_list(r.requires@),
        grants: column_list(r.grants@),
        code: r.code@,
        enabled: r.enabled != 0,
    }
}

/// The row that stores a script: lists as compact JSON text, the enabled
/// flag as 1 or 0.
pub fn script_to_row(s: &ScriptModel) -> (r: ScriptRow)
    ensures
        row_view(r) == row_of(s@),
{
    ScriptRow {
        id: s.id.clone(),
        name: s.name.clone(),
        namespace: s.namespace.clone(),
        version: s.version.clone(),
        homepage: s.homepage.clone(),
        icon: s.icon.clone(),
        update_url: s.update_url.clone(),
        matches: json_of_strings(&s.matches),
        includes: json_of_strings(&s.includes),
        excludes: json_of_strings(&s.excludes),
        run_at: s.run_at.clone(),
        requires: json_of_strings(&s.requires),
        grants: json_of_strings(&s.grants),
        code: s.code.clone(),
        enabled: if s.enabled {
            1
        } else {
            0
        },
    }
}

/// The list held by a JSON column; empty when the text is not a list of strings.
fn list_column(text: &String) -> (r: Vec<String>)
    ensures
        strings_view(r@) == column_list(text@),
        forall|items: Seq<Seq<char>>|
            #![trigger json_array(items)]
            text@ == json_array(items) ==> strings_view(r@) == items,
{
    match parse_json_strings(text.as_str()) {
        Some(v) => v,
        None => {
            let v: Vec<String> = Vec::new();
            assert(strings_view(v@) =~= Seq::<Seq<char>>::empty());
            v
        },
    }
}

/// The script that a row holds. A list column whose text is not a JSON
/// list of strings reads as an empty list; any non-zero flag means enabled.
///
/// Reading back a row that `script_to_row` wrote gives the script it was
/// written from.
pub fn script_from_row(r: &ScriptRow) -> (s: ScriptModel)
    ensures
        s@ == script_of_row(*r),
        forall|t: ScriptSpec| #[trigger] row_of(t) == row_view(*r) ==> s@ == t,
{
    let s = ScriptModel {
        id: r.id.clone(),
        name: r.name.clone(),
        namespace: r.namespace.clone(),
        version: r.version.clone(),
        homepage: r.homepage.clone(),
        icon: r.icon.clone(),
        update_url: r.update_url.clone(),
        matches: list_column(&r.matches),
        includes: list_column(&r.includes),
        excludes: list_column(&r.excludes),
        run_at: r.run_at.clone(),
        requires: list_column(&r.requires),
        grants: list_column(&r.grants),
        code: r.code.clone(),
        enabled: r.enabled != 0,
    };
    assert forall|t: ScriptSpec| #[trigger] row_of(t) == row_view(*r) implies s@ == t by {
        let rv = row_view(*r);
        let tv = row_of(t);
        assert(rv.0[0] == tv.0[0]);
        assert(rv.0[1] == tv.0[1]);
        assert(rv.0[2] == tv.0[2]);
        assert(rv.0[3] == tv.0[3]);
        assert(rv.0[4] == tv.0[4]);
        assert(rv.0[5] == tv.0[5]);
        assert(rv.0[6] == tv.0[6]);
        assert(rv.0[7] == tv.0[7]);
        assert(rv.0[8] == tv.0[8]);
        assert(rv.1[0] == tv.1[0]);
        assert(rv.1[1] == tv.1[1]);
        assert(rv.1[2] == tv.1[2]);
        assert(rv.1[3] == tv.1[3]);
        assert(rv.1[4] == tv.1[4]);
    }
    s
}

/// Whether a stored script has the identity (name, and namespace when both
/// sides give one) of a new script.
pub open spec fn same_identity(s: ScriptSpec, name: Seq<char>, namespace: Seq<char>) -> bool {
    if namespace.len() != 0 && s.namespace.len() != 0 {
        s.name == name && s.namespace == namespace
    } else {
        s.name == name
    }
}

/// Index of the first script, at or after `i`, with the given identity.
pub open spec fn identity_index(ss: Seq<ScriptSpec>, name: Seq<char>, namespace: Seq<char>, i: int) -> Option<int>
    decreases ss.len() - i,
{
    if i < 0 || i >= ss.len() {
        None
    } else if same_identity(ss[i], name, namespace) {
        Some(i)
    } else {
        identity_index(ss, name, namespace, i + 1)
    }
}

proof fn lemma_identity_index_bounds(ss: Seq<ScriptSpec>, name: Seq<char>, namespace: Seq<char>, i: int)
    requires
        0 <= i,
    ensures
        identity_index(ss, name, namespace, i) matches Some(k) ==> i <= k < ss.len()
            && same_identity(ss[k], name, namespace),
    decreases ss.len() - i,
{
    if i < ss.len() && !same_identity(ss[i], name, namespace) {
        lemma_identity_index_bounds(ss, name, namespace, i + 1);
    }
}

/// The mathematical value of a list of scripts.
pub open spec fn scripts_view(v: Seq<ScriptModel>) -> Seq<ScriptSpec> {
    v.map_values(|s: ScriptModel| s@)
}

/// The first stored script with the given identity, used to update a script
/// in place instead of installing it twice.
pub fn find_by_identity(scripts: &Vec<ScriptModel>, name: &str, namespace: &str) -> (r: Option<ScriptModel>)
    ensures
        match identity_index(scripts_view(scripts@), name@, namespace@, 0) {
            Some(i) => r matches Some(s) && s@ == scripts@[i]@,
            None => r is None,
        },
{
    let ghost ss = scripts_view(scripts@);
    let n = chars_of(name);
    let ns = chars_of(namespace);
    let mut i: usize = 0;
    while i < scripts.len()
        invariant
            i <= scripts@.len(),
            ss == scripts_view(scripts@),
            n@ == name@,
            ns@ == namespace@,
            identity_index(ss, name@, namespace@, 0) == identity_index(ss, name@, namespace@, i as int),
        decreases scripts.len() - i,
    {
        let s = &scripts[i];
        let sn = chars_of(s.name.as_str());
        let sns = chars_of(s.namespace.as_str());
        let hit = if ns.len() != 0 && sns.len() != 0 {
            crate::text::chars_eq(&sn, &n) && crate::text::chars_eq(&sns, &ns)
        } else {
            crate::text::chars_eq(&sn, &n)
        };
        assert(ss[i as int] == scripts@[i as int]@);
        if hit {
            return Some(s.duplicate());
        }
        i = i + 1;
    }
    None
}

/// Whether a script runs on `url`: it is enabled, no `@exclude` pattern
/// accepts the URL, and some `@match` or `@include` pattern does.
pub open spec fn runs_on(s: ScriptSpec, url: Seq<char>) -> bool {
    &&& s.enabled
    &&& !url_matched(url, s.excludes)
    &&& (url_matched(url, s.matches) || url_matched(url, s.includes))
}

/// The scripts of a list that run on `url`, in order.
pub open spec fn scripts_for(ss: Seq<ScriptSpec>, url: Seq<char>) -> Seq<ScriptSpec>
    decreases ss.len(),
{
    if ss.len() == 0 {
        Seq::empty()
    } else if runs_on(ss.last(), url) {
        scripts_for(ss.drop_last(), url).push(ss.last())
    } else {
        scripts_for(ss.drop_last(), url)
    }
}

/// Whether a script runs on `url`.
pub fn script_runs_on(s: &ScriptModel, url: &str) -> (b: bool)
    ensures
        b == runs_on(s@, url@),
{
    s.enabled && !is_url_matched(url, s.excludes.as_slice()) && (is_url_matched(url, s.matches.as_slice())
        || is_url_matched(url, s.includes.as_slice()))
}

/// The scripts that run on `url`, in the order given.
pub fn find_by_url(scripts: Vec<ScriptModel>, url: &str) -> (r: Vec<ScriptModel>)
    ensures
        scripts_view(r@) == scripts_for(scripts_view(scripts@), url@),
{
    let mut out: Vec<ScriptModel> = Vec::new();
    let mut i: usize = 0;
    while i < scripts.len()
        invariant
            i <= scripts@.len(),
            scripts_view(out@) =~= scripts_for(scripts_view(scripts@).subrange(0, i as int), url@),
        decreases scripts.len() - i,
    {
        let ghost pre = scripts_view(scripts@).subrange(0, i as int);
        let ghost next = scripts_view(scripts@).subrange(0, i + 1);
        proof {
            assert(next.drop_last() =~= pre);
            assert(next.last() == scripts@[i as int]@);
        }
        if script_runs_on(&scripts[i], url) {
            let s = scripts[i].duplicate();
            proof {
                assert(scripts_view(out@.push(s)) =~= scripts_view(out@).push(s@));
            }
            out.push(s);
        }
        i = i + 1;
    }
    assert(scripts_view(scripts@).subrange(0, scripts@.len() as int) =~= scripts_view(scripts@));
    out
}

/// The id a newly installed script gets: `script_` and the install time in
/// milliseconds since the Unix epoch.
pub open spec fn fresh_id(millis: nat) -> Seq<char> {
    "script_"@ + decimal(millis)
}

/// The id for a script installed at the given time.
pub fn new_script_id(millis: u128) -> (r: String)
    ensures
        r@ == fresh_id(millis as nat),
{
    let mut out = chars_of("script_");
    push_decimal(millis, &mut out);
    string_of(&out)
}

/// What installing a script does to the store: the script to add and, when
/// it replaces a stored one, the id of the row to delete first.
pub struct InstallPlan {
    pub script: ScriptModel,
    pub replaces: Option<String>,
}

/// The install result for `parsed` over stored scripts `ss` at time `millis`.
pub open spec fn install_outcome(parsed: ScriptSpec, ss: Seq<ScriptSpec>, millis: nat) -> (ScriptSpec, Option<Seq<char>>) {
    match identity_index(ss, parsed.name, parsed.namespace, 0) {
        Some(i) => (ScriptSpec { id: ss[i].id, enabled: ss[i].enabled, ..parsed }, Some(ss[i].id)),
        None => (ScriptSpec { id: fresh_id(millis), ..parsed }, None),
    }
}

/// Plans the install of a parsed script: a script with the identity of a
/// stored one takes over its id and enabled flag and replaces it; any other
/// gets a fresh id from the install time.
pub fn plan_install(parsed: ScriptModel, installed: &Vec<ScriptModel>, now_millis: u128) -> (r: InstallPlan)
    ensures
        (r.script@, opt_string_view(r.replaces)) == install_outcome(parsed@, scripts_view(installed@), now_millis as nat),
{
    let mut script = parsed;
    let ghost ss = scripts_view(installed@);
    proof {
        lemma_identity_index_bounds(ss, parsed@.name, parsed@.namespace, 0);
    }
    match find_by_identity(installed, script.name.as_str(), script.namespace.as_str()) {
        Some(existing) => {
            proof {
                let i = identity_index(ss, parsed@.name, parsed@.namespace, 0)->0;
                assert(ss[i] == installed@[i]@);
            }
            let old_id = existing.id.clone();
            script.id = existing.id;
            script.enabled = existing.enabled;
            InstallPlan { script, replaces: Some(old_id) }
        },
        None => {
            script.id = new_script_id(now_millis);
            InstallPlan { script, replaces: None }
        },
    }
}

/// The mathematical value of an optional string.
pub open spec fn opt_string_view(o: Option<String>) -> Option<Seq<char>> {
    match o {
        Some(s) => Some(s@),
        None => None,
    }
}


/// A script runs on a page only when it is enabled and no `@exclude`
/// pattern accepts the URL, whatever its `@match` and `@include` patterns
/// say; an enabled script that no `@exclude` pattern accepts runs exactly
/// when a `@match` or an `@include` pattern accepts the URL. The scripts
/// found for a URL are the stored scripts that run there, in their order.
pub proof fn lemma_exclude_vetoes(s: ScriptSpec, url: Seq<char>, ss: Seq<ScriptSpec>)
    ensures
        url_matched(url, s.excludes) ==> !runs_on(s, url),
        !s.enabled ==> !runs_on(s, url),
        s.enabled && !url_matched(url, s.excludes) ==> (runs_on(s, url) == (url_matched(url, s.matches)
            || url_matched(url, s.includes))),
        scripts_for(ss, url) == ss.filter(
            |t: ScriptSpec|
                t.enabled && !url_matched(url, t.excludes) && (url_matched(url, t.matches)
                    || url_matched(url, t.includes)),
        ),
    decreases ss.len(),
{
    reveal(Seq::filter);
    if ss.len() > 0 {
        lemma_exclude_vetoes(s, url, ss.drop_last());
    }
}

/// The stored script found for a name and namespace has that name, and
/// that namespace when both sides give one; it is the first such script,
/// and none is found only when no stored script has that identity.
pub proof fn lemma_identity_found(ss: Seq<ScriptSpec>, name: Seq<char>, namespace: Seq<char>)
    ensures
        identity_index(ss, name, namespace, 0) matches Some(k) ==> 0 <= k < ss.len() && ss[k].name
            == name && (namespace.len() != 0 && ss[k].namespace.len() != 0 ==> ss[k].namespace
            == namespace) && forall|j: int|
            0 <= j < k ==> !(ss[j].name == name && (namespace.len() != 0 && ss[j].namespace.len()
                != 0 ==> ss[j].namespace == namespace)),
        identity_index(ss, name, namespace, 0) is None ==> forall|j: int|
            0 <= j < ss.len() ==> !(ss[j].name == name && (namespace.len() != 0
                && ss[j].namespace.len() != 0 ==> ss[j].namespace == namespace)),
{
    lemma_identity_scan(ss, name, namespace, 0);
}

proof fn lemma_identity_scan(ss: Seq<ScriptSpec>, name: Seq<char>, namespace: Seq<char>, i: int)
    requires
        0 <= i,
    ensures
        identity_index(ss, name, namespace, i) matches Some(k) ==> i <= k < ss.len()
            && same_identity(ss[k], name, namespace) && forall|j: int|
            i <= j < k ==> !same_identity(ss[j], name, namespace),
        identity_index(ss, name, namespace, i) is None ==> forall|j: int|
            i <= j < ss.len() ==> !same_identity(ss[j], name, namespace),
    decreases ss.len() - i,
{
    if i < ss.len() && !same_identity(ss[i], name, namespace) {
        lemma_identity_scan(ss, name, namespace, i + 1);
    }
}

/// Installing a script changes nothing of it but its id and enabled flag.
/// It replaces a stored script only when that script has its name (and its
/// namespace, when both give one), and then takes that script's id and
/// flag; otherwise it keeps its flag and gets the id made from the install
/// time.
pub proof fn lemma_install_replaces_only_its_own(parsed: ScriptSpec, ss: Seq<ScriptSpec>, millis: nat)
    ensures
        ({
            let (script, replaces) = install_outcome(parsed, ss, millis);
            &&& script == (ScriptSpec { id: script.id, enabled: script.enabled, ..parsed })
            &&& replaces matches Some(id) ==> exists|k: int|
                0 <= k < ss.len() && ss[k].id == id && script.id == id && script.enabled
                    == ss[k].enabled && #[trigger] ss[k].name == parsed.name && (parsed.namespace.len()
                    != 0 && ss[k].namespace.len() != 0 ==> ss[k].namespace == parsed.namespace)
            &&& replaces is None ==> script.id == fresh_id(millis) && script.enabled == parsed.enabled
                && forall|k: int| 0 <= k < ss.len() ==> !(#[trigger] ss[k].name == parsed.name && (
                parsed.namespace.len() != 0 && ss[k].namespace.len() != 0 ==> ss[k].namespace
                == parsed.namespace))
        }),
{
    lemma_identity_found(ss, parsed.name, parsed.namespace);
    match identity_index(ss, parsed.name, parsed.namespace, 0) {
        Some(k) => {
            assert(ss[k].name == parsed.name);
        },
        None => {},
    }
}

} // verus!
