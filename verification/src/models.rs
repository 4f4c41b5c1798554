//! The persisted user-script record.
use vstd::prelude::*;

verus! {

/// A user script as the host stores it: the metadata parsed from its
/// `==UserScript==` header, its code, and whether it is enabled.
#[derive(Debug, Clone)]
pub struct ScriptModel {
    pub id: String,
    pub name: String,
    pub namespace: String,
    pub version: String,
    pub homepage: String,
    pub icon: String,
    pub update_url: String,
    pub matches: Vec<String>,
    pub includes: Vec<String>,
    pub excludes: Vec<String>,
    pub run_at: String,
    pub requires: Vec<String>,
    pub grants: Vec<String>,
    pub code: String,
    pub enabled: bool,
}

/// The mathematical value of a [`ScriptModel`].
pub struct ScriptSpec {
    pub id: Seq<char>,
    pub name: Seq<char>,
    pub namespace: Seq<char>,
    pub version: Seq<char>,
    pub homepage: Seq<char>,
    pub icon: Seq<char>,
    pub update_url: Seq<char>,
    pub matches: Seq<Seq<char>>,
    pub includes: Seq<Seq<char>>,
    pub excludes: Seq<Seq<char>>,
    pub run_at: Seq<char>,
    pub requires: Seq<Seq<char>>,
    pub grants: Seq<Seq<char>>,
    pub code: Seq<char>,
    pub enabled: bool,
}

/// The character sequences held by a list of strings.
pub open spec fn strings_view(v: Seq<String>) -> Seq<Seq<char>> {
    v.map_values(|s: String| s@)
}

impl View for ScriptModel {
    type V = ScriptSpec;

    open spec fn view(&self) -> ScriptSpec {
        ScriptSpec {
            id: self.id@,
            name: self.name@,
            namespace: self.namespace@,
            version: self.version@,
            homepage: self.homepage@,
            icon: self.icon@,
            update_url: self.update_url@,
            matches: strings_view(self.matches@),
            includes: strings_view(self.includes@),
            excludes: strings_view(self.excludes@),
            run_at: self.run_at@,
            requires: strings_view(self.requires@),
            grants: strings_view(self.grants@),
            code: self.code@,
            enabled: self.enabled,
        }
    }
}

/// Name given to a script whose header names none.
pub open spec fn default_name() -> Seq<char> {
    "未命名脚本"@
}

/// Version given to a script whose header gives none.
pub open spec fn default_version() -> Seq<char> {
    "1.0"@
}

/// Run-at stage of a script whose header gives none.
pub open spec fn document_end() -> Seq<char> {
    "document-end"@
}

/// The value of `ScriptModel::default()`.
pub open spec fn default_script() -> ScriptSpec {
    ScriptSpec {
        id: Seq::empty(),
        name: default_name(),
        namespace: Seq::empty(),
        version: default_version(),
        homepage: Seq::empty(),
        icon: Seq::empty(),
        update_url: Seq::empty(),
        matches: Seq::empty(),
        includes: Seq::empty(),
        excludes: Seq::empty(),
        run_at: document_end(),
        requires: Seq::empty(),
        grants: Seq::empty(),
        code: Seq::empty(),
        enabled: true,
    }
}

impl Default for ScriptModel {
    fn default() -> (r: Self)
        ensures
            r@ == default_script(),
    {
        let r = ScriptModel {
            id: String::new(),
            name: String::from_str("未命名脚本"),
            namespace: String::new(),
            version: String::from_str("1.0"),
            homepage: String::new(),
            icon: String::new(),
            update_url: String::new(),
            matches: Vec::new(),
            includes: Vec::new(),
            excludes: Vec::new(),
            run_at: String::from_str("document-end"),
            requires: Vec::new(),
            grants: Vec::new(),
            code: String::new(),
            enabled: true,
        };
        assert(strings_view(r.matches@) =~= Seq::<Seq<char>>::empty());
        r
    }
}

/// A copy of a list of strings.
pub fn copy_strings(v: &Vec<String>) -> (r: Vec<String>)
    ensures
        r@ == v@,
{
    let mut out: Vec<String> = Vec::new();
    let mut i: usize = 0;
    while i < v.len()
        invariant
            i <= v@.len(),
            out@ =~= v@.subrange(0, i as int),
        decreases v.len() - i,
    {
        out.push(v[i].clone());
        i = i + 1;
    }
    assert(out@ =~= v@);
    out
}

impl ScriptModel {
    /// A field-for-field copy of the script.
    pub fn duplicate(&self) -> (r: ScriptModel)
        ensures
            r@ == self@,
    {
        ScriptModel {
            id: self.id.clone(),
            name: self.name.clone(),
            namespace: self.namespace.clone(),
            version: self.version.clone(),
            homepage: self.homepage.clone(),
            icon: self.icon.clone(),
            update_url: self.update_url.clone(),
            matches: copy_strings(&self.matches),
            includes: copy_strings(&self.includes),
            excludes: copy_strings(&self.excludes),
            run_at: self.run_at.clone(),
            requires: copy_strings(&self.requires),
            grants: copy_strings(&self.grants),
            code: self.code.clone(),
            enabled: self.enabled,
        }
    }
}

} // verus!
