//! The radio catalog and the rules of the favorites list.
use vstd::prelude::*;

verus! {

/// One stream of a station.
pub struct RadioStream {
    pub url: String,
    pub format: String,
    pub quality: Option<String>,
}

/// A station of the catalog.
pub struct RadioSource {
    pub id: String,
    pub name: String,
    pub logo: Option<String>,
    pub category: Option<String>,
    pub region: Option<String>,
    pub description: Option<String>,
    pub streams: Vec<RadioStream>,
}

/// The station catalog.
pub struct RadioCatalog {
    pub version: String,
    pub platform: String,
    pub updated_at: String,
    pub sources: Vec<RadioSource>,
}

/// The error text when no catalog has been stored.
pub open spec fn missing_catalog_message() -> Seq<char> {
    "未找到电台目录"@
}

/// The stored catalog, or the error that none has been stored.
pub fn get_radio_catalog(stored: Option<RadioCatalog>) -> (r: Result<RadioCatalog, String>)
    ensures
        match stored {
            Some(c) => r == Ok::<RadioCatalog, String>(c),
            None => r matches Err(e) && e@ == missing_catalog_message(),
        },
{
    match stored {
        Some(catalog) => Ok(catalog),
        None => Err(String::from_str("未找到电台目录")),
    }
}

/// What toggling a favorite does to the favorites table.
#[derive(PartialEq, Eq, Structural, Clone, Copy, Debug)]
pub enum FavoriteChange {
    /// Delete the station's row.
    Remove,
    /// Insert a row for the station, stamped with the current time.
    Insert,
}

/// The change that toggling makes, and whether the station is a favorite afterwards.
pub open spec fn toggle_plan(is_favorite: bool) -> (FavoriteChange, bool) {
    if is_favorite {
        (FavoriteChange::Remove, false)
    } else {
        (FavoriteChange::Insert, true)
    }
}

/// The set of favorite station ids after a change.
pub open spec fn apply_change(favorites: Set<Seq<char>>, id: Seq<char>, change: FavoriteChange) -> Set<Seq<char>> {
    match change {
        FavoriteChange::Remove => favorites.remove(id),
        FavoriteChange::Insert => favorites.insert(id),
    }
}

/// Toggles a station's favorite state: a favorite is removed, any other
/// station is added. Returns the change to make and whether the station is
/// a favorite afterwards.
pub fn toggle_favorite(is_favorite: bool) -> (r: (FavoriteChange, bool))
    ensures
        r == toggle_plan(is_favorite),
{
    if is_favorite {
        (FavoriteChange::Remove, false)
    } else {
        (FavoriteChange::Insert, true)
    }
}

/// Toggling reports the station's state afterwards: it is a favorite
/// exactly when `toggle_favorite` says so.
pub proof fn lemma_toggle_reports_state(favorites: Set<Seq<char>>, id: Seq<char>)
    ensures
        ({
            let (change, now) = toggle_plan(favorites.contains(id));
            apply_change(favorites, id, change).contains(id) == now
        }),
{
}

/// Toggling twice leaves the favorites as they were, and toggling only
/// ever touches the toggled station.
pub proof fn lemma_toggle_twice(favorites: Set<Seq<char>>, id: Seq<char>)
    ensures
        ({
            let (c1, _) = toggle_plan(favorites.contains(id));
            let once = apply_change(favorites, id, c1);
            let (c2, _) = toggle_plan(once.contains(id));
            apply_change(once, id, c2) == favorites
        }),
        ({
            let (c1, _) = toggle_plan(favorites.contains(id));
            forall|other: Seq<char>|
                other != id ==> (apply_change(favorites, id, c1).contains(other)
                    == favorites.contains(other))
        }),
{
    let (c1, _) = toggle_plan(favorites.contains(id));
    let once = apply_change(favorites, id, c1);
    let (c2, _) = toggle_plan(once.contains(id));
    assert(apply_change(once, id, c2) =~= favorites);
}

} // verus!
