//! The timezone catalog and the resolver: from a name as someone typed it to a timezone,
//! or to the catalog's nearest names.

use crate::suggest::{
    distance, edit_distance, ints_of, is_ranking, lemma_ranking_is_short, nearer, rank, ranking,
};
use crate::text::{chars_of, names_of};
use crate::RizzyError;
use chrono_tz::{Tz, TZ_VARIANTS};
use vstd::prelude::*;

verus! {

/// The timezone that the catalog has under `name`, as `Tz::from_str` finds it.
pub uninterp spec fn zone_named(name: Seq<char>) -> Option<Tz>;

/// The name of the timezone at place `index` of the catalog, which is
/// `chrono_tz::TZ_VARIANTS`, as `Tz::name` gives it; `None` from the end of the catalog on.
pub uninterp spec fn catalog_name(index: int) -> Option<Seq<char>>;

/// The name of a timezone, as `Tz::name` gives it.
pub uninterp spec fn zone_name(tz: Tz) -> Seq<char>;

/// How many names the resolver suggests at most.
pub const SUGGESTION_LIMIT: usize = 10;

/// The catalog has `n` entries.
pub open spec fn is_catalog_len(n: int) -> bool {
    &&& 0 <= n
    &&& forall|i: int| 0 <= i < n ==> (#[trigger] catalog_name(i)) is Some
    &&& catalog_name(n) is None
}

/// The number of entries of the catalog.
pub open spec fn catalog_len() -> int {
    choose|n: int| is_catalog_len(n)
}

/// The names of the catalog, in its order.
pub open spec fn catalog_names() -> Seq<Seq<char>> {
    Seq::new(catalog_len() as nat, |i: int| catalog_name(i)->Some_0)
}

/// The catalog has a timezone of the name `name`, letter for letter.
pub open spec fn is_catalog_name(name: Seq<char>) -> bool {
    catalog_names().contains(name)
}

/// Calls `Tz::from_str`, by way of `str::parse`.
///
/// Trusted: the timezone found depends on the name alone. The names that are found are the
/// names of the catalog: the table that the lookup goes through holds each timezone of
/// `TZ_VARIANTS` once, under the name that `Tz::name` gives for it, and compares names
/// letter for letter.
#[verifier::external_body]
pub(crate) fn lookup_zone(name: &str) -> (r: Option<Tz>)
    ensures
        r == zone_named(name@),
        r is Some <==> is_catalog_name(name@),
        r matches Some(tz) ==> zone_name(tz) == name@,
{
    name.parse::<Tz>().ok()
}

/// Reads `chrono_tz::TZ_VARIANTS` at `index` with `slice::get` and calls `Tz::name` on what
/// is there.
///
/// Trusted: the catalog is a constant array, and an index into an array is less than its
/// length, which is a `usize` itself.
#[verifier::external_body]
pub(crate) fn catalog_entry(index: usize) -> (r: Option<String>)
    ensures
        match r {
            Some(name) => catalog_name(index as int) == Some(name@),
            None => catalog_name(index as int) is None,
        },
        r is Some ==> index < usize::MAX,
{
    match TZ_VARIANTS.get(index) {
        Some(tz) => Some(tz.name().to_string()),
        None => None,
    }
}

/// The catalog has one length.
pub proof fn lemma_catalog_len(n: int)
    requires
        is_catalog_len(n),
    ensures
        catalog_len() == n,
{
    let m = catalog_len();
    if m < n {
        assert(catalog_name(m) is Some);
    } else if n < m {
        assert(catalog_name(n) is Some);
    }
}

/// The names of all timezones of the catalog, in its order.
pub fn build_timezone_list() -> (names: Vec<String>)
    ensures
        names_of(names@) == catalog_names(),
{
    let mut names: Vec<String> = Vec::new();
    let mut i: usize = 0;
    let mut done = false;
    while !done
        invariant
            names@.len() == i,
            forall|k: int| 0 <= k < i ==> (#[trigger] catalog_name(k)) == Some(names@[k]@),
            done ==> catalog_name(i as int) is None,
        decreases usize::MAX - i + if done { 0int } else { 1int },
    {
        match catalog_entry(i) {
            Some(name) => {
                names.push(name);
                i = i + 1;
            },
            None => {
                done = true;
            },
        }
    }
    proof {
        lemma_catalog_len(i as int);
        assert(names_of(names@) =~= catalog_names());
    }
    names
}

/// How far each name of `catalog` is from `typo`.
pub open spec fn distances(catalog: Seq<Seq<char>>, typo: Seq<char>) -> Seq<int> {
    Seq::new(catalog.len(), |i: int| edit_distance(catalog[i], typo))
}

/// The places of `catalog` whose names are the suggestions for `typo`, nearest first.
pub open spec fn suggested_places(catalog: Seq<Seq<char>>, typo: Seq<char>) -> Seq<int> {
    ranking(distances(catalog, typo), SUGGESTION_LIMIT as int)
}

/// The suggestions for `typo`: the `SUGGESTION_LIMIT` names of `catalog` that are nearest
/// to `typo` by edit distance, nearest first; of two that are equally near, the one that
/// the catalog lists first. Every name of the catalog is weighed.
pub open spec fn suggestions(catalog: Seq<Seq<char>>, typo: Seq<char>) -> Seq<Seq<char>> {
    let order = suggested_places(catalog, typo);
    Seq::new(order.len(), |k: int| catalog[order[k]])
}

/// The places that `suggestions` follows are a ranking: there is one.
pub open spec fn has_suggestions(catalog: Seq<Seq<char>>, typo: Seq<char>) -> bool {
    is_ranking(distances(catalog, typo), SUGGESTION_LIMIT as int, suggested_places(catalog, typo))
}

/// `list` holds the names of `catalog` that are nearest to `typo`: names of the catalog,
/// ten at most; none is nearer to `typo` than one before it; no name of the catalog that is
/// left out is nearer than one that is listed; and where a name is left out, the list is
/// full.
pub open spec fn are_nearest(
    catalog: Seq<Seq<char>>,
    typo: Seq<char>,
    list: Seq<Seq<char>>,
) -> bool {
    &&& list.len() <= SUGGESTION_LIMIT
    &&& forall|k: int| 0 <= k < list.len() ==> catalog.contains(#[trigger] list[k])
    &&& forall|k: int, l: int|
        0 <= k < l < list.len() ==> edit_distance(#[trigger] list[k], typo) <= edit_distance(
            #[trigger] list[l],
            typo,
        )
    &&& forall|j: int, k: int|
        0 <= j < catalog.len() && !list.contains(catalog[j]) && 0 <= k < list.len()
            ==> edit_distance(#[trigger] list[k], typo) <= edit_distance(
            #[trigger] catalog[j],
            typo,
        )
    &&& forall|j: int|
        0 <= j < catalog.len() && !list.contains(#[trigger] catalog[j]) ==> list.len()
            == SUGGESTION_LIMIT
}

/// The suggestions are the nearest names of the catalog, and no more than the catalog has.
#[verifier::rlimit(60)]
pub proof fn lemma_suggestions_are_nearest(catalog: Seq<Seq<char>>, typo: Seq<char>)
    requires
        has_suggestions(catalog, typo),
    ensures
        are_nearest(catalog, typo, suggestions(catalog, typo)),
        suggestions(catalog, typo).len() <= catalog.len(),
{
    let dist = distances(catalog, typo);
    let order = suggested_places(catalog, typo);
    let list = suggestions(catalog, typo);
    assert forall|j: int| 0 <= j < catalog.len() && !list.contains(catalog[j]) implies
        !order.contains(j) by {
        if order.contains(j) {
            let k = choose|k: int| 0 <= k < order.len() && order[k] == j;
            assert(list[k] == catalog[j]);
        }
    }
    assert forall|k: int| 0 <= k < list.len() implies catalog.contains(#[trigger] list[k]) by {
        assert(catalog[order[k]] == list[k]);
    }
    assert forall|k: int, l: int| 0 <= k < l < list.len() implies edit_distance(
        #[trigger] list[k],
        typo,
    ) <= edit_distance(#[trigger] list[l], typo) by {
        assert(nearer(dist, order[k], order[l]));
    }
    assert forall|j: int, k: int|
        0 <= j < catalog.len() && !list.contains(catalog[j]) && 0 <= k
            < list.len() implies edit_distance(#[trigger] list[k], typo) <= edit_distance(
        #[trigger] catalog[j],
        typo,
    ) by {
        assert(!order.contains(j));
        assert(nearer(dist, order[k], j));
    }
    assert forall|j: int|
        0 <= j < catalog.len() && !list.contains(#[trigger] catalog[j]) implies list.len()
            == SUGGESTION_LIMIT by {
        assert(!order.contains(j));
    }
    lemma_ranking_is_short(dist, SUGGESTION_LIMIT as int, order);
}

/// Picks from `catalog` the names that are nearest to `typo`: ten at most, nearest first,
/// equally near ones in the order of the catalog.
#[verifier::rlimit(60)]
pub fn nearest_names(catalog: &Vec<String>, typo: &str) -> (picked: Vec<String>)
    ensures
        names_of(picked@) == suggestions(names_of(catalog@), typo@),
        has_suggestions(names_of(catalog@), typo@),
        are_nearest(names_of(catalog@), typo@, names_of(picked@)),
{
    let ghost names = names_of(catalog@);
    let typed = chars_of(typo);
    let mut dist: Vec<usize> = Vec::new();
    let mut j: usize = 0;
    while j < catalog.len()
        invariant
            j <= catalog@.len(),
            names == names_of(catalog@),
            typed@ == typo@,
            dist@.len() == j,
            forall|k: int| 0 <= k < j ==> (#[trigger] dist@[k]) == edit_distance(names[k], typo@),
        decreases catalog@.len() - j,
    {
        let name = chars_of(catalog[j].as_str());
        assert(name@ == names[j as int]);
        dist.push(distance(name.as_slice(), typed.as_slice()));
        j = j + 1;
    }
    assert(ints_of(dist@) =~= distances(names, typo@));
    let order = rank(&dist, SUGGESTION_LIMIT);
    let mut picked: Vec<String> = Vec::new();
    let mut k: usize = 0;
    while k < order.len()
        invariant
            k <= order@.len(),
            picked@.len() == k,
            names == names_of(catalog@),
            dist@.len() == catalog@.len(),
            is_ranking(ints_of(dist@), SUGGESTION_LIMIT as int, ints_of(order@)),
            forall|l: int| 0 <= l < k ==> (#[trigger] picked@[l])@ == names[order@[l] as int],
        decreases order@.len() - k,
    {
        assert(0 <= ints_of(order@)[k as int] < dist@.len());
        picked.push(catalog[order[k]].clone());
        k = k + 1;
    }
    assert(names_of(picked@) =~= suggestions(names, typo@));
    proof {
        lemma_suggestions_are_nearest(names, typo@);
    }
    picked
}

/// The suggestions for `time_zone`: the names of the catalog that are nearest to it by
/// edit distance, nearest first, ten at most.
pub fn guess_timezone(time_zone: String) -> (guesses: Vec<String>)
    ensures
        names_of(guesses@) == suggestions(catalog_names(), time_zone@),
        has_suggestions(catalog_names(), time_zone@),
        are_nearest(catalog_names(), time_zone@, names_of(guesses@)),
{
    let catalog = build_timezone_list();
    nearest_names(&catalog, time_zone.as_str())
}

/// `r` is what resolving `name` comes to: the timezone of that name, where the catalog has
/// one of exactly that name; otherwise the failure that carries the name and the
/// suggestions for it.
pub open spec fn is_resolution(name: Seq<char>, r: Result<Tz, RizzyError>) -> bool {
    if is_catalog_name(name) {
        r matches Ok(tz) && zone_named(name) == Some(tz) && zone_name(tz) == name
    } else {
        r matches Err(RizzyError::InvalidTimezone(given, guesses)) && given@ == name && names_of(
            guesses@,
        ) == suggestions(catalog_names(), name) && are_nearest(
            catalog_names(),
            name,
            names_of(guesses@),
        )
    }
}

/// Resolves the name of a timezone against the catalog.
pub fn parse_timezone(time_zone_str: &String) -> (r: Result<Tz, RizzyError>)
    ensures
        is_resolution(time_zone_str@, r),
{
    match lookup_zone(time_zone_str.as_str()) {
        Some(tz) => Ok(tz),
        None => {
            let guesses = guess_timezone(time_zone_str.clone());
            Err(RizzyError::InvalidTimezone(time_zone_str.clone(), guesses))
        },
    }
}

/// The timezones that can be chosen without naming them.
#[derive(Clone, Copy, Debug, PartialEq, Eq, Structural)]
pub enum Preset {
    NewYork,
    Chicago,
}

/// The ways in which the selectors of a timezone can contradict each other.
#[derive(Clone, Copy, Debug, PartialEq, Eq, Structural)]
pub enum Conflict {
    /// More than one preset was chosen.
    SeveralPresets,
    /// A preset was chosen and a timezone named.
    PresetAndName,
}

/// What the selectors of a timezone come to.
#[derive(Debug)]
pub enum ZoneSelection {
    /// A preset, chosen or, where nothing was selected, taken by default.
    Preset(Preset),
    /// A name, which is still to be resolved.
    Named(String),
    /// Nothing: the selectors contradict each other.
    Conflict(Conflict),
}

/// The name that the catalog has for a preset.
pub open spec fn preset_name(preset: Preset) -> Seq<char> {
    match preset {
        Preset::NewYork => "America/New_York"@,
        Preset::Chicago => "America/Chicago"@,
    }
}

/// What the error says of a conflict.
pub open spec fn conflict_message(conflict: Conflict) -> Seq<char> {
    match conflict {
        Conflict::SeveralPresets => "Cannot use more than one timezone override"@,
        Conflict::PresetAndName => "Cannot supply --zone and an override"@,
    }
}

/// The selection that the selectors make: at most one of the presets and the name may be
/// given, and Chicago stands in where none is.
pub open spec fn selection(nyc: bool, chi: bool, zone: Option<String>) -> ZoneSelection {
    if nyc && chi {
        ZoneSelection::Conflict(Conflict::SeveralPresets)
    } else if nyc || chi {
        if zone is Some {
            ZoneSelection::Conflict(Conflict::PresetAndName)
        } else if nyc {
            ZoneSelection::Preset(Preset::NewYork)
        } else {
            ZoneSelection::Preset(Preset::Chicago)
        }
    } else {
        match zone {
            Some(name) => ZoneSelection::Named(name),
            None => ZoneSelection::Preset(Preset::Chicago),
        }
    }
}

/// Weighs the selectors of a timezone against each other: the preset for New York, the
/// preset for Chicago, and a name.
pub fn select_timezone(nyc: bool, chi: bool, zone: &Option<String>) -> (selected: ZoneSelection)
    ensures
        selected == selection(nyc, chi, *zone),
{
    match (nyc, chi, zone) {
        (true, true, _) => ZoneSelection::Conflict(Conflict::SeveralPresets),
        (true, false, None) => ZoneSelection::Preset(Preset::NewYork),
        (false, true, None) => ZoneSelection::Preset(Preset::Chicago),
        (true, false, Some(_)) | (false, true, Some(_)) => ZoneSelection::Conflict(
            Conflict::PresetAndName,
        ),
        (false, false, Some(name)) => ZoneSelection::Named(name.clone()),
        (false, false, None) => ZoneSelection::Preset(Preset::Chicago),
    }
}

/// The timezone that the selectors select: the preset's, resolved like any name, or the
/// named one. Selectors that contradict each other give `InvalidArg`, a name that the
/// catalog lacks `InvalidTimezone` with the suggestions for it.
pub fn get_timezone(nyc: bool, chi: bool, zone: &Option<String>) -> (r: Result<Tz, RizzyError>)
    ensures
        match selection(nyc, chi, *zone) {
            ZoneSelection::Preset(preset) => is_resolution(preset_name(preset), r),
            ZoneSelection::Named(name) => is_resolution(name@, r),
            ZoneSelection::Conflict(conflict) => r matches Err(RizzyError::InvalidArg(message))
                && message@ == conflict_message(conflict),
        },
{
    match select_timezone(nyc, chi, zone) {
        ZoneSelection::Preset(Preset::NewYork) => parse_timezone(&"America/New_York".to_owned()),
        ZoneSelection::Preset(Preset::Chicago) => parse_timezone(&"America/Chicago".to_owned()),
        ZoneSelection::Named(name) => parse_timezone(&name),
        ZoneSelection::Conflict(Conflict::SeveralPresets) => Err(
            RizzyError::InvalidArg("Cannot use more than one timezone override".to_owned()),
        ),
        ZoneSelection::Conflict(Conflict::PresetAndName) => Err(
            RizzyError::InvalidArg("Cannot supply --zone and an override".to_owned()),
        ),
    }
}

} // verus!
