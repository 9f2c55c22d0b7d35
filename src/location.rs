//! Locations that prayer times are looked up for, and the search of a
//! location list by part of a city name.
use crate::text::{chars_of, contains_chars, has_substring, lower_of, lowercase};
use vstd::prelude::*;

verus! {

/// A location: its numeric identifier, its city name and its GMT offset.
#[derive(Debug)]
pub struct Location {
    pub id: u32,
    pub city: String,
    pub gmt: String,
}

impl Location {
    /// A copy of this location.
    pub fn duplicate(&self) -> (r: Location)
        ensures
            r == *self,
    {
        Location { id: self.id, city: self.city.clone(), gmt: self.gmt.clone() }
    }
}

/// The city name contains the query, case folded on both sides.
pub open spec fn city_matches(l: Location, query: Seq<char>) -> bool {
    has_substring(lower_of(l.city@), lower_of(query))
}

/// Whether the city name of `l` contains `folded_query`, a query already case
/// folded.
pub fn city_contains(l: &Location, folded_query: &Vec<char>) -> (r: bool)
    ensures
        r == has_substring(lower_of(l.city@), folded_query@),
{
    let city = lowercase(l.city.as_str());
    contains_chars(&chars_of(city.as_str()), folded_query)
}

/// The locations whose city name contains `query`, ignoring case, in the
/// order of the list.
pub fn search_city(locations: &[Location], query: &str) -> (r: Vec<Location>)
    ensures
        r@ == locations@.filter(|l: Location| city_matches(l, query@)),
{
    let q = chars_of(lowercase(query).as_str());
    let ghost pred = |l: Location| city_matches(l, query@);
    let mut r: Vec<Location> = Vec::new();
    let mut i: usize = 0;
    proof {
        reveal(Seq::filter);
    }
    assert(locations@.subrange(0, 0) =~= Seq::<Location>::empty());
    while i < locations.len()
        invariant
            q@ == lower_of(query@),
            i <= locations@.len(),
            r@ == locations@.subrange(0, i as int).filter(pred),
            pred == (|l: Location| city_matches(l, query@)),
        decreases locations.len() - i,
    {
        proof {
            reveal(Seq::filter);
        }
        let ghost pre = locations@.subrange(0, i + 1);
        assert(pre.drop_last() =~= locations@.subrange(0, i as int));
        assert(pre.last() == locations@[i as int]);
        if city_contains(&locations[i], &q) {
            r.push(locations[i].duplicate());
        }
        i += 1;
    }
    assert(locations@.subrange(0, locations@.len() as int) =~= locations@);
    r
}

} // verus!
