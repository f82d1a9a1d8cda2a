//! Location suggestions from the listings service, and the choice among them.
use vstd::prelude::*;

verus! {

/// One suggested location for a place name, with how many listings it has.
#[allow(non_snake_case)]
pub struct Suggestion {
    pub name: String,
    pub locationId: Option<String>,
    pub total: u32,
}

/// The suggestions returned for one place name.
pub struct SuggestionsResponse {
    pub locations: Vec<Suggestion>,
}

/// A place whose listings can be fetched.
#[allow(non_snake_case)]
pub struct Location {
    pub locationId: String,
    pub name: String,
}

/// Position `i` has the most listings, and no later suggestion has as many:
/// the last of the largest.
pub open spec fn is_last_largest(s: Seq<Suggestion>, i: int) -> bool {
    &&& 0 <= i < s.len()
    &&& forall|j: int| 0 <= j < s.len() ==> (#[trigger] s[j]).total <= s[i].total
    &&& forall|j: int| i < j < s.len() ==> (#[trigger] s[j]).total < s[i].total
}

/// The suggestion with the most listings, the last one among equals; `None`
/// when there are no suggestions.
pub fn best_match(resp: &SuggestionsResponse) -> (r: Option<usize>)
    ensures
        r is None <==> resp.locations@.len() == 0,
        r matches Some(i) ==> is_last_largest(resp.locations@, i as int),
{
    let s = &resp.locations;
    if s.len() == 0 {
        return None;
    }
    let mut best: usize = 0;
    let mut i: usize = 1;
    while i < s.len()
        invariant
            s == &resp.locations,
            best < i <= s@.len(),
            forall|j: int| 0 <= j < i ==> (#[trigger] s@[j]).total <= s@[best as int].total,
            forall|j: int| best < j < i ==> (#[trigger] s@[j]).total < s@[best as int].total,
        decreases s@.len() - i,
    {
        if s[i].total >= s[best].total {
            best = i;
        }
        i = i + 1;
    }
    Some(best)
}

/// The location id of the best match, when there is one and it has an id.
pub fn best_location_id(resp: &SuggestionsResponse) -> (r: Option<String>)
    ensures
        match r {
            Some(id) => exists|i: int|
                is_last_largest(resp.locations@, i) && resp.locations@[i].locationId is Some
                    && resp.locations@[i].locationId->Some_0@ == id@,
            None => resp.locations@.len() == 0 || forall|i: int|
                is_last_largest(resp.locations@, i) ==> resp.locations@[i].locationId is None,
        },
{
    match best_match(resp) {
        None => None,
        Some(i) => {
            proof {
                assert forall|j: int| is_last_largest(resp.locations@, j) implies j == i by {
                    if j < i {
                        assert(resp.locations@[i as int].total < resp.locations@[j].total);
                    } else if i < j {
                        assert(resp.locations@[j].total < resp.locations@[i as int].total);
                    }
                }
            }
            match &resp.locations[i].locationId {
                Some(id) => Some(id.clone()),
                None => None,
            }
        },
    }
}

} // verus!
