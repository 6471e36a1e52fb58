use vstd::prelude::*;
use vstd::string::*;
use crate::decimal::{
    append_decimal, decimal, from_decimal, is_digit, lemma_decimal_injective,
    lemma_decimal_is_numeral, lemma_parse_decimal, lemma_parse_is_decimal,
};
use crate::text::{ends_with, has_suffix};

verus! {

/// Where a record is stored. The sequence number says when it was written;
/// the nonce keeps records apart that were written at the same moment. The
/// process id is no part of it: the system hands the same id out again.
#[derive(Clone, Copy, Debug, PartialEq, Eq, Structural)]
pub struct Location {
    pub sequence: u64,
    pub nonce: u64,
}

/// The ending of the name of a stored record.
pub open spec fn extension() -> Seq<char> {
    seq!['.', 'j', 's', 'o', 'n']
}

/// The name under which the record at a location is stored.
pub open spec fn name_of(location: Location) -> Seq<char> {
    decimal(location.sequence as nat) + seq!['-'] + decimal(location.nonce as nat) + extension()
}

/// The location that a name stands for, where it is the name of one.
pub open spec fn located(name: Seq<char>) -> Option<Location> {
    if exists|location: Location| name_of(location) == name {
        Some(choose|location: Location| name_of(location) == name)
    } else {
        None
    }
}

/// The first location was written before the second: it has the lower
/// sequence number or, with the same one, the lower nonce.
pub open spec fn precedes(a: Location, b: Location) -> bool {
    a.sequence < b.sequence || (a.sequence == b.sequence && a.nonce < b.nonce)
}

/// The parts of a name: the two numerals, the dash between them, the ending.
pub proof fn lemma_name_shape(location: Location)
    ensures
        ({
            let name = name_of(location);
            let first = decimal(location.sequence as nat);
            let second = decimal(location.nonce as nat);
            &&& name.len() == first.len() + 1 + second.len() + 5
            &&& has_suffix(name, extension())
            &&& name.subrange(0, first.len() as int) == first
            &&& name[first.len() as int] == '-'
            &&& forall|i: int| 0 <= i < first.len() ==> name[i] != '-'
            &&& name.subrange(first.len() as int + 1, name.len() - 5) == second
        }),
{
    let name = name_of(location);
    let first = decimal(location.sequence as nat);
    lemma_decimal_is_numeral(location.sequence as nat);
    assert(name.subrange(name.len() - 5, name.len() as int) =~= extension());
    assert forall|i: int| 0 <= i < first.len() implies name[i] != '-' by {
        assert(is_digit(first[i]));
    }
}

/// Different locations have different names.
pub proof fn lemma_name_injective(a: Location, b: Location)
    requires
        name_of(a) == name_of(b),
    ensures
        a == b,
{
    lemma_name_shape(a);
    lemma_name_shape(b);
    // The first dash of the name ends the first numeral of either location.
    assert(decimal(a.sequence as nat).len() == decimal(b.sequence as nat).len());
    lemma_decimal_injective(a.sequence as nat, b.sequence as nat);
    lemma_decimal_injective(a.nonce as nat, b.nonce as nat);
}

/// A name stands for the location that it is the name of.
pub proof fn lemma_located_name(location: Location)
    ensures
        located(name_of(location)) == Some(location),
{
    let found = choose|other: Location| name_of(other) == name_of(location);
    lemma_name_injective(found, location);
}

impl Location {
    /// The name under which the record at this location is stored.
    pub fn name(&self) -> (r: String)
        ensures
            r@ == name_of(*self),
    {
        let mut r = String::new();
        append_decimal(&mut r, self.sequence);
        r.append("-");
        append_decimal(&mut r, self.nonce);
        r.append(".json");
        proof {
            reveal_strlit("-");
            reveal_strlit(".json");
        }
        r
    }

    /// Reads the name of a stored record. There is a location exactly where
    /// the text is the name of one.
    pub fn parse(name: &str) -> (r: Option<Location>)
        ensures
            r == located(name@),
    {
        proof {
            reveal_strlit(".json");
            assert(".json"@ =~= extension());
        }
        if !ends_with(name, ".json") {
            proof {
                assert forall|location: Location| name_of(location) != name@ by {
                    lemma_name_shape(location);
                }
            }
            return None;
        }
        let n: usize = name.unicode_len();
        let stem: usize = n - 5;
        let mut dash: usize = 0;
        while dash < stem && name.get_char(dash) != '-'
            invariant
                dash <= stem,
                stem + 5 == n,
                n == name@.len(),
                forall|i: int| 0 <= i < dash ==> name@[i] != '-',
            decreases stem - dash,
        {
            dash += 1;
        }
        if dash == stem {
            proof {
                assert forall|location: Location| name_of(location) != name@ by {
                    lemma_name_shape(location);
                }
            }
            return None;
        }
        let first = from_decimal(name.substring_char(0, dash));
        let second = from_decimal(name.substring_char(dash + 1, stem));
        proof {
            assert forall|location: Location| name_of(location) == name@ implies first == Some(
                location.sequence,
            ) && second == Some(location.nonce) by {
                lemma_name_shape(location);
                assert(decimal(location.sequence as nat).len() == dash);
                lemma_parse_decimal(location.sequence);
                lemma_parse_decimal(location.nonce);
            }
        }
        match (first, second) {
            (Some(sequence), Some(nonce)) => {
                let location = Location { sequence, nonce };
                proof {
                    lemma_parse_is_decimal(name@.subrange(0, dash as int));
                    lemma_parse_is_decimal(name@.subrange(dash + 1, stem as int));
                    assert(name_of(location) =~= name@);
                    lemma_located_name(location);
                }
                Some(location)
            },
            _ => None,
        }
    }

    /// Whether this location was written before the other.
    pub fn before(&self, other: &Location) -> (r: bool)
        ensures
            r == precedes(*self, *other),
    {
        self.sequence < other.sequence || (self.sequence == other.sequence && self.nonce
            < other.nonce)
    }
}

/// In the order of writing, the location at `i` comes before the one at
/// `j`: it was written before, or both are the same and `i` is the lower index.
pub open spec fn comes_before(locations: Seq<Location>, i: int, j: int) -> bool {
    precedes(locations[i], locations[j]) || (locations[i] == locations[j] && i < j)
}

/// `order` lists the first `n` indices, each once, in the order of writing.
pub open spec fn arranges(locations: Seq<Location>, order: Seq<usize>, n: nat) -> bool {
    &&& order.len() == n
    &&& forall|k: int| 0 <= k < order.len() ==> #[trigger] order[k] < n
    &&& forall|a: int, b: int|
        0 <= a < b < order.len() ==> comes_before(
            locations,
            #[trigger] order[a] as int,
            #[trigger] order[b] as int,
        )
    &&& forall|i: int| 0 <= i < n ==> #[trigger] order.contains(i as usize)
}

/// `order` lists the indices of the locations, each once, in the order of writing.
pub open spec fn is_arrangement(locations: Seq<Location>, order: Seq<usize>) -> bool {
    arranges(locations, order, locations.len())
}

/// The indices of the locations in the order of writing.
pub open spec fn arrangement(locations: Seq<Location>) -> Seq<usize> {
    choose|order: Seq<usize>| is_arrangement(locations, order)
}

/// Putting the next index where it belongs keeps the order of writing. It
/// belongs behind every index that does not come after it.
pub proof fn lemma_arranges_insert(locations: Seq<Location>, order: Seq<usize>, n: nat, slot: int)
    requires
        arranges(locations, order, n),
        n < locations.len(),
        n <= usize::MAX,
        0 <= slot <= n,
        forall|k: int| slot <= k < n ==> precedes(locations[n as int], locations[order[k] as int]),
        slot > 0 ==> !precedes(locations[n as int], locations[order[slot - 1] as int]),
    ensures
        arranges(locations, order.insert(slot, n as usize), n + 1),
{
    let now = order.insert(slot, n as usize);
    assert forall|k: int| 0 <= k < now.len() implies #[trigger] now[k] < n + 1 && now[k] == (if k
        < slot {
        order[k]
    } else if k == slot {
        n as usize
    } else {
        order[k - 1]
    }) by {}
    assert forall|a: int, b: int| 0 <= a < b < now.len() implies comes_before(
        locations,
        #[trigger] now[a] as int,
        #[trigger] now[b] as int,
    ) by {
        // An index before the slot comes before the one right before the
        // slot, and that one does not come after the new index.
        if b == slot && a < slot - 1 {
            assert(comes_before(locations, order[a] as int, order[slot - 1] as int));
        }
    }
    assert forall|i: int| 0 <= i < n + 1 implies #[trigger] now.contains(i as usize) by {
        if i < n {
            assert(order.contains(i as usize));
            let k = choose|k: int| 0 <= k < order.len() && order[k] == i as usize;
            if k < slot {
                assert(now[k] == i as usize);
            } else {
                assert(now[k + 1] == i as usize);
            }
        } else {
            assert(now[slot] == i as usize);
        }
    }
}

/// Two listings of the same indices in the order of writing are the same up
/// to any place.
proof fn lemma_arranges_agree(
    locations: Seq<Location>,
    first: Seq<usize>,
    second: Seq<usize>,
    n: nat,
    k: int,
)
    requires
        arranges(locations, first, n),
        arranges(locations, second, n),
        0 <= k <= n,
    ensures
        forall|j: int| 0 <= j < k ==> first[j] == second[j],
    decreases k,
{
    if k > 0 {
        lemma_arranges_agree(locations, first, second, n, k - 1);
        // Neither index at this place can stand earlier in the other
        // listing, and they cannot both stand later.
        assert(second.contains(first[k - 1] as int as usize));
        assert(first.contains(second[k - 1] as int as usize));
    }
}

/// There is one way only to list the indices in the order of writing.
pub proof fn lemma_arrangement_unique(
    locations: Seq<Location>,
    first: Seq<usize>,
    second: Seq<usize>,
)
    requires
        is_arrangement(locations, first),
        is_arrangement(locations, second),
    ensures
        first == second,
{
    lemma_arranges_agree(locations, first, second, locations.len(), locations.len() as int);
}

/// Where the next index belongs: behind every listed index that does not
/// come after it.
proof fn lemma_slot(locations: Seq<Location>, order: Seq<usize>, n: nat, from: int) -> (slot: int)
    requires
        arranges(locations, order, n),
        n < locations.len(),
        0 <= from <= n,
        forall|k: int| from <= k < n ==> precedes(locations[n as int], locations[order[k] as int]),
    ensures
        0 <= slot <= n,
        forall|k: int| slot <= k < n ==> precedes(locations[n as int], locations[order[k] as int]),
        slot > 0 ==> !precedes(locations[n as int], locations[order[slot - 1] as int]),
    decreases from,
{
    if from > 0 && precedes(locations[n as int], locations[order[from - 1] as int]) {
        lemma_slot(locations, order, n, from - 1)
    } else {
        from
    }
}

/// The first `n` indices can be listed in the order of writing.
proof fn lemma_arranges_exists(locations: Seq<Location>, n: nat) -> (order: Seq<usize>)
    requires
        n <= locations.len(),
        n <= usize::MAX + 1,
    ensures
        arranges(locations, order, n),
    decreases n,
{
    if n == 0 {
        Seq::empty()
    } else {
        let before = lemma_arranges_exists(locations, (n - 1) as nat);
        let slot = lemma_slot(locations, before, (n - 1) as nat, n - 1);
        lemma_arranges_insert(locations, before, (n - 1) as nat, slot);
        before.insert(slot, (n - 1) as usize)
    }
}

/// The indices of any locations that a vector can hold have an order of
/// writing, and `arrangement` is it.
pub proof fn lemma_arrangement(locations: Seq<Location>)
    requires
        locations.len() <= usize::MAX,
    ensures
        is_arrangement(locations, arrangement(locations)),
{
    let order = lemma_arranges_exists(locations, locations.len());
    assert(is_arrangement(locations, order));
}

/// Lists the indices of the locations in the order of writing: by sequence
/// number, then by nonce, and equal locations in the order given.
pub fn arrange(locations: &Vec<Location>) -> (r: Vec<usize>)
    ensures
        r@ == arrangement(locations@),
        is_arrangement(locations@, r@),
{
    let n: usize = locations.len();
    let mut order: Vec<usize> = Vec::new();
    let mut i: usize = 0;
    while i < n
        invariant
            i <= n,
            n == locations.len(),
            arranges(locations@, order@, i as nat),
        decreases n - i,
    {
        let mut slot: usize = i;
        while slot > 0 && locations[i].before(&locations[order[slot - 1]])
            invariant
                slot <= i < n,
                n == locations.len(),
                arranges(locations@, order@, i as nat),
                forall|k: int|
                    slot <= k < i ==> precedes(locations@[i as int], locations@[order@[k] as int]),
            decreases slot,
        {
            slot -= 1;
        }
        proof {
            lemma_arranges_insert(locations@, order@, i as nat, slot as int);
        }
        order.insert(slot, i);
        i += 1;
    }
    proof {
        lemma_arrangement(locations@);
        lemma_arrangement_unique(locations@, order@, arrangement(locations@));
    }
    order
}

} // verus!
