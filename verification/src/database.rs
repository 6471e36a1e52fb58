use vstd::prelude::*;
use crate::classifier::{Classifier, ClassifierView};
use crate::compilation::{Compilation, CompilationView, CompilerPass};
use crate::store::{
    arrange, arrangement, comes_before, is_arrangement, lemma_arrangement, precedes, Location,
};
use crate::trace::{Trace, TraceError};

verus! {

/// What to do with entries that name the same source file in the same directory.
#[derive(Clone, Copy, Debug, PartialEq, Eq, Structural)]
pub enum Duplicates {
    /// The entry of the later record replaces the earlier ones.
    LastWins,
    /// Every entry stays.
    KeepAll,
}

/// Which entries belong in a compilation database.
#[derive(Clone, Copy, Debug, PartialEq, Eq, Structural)]
pub struct Policy {
    pub preprocessing: bool,
    pub compilation: bool,
    pub assembly: bool,
    pub linking: bool,
    pub duplicates: Duplicates,
}

impl Policy {
    /// Whether entries of the given stage are kept.
    pub open spec fn includes(self, phase: CompilerPass) -> bool {
        match phase {
            CompilerPass::Preprocessor => self.preprocessing,
            CompilerPass::Compilation => self.compilation,
            CompilerPass::Assembly => self.assembly,
            CompilerPass::Linking => self.linking,
        }
    }

    /// The usual policy: compile and assemble steps only, the latest entry
    /// for each source file.
    pub open spec fn standard() -> Policy {
        Policy {
            preprocessing: false,
            compilation: true,
            assembly: true,
            linking: false,
            duplicates: Duplicates::LastWins,
        }
    }

    /// The usual policy.
    pub fn new() -> (r: Policy)
        ensures
            r == Policy::standard(),
    {
        Policy {
            preprocessing: false,
            compilation: true,
            assembly: true,
            linking: false,
            duplicates: Duplicates::LastWins,
        }
    }

    /// Whether entries of the given stage are kept.
    pub fn keeps(&self, phase: CompilerPass) -> (r: bool)
        ensures
            r == self.includes(phase),
    {
        match phase {
            CompilerPass::Preprocessor => self.preprocessing,
            CompilerPass::Compilation => self.compilation,
            CompilerPass::Assembly => self.assembly,
            CompilerPass::Linking => self.linking,
        }
    }
}

/// The entries that one stored record adds: those of the compiler run it
/// describes, where the policy keeps that stage. A record that could not be
/// read adds none.
pub open spec fn contribution(
    classifier: ClassifierView,
    policy: Policy,
    record: Result<Trace, TraceError>,
) -> Seq<CompilationView> {
    match record {
        Ok(trace) => match classifier.invocation(trace@) {
            Some(run) => if policy.includes(run.phase) {
                run.entries()
            } else {
                Seq::empty()
            },
            None => Seq::empty(),
        },
        Err(_) => Seq::empty(),
    }
}

/// The entries that the first `n` records add, record after record.
pub open spec fn candidates(
    classifier: ClassifierView,
    policy: Policy,
    records: Seq<Result<Trace, TraceError>>,
    n: nat,
) -> Seq<CompilationView>
    decreases n,
{
    if n == 0 {
        Seq::empty()
    } else {
        candidates(classifier, policy, records, (n - 1) as nat) + contribution(
            classifier,
            policy,
            records[n - 1],
        )
    }
}

/// A later entry has the key of the entry at `i`.
pub open spec fn superseded(entries: Seq<CompilationView>, i: int) -> bool {
    exists|j: int| i < j < entries.len() && (#[trigger] entries[j]).key() == entries[i].key()
}

/// Those of the first `n` entries that no later entry supersedes, in order.
pub open spec fn kept_among(entries: Seq<CompilationView>, n: nat) -> Seq<CompilationView>
    decreases n,
{
    if n == 0 {
        Seq::empty()
    } else {
        let before = kept_among(entries, (n - 1) as nat);
        if superseded(entries, n - 1) {
            before
        } else {
            before.push(entries[n - 1])
        }
    }
}

/// For each key the last entry that has it, in the order of the entries.
pub open spec fn latest_only(entries: Seq<CompilationView>) -> Seq<CompilationView> {
    kept_among(entries, entries.len())
}

/// The compilation database of a sequence of stored records, taken in the
/// order given.
pub open spec fn database(
    classifier: ClassifierView,
    policy: Policy,
    records: Seq<Result<Trace, TraceError>>,
) -> Seq<CompilationView> {
    let all = candidates(classifier, policy, records, records.len());
    match policy.duplicates {
        Duplicates::LastWins => latest_only(all),
        Duplicates::KeepAll => all,
    }
}

/// No two entries have the same key.
pub open spec fn distinct_keys(entries: Seq<CompilationView>) -> bool {
    forall|a: int, b: int|
        0 <= a < b < entries.len() ==> (#[trigger] entries[a]).key() != (#[trigger] entries[b]).key()
}

/// Each entry that is kept is one of the first `n` that nothing supersedes,
/// and each of those is kept.
pub proof fn lemma_kept_among(entries: Seq<CompilationView>, n: nat)
    requires
        n <= entries.len(),
    ensures
        kept_among(entries, n).len() <= n,
        forall|k: int|
            #![trigger kept_among(entries, n)[k]]
            0 <= k < kept_among(entries, n).len() ==> exists|i: int|
                #![trigger entries[i]]
                0 <= i < n && !superseded(entries, i) && entries[i] == kept_among(entries, n)[k],
        forall|i: int|
            0 <= i < n && !superseded(entries, i) ==> kept_among(entries, n).contains(
                #[trigger] entries[i],
            ),
        distinct_keys(kept_among(entries, n)),
    decreases n,
{
    if n > 0 {
        let before = kept_among(entries, (n - 1) as nat);
        let now = kept_among(entries, n);
        lemma_kept_among(entries, (n - 1) as nat);
        if !superseded(entries, n - 1) {
            assert(now[now.len() - 1] == entries[n - 1]);
            assert forall|k: int| #![trigger now[k]] 0 <= k < now.len() implies exists|i: int|
                #![trigger entries[i]]
                0 <= i < n && !superseded(entries, i) && entries[i] == now[k] by {
                if k < before.len() {
                    assert(now[k] == before[k]);
                }
            }
            assert forall|i: int| 0 <= i < n && !superseded(entries, i) implies now.contains(
                #[trigger] entries[i],
            ) by {
                if i < n - 1 {
                    let k = choose|k: int| 0 <= k < before.len() && before[k] == entries[i];
                    assert(now[k] == entries[i]);
                }
            }
            assert forall|a: int, b: int| 0 <= a < b < now.len() implies (#[trigger] now[a]).key()
                != (#[trigger] now[b]).key() by {
                if b == before.len() {
                    assert(now[a] == before[a]);
                }
            }
        }
    }
}

/// In a database that keeps the latest entry, no two entries name the same
/// source file in the same directory.
pub proof fn lemma_latest_only_distinct(entries: Seq<CompilationView>)
    ensures
        distinct_keys(latest_only(entries)),
{
    lemma_kept_among(entries, entries.len());
}

/// The entry at `i` is the last one with its key.
pub open spec fn is_last_of_key(entries: Seq<CompilationView>, i: int) -> bool {
    &&& 0 <= i < entries.len()
    &&& forall|j: int| i < j < entries.len() ==> (#[trigger] entries[j]).key() != entries[i].key()
}

/// Keeping the latest entry keeps, for every key that occurs, the last entry
/// that has it, and nothing else.
pub proof fn lemma_latest_only_last_wins(entries: Seq<CompilationView>)
    ensures
        forall|k: int|
            #![trigger latest_only(entries)[k]]
            0 <= k < latest_only(entries).len() ==> exists|i: int|
                #![trigger entries[i]]
                is_last_of_key(entries, i) && entries[i] == latest_only(entries)[k],
        forall|i: int|
            is_last_of_key(entries, i) ==> latest_only(entries).contains(#[trigger] entries[i]),
        forall|i: int|
            #![trigger entries[i]]
            0 <= i < entries.len() ==> exists|k: int|
                #![trigger latest_only(entries)[k]]
                0 <= k < latest_only(entries).len() && latest_only(entries)[k].key()
                    == entries[i].key(),
{
    lemma_kept_among(entries, entries.len());
    let kept = latest_only(entries);
    assert forall|k: int| #![trigger kept[k]] 0 <= k < kept.len() implies exists|i: int|
        #![trigger entries[i]]
        is_last_of_key(entries, i) && entries[i] == kept[k] by {
        let i = choose|i: int|
            0 <= i < entries.len() && !superseded(entries, i) && #[trigger] entries[i] == kept[k];
        assert(is_last_of_key(entries, i));
    }
    assert forall|i: int| #![trigger entries[i]] 0 <= i < entries.len() implies exists|k: int|
        #![trigger kept[k]]
        0 <= k < kept.len() && kept[k].key() == entries[i].key() by {
        let last = lemma_last_of_key(entries, i);
        assert(kept.contains(entries[last]));
    }
}

/// Every key that occurs has a last entry.
pub proof fn lemma_last_of_key(entries: Seq<CompilationView>, i: int) -> (last: int)
    requires
        0 <= i < entries.len(),
    ensures
        i <= last,
        is_last_of_key(entries, last),
        entries[last].key() == entries[i].key(),
    decreases entries.len() - i,
{
    if superseded(entries, i) {
        let j = choose|j: int|
            i < j < entries.len() && (#[trigger] entries[j]).key() == entries[i].key();
        lemma_last_of_key(entries, j)
    } else {
        i
    }
}

/// Entries with distinct keys all stay when only the latest of each key is kept.
pub proof fn lemma_kept_among_distinct(entries: Seq<CompilationView>, n: nat)
    requires
        n <= entries.len(),
        distinct_keys(entries),
    ensures
        kept_among(entries, n) == entries.subrange(0, n as int),
    decreases n,
{
    if n > 0 {
        lemma_kept_among_distinct(entries, (n - 1) as nat);
    }
}

/// Keeping the latest entries of a database that already holds only the
/// latest changes nothing.
pub proof fn lemma_latest_only_idempotent(entries: Seq<CompilationView>)
    ensures
        latest_only(latest_only(entries)) == latest_only(entries),
{
    lemma_latest_only_distinct(entries);
    lemma_kept_among_distinct(latest_only(entries), latest_only(entries).len());
}

/// Every entry that the records add is of a stage that the policy keeps.
pub proof fn lemma_candidates_respect_policy(
    classifier: ClassifierView,
    policy: Policy,
    records: Seq<Result<Trace, TraceError>>,
    n: nat,
)
    requires
        n <= records.len(),
    ensures
        forall|k: int|
            0 <= k < candidates(classifier, policy, records, n).len() ==> policy.includes(
                (#[trigger] candidates(classifier, policy, records, n)[k]).phase,
            ),
    decreases n,
{
    if n > 0 {
        lemma_candidates_respect_policy(classifier, policy, records, (n - 1) as nat);
    }
}

/// A compilation database holds entries of the stages that the policy keeps
/// and of no other: under the usual policy no preprocessing and no link step.
pub proof fn lemma_database_respects_policy(
    classifier: ClassifierView,
    policy: Policy,
    records: Seq<Result<Trace, TraceError>>,
)
    ensures
        forall|k: int|
            0 <= k < database(classifier, policy, records).len() ==> policy.includes(
                (#[trigger] database(classifier, policy, records)[k]).phase,
            ),
{
    let all = candidates(classifier, policy, records, records.len());
    let db = database(classifier, policy, records);
    lemma_candidates_respect_policy(classifier, policy, records, records.len());
    if policy.duplicates == Duplicates::LastWins {
        lemma_kept_among(all, all.len());
        assert forall|k: int| 0 <= k < db.len() implies policy.includes(
            (#[trigger] db[k]).phase,
        ) by {
            let i = choose|i: int|
                #![trigger all[i]]
                0 <= i < all.len() && !superseded(all, i) && all[i] == db[k];
            assert(policy.includes(all[i].phase));
        }
    }
}

/// Where the later entry wins, a compilation database holds one entry at
/// most for a source file in a directory.
pub proof fn lemma_database_distinct(
    classifier: ClassifierView,
    policy: Policy,
    records: Seq<Result<Trace, TraceError>>,
)
    requires
        policy.duplicates == Duplicates::LastWins,
    ensures
        distinct_keys(database(classifier, policy, records)),
{
    lemma_latest_only_distinct(candidates(classifier, policy, records, records.len()));
}

/// Appends an entry to the list.
fn push_entry(list: &mut Vec<Compilation>, entry: Compilation)
    ensures
        final(list).deep_view() == old(list).deep_view().push(entry@),
{
    list.push(entry);
}

/// Moves the entries of `more` to the end of the list.
fn append_entries(list: &mut Vec<Compilation>, more: Vec<Compilation>)
    ensures
        final(list).deep_view() == old(list).deep_view() + more.deep_view(),
{
    let mut more = more;
    list.append(&mut more);
}

/// Whether a later entry has the key of the entry at `i`.
pub fn is_superseded(entries: &Vec<Compilation>, i: usize) -> (r: bool)
    requires
        i < entries.len(),
    ensures
        r == superseded(entries.deep_view(), i as int),
{
    let mut j: usize = i + 1;
    while j < entries.len()
        invariant
            i < j <= entries.len(),
            forall|k: int|
                i < k < j ==> (#[trigger] entries.deep_view()[k]).key()
                    != entries.deep_view()[i as int].key(),
        decreases entries.len() - j,
    {
        if entries[j].same_key(&entries[i]) {
            assert(entries.deep_view()[j as int].key() == entries.deep_view()[i as int].key());
            return true;
        }
        j += 1;
    }
    false
}

/// For each key the last entry that has it, in the order of the entries.
pub fn keep_latest(entries: &Vec<Compilation>) -> (r: Vec<Compilation>)
    ensures
        r.deep_view() == latest_only(entries.deep_view()),
{
    let mut r: Vec<Compilation> = Vec::new();
    let mut i: usize = 0;
    while i < entries.len()
        invariant
            i <= entries.len(),
            r.deep_view() == kept_among(entries.deep_view(), i as nat),
        decreases entries.len() - i,
    {
        if !is_superseded(entries, i) {
            push_entry(&mut r, entries[i].duplicate());
        }
        i += 1;
    }
    r
}

/// Adds the entries of one stored record to the list.
pub fn contribute(
    classifier: &Classifier,
    policy: &Policy,
    record: &Result<Trace, TraceError>,
    list: &mut Vec<Compilation>,
)
    ensures
        final(list).deep_view() == old(list).deep_view() + contribution(
            classifier@,
            *policy,
            *record,
        ),
{
    match record {
        Ok(trace) => match classifier.invocation(trace) {
            Some(run) => {
                if policy.keeps(run.phase) {
                    append_entries(list, run.entries());
                }
            },
            None => {},
        },
        Err(_) => {},
    }
}

/// The entries that the records add, record after record: those of every
/// readable record that describes a compiler run of a stage that the policy keeps.
pub fn collect(
    classifier: &Classifier,
    policy: &Policy,
    records: &Vec<Result<Trace, TraceError>>,
) -> (r: Vec<Compilation>)
    ensures
        r.deep_view() == candidates(classifier@, *policy, records@, records@.len()),
{
    let mut r: Vec<Compilation> = Vec::new();
    let mut i: usize = 0;
    while i < records.len()
        invariant
            i <= records.len(),
            r.deep_view() == candidates(classifier@, *policy, records@, i as nat),
        decreases records.len() - i,
    {
        contribute(classifier, policy, &records[i], &mut r);
        i += 1;
    }
    r
}

/// Builds the compilation database from the stored records, taken in the
/// order given. A record that could not be read is passed over.
pub fn build(
    classifier: &Classifier,
    policy: &Policy,
    records: &Vec<Result<Trace, TraceError>>,
) -> (r: Vec<Compilation>)
    ensures
        r.deep_view() == database(classifier@, *policy, records@),
{
    let all = collect(classifier, policy, records);
    match policy.duplicates {
        Duplicates::LastWins => keep_latest(&all),
        Duplicates::KeepAll => all,
    }
}

/// A record as the store holds it: what was written, or why it cannot be
/// read, and where.
#[derive(Debug)]
pub struct Stored {
    pub location: Location,
    pub record: Result<Trace, TraceError>,
}

/// The locations of the stored records, in the order given.
pub open spec fn locations_of(stored: Seq<Stored>) -> Seq<Location> {
    Seq::new(stored.len(), |i: int| stored[i].location)
}

/// The stored records in the order `order`.
pub open spec fn arranged(stored: Seq<Stored>, order: Seq<usize>) -> Seq<Result<Trace, TraceError>> {
    Seq::new(order.len(), |k: int| stored[order[k] as int].record)
}

/// The stored records in the order of writing, whatever order the store
/// lists them in.
pub open spec fn in_sequence(stored: Seq<Stored>) -> Seq<Result<Trace, TraceError>> {
    arranged(stored, arrangement(locations_of(stored)))
}

/// No two stored records have the same location.
pub open spec fn distinct_locations(stored: Seq<Stored>) -> bool {
    forall|i: int, j: int|
        0 <= i < j < stored.len() ==> (#[trigger] stored[i]).location != (
        #[trigger] stored[j]).location
}

/// Every record of the first listing is in the second.
pub open spec fn all_among(first: Seq<Stored>, second: Seq<Stored>) -> bool {
    forall|i: int| 0 <= i < first.len() ==> second.contains(#[trigger] first[i])
}

/// The records are listed in the order of writing, no location twice.
pub open spec fn ascending(stored: Seq<Stored>) -> bool {
    forall|a: int, b: int|
        0 <= a < b < stored.len() ==> precedes(
            (#[trigger] stored[a]).location,
            (#[trigger] stored[b]).location,
        )
}

/// Two ascending listings of the same records agree up to any place.
proof fn lemma_ascending_agree(first: Seq<Stored>, second: Seq<Stored>, k: int)
    requires
        ascending(first),
        ascending(second),
        all_among(first, second),
        all_among(second, first),
        0 <= k,
    ensures
        k <= first.len() ==> k <= second.len(),
        k <= second.len() ==> k <= first.len(),
        forall|j: int| 0 <= j < k && j < first.len() ==> first[j] == second[j],
    decreases k,
{
    if k > 0 {
        lemma_ascending_agree(first, second, k - 1);
        if k <= first.len() {
            // Neither record at this place can stand earlier in the other
            // listing, and they cannot both stand later.
            assert(second.contains(first[k - 1]));
            assert(first.contains(second[k - 1]));
        } else if k <= second.len() {
            assert(first.contains(second[k - 1]));
        }
    }
}

/// The stored records, each with its location, in the order `order`.
pub open spec fn rearranged(stored: Seq<Stored>, order: Seq<usize>) -> Seq<Stored> {
    Seq::new(order.len(), |k: int| stored[order[k] as int])
}

/// Records with distinct locations, listed in the order of writing, ascend,
/// and the listing holds the same records.
proof fn lemma_rearranged(stored: Seq<Stored>)
    requires
        stored.len() <= usize::MAX,
        distinct_locations(stored),
    ensures
        ascending(rearranged(stored, arrangement(locations_of(stored)))),
        all_among(stored, rearranged(stored, arrangement(locations_of(stored)))),
        all_among(rearranged(stored, arrangement(locations_of(stored))), stored),
{
    let locations = locations_of(stored);
    let order = arrangement(locations);
    let listing = rearranged(stored, order);
    lemma_arrangement(locations);
    assert forall|a: int, b: int| 0 <= a < b < listing.len() implies precedes(
        (#[trigger] listing[a]).location,
        (#[trigger] listing[b]).location,
    ) by {
        assert(comes_before(locations, order[a] as int, order[b] as int));
    }
    assert forall|i: int| 0 <= i < stored.len() implies listing.contains(
        #[trigger] stored[i],
    ) by {
        assert(order.contains(i as usize));
        let k = choose|k: int| 0 <= k < order.len() && order[k] == i as usize;
        assert(listing[k] == stored[i]);
    }
    assert forall|k: int| 0 <= k < listing.len() implies stored.contains(
        #[trigger] listing[k],
    ) by {
        assert(stored[order[k] as int] == listing[k]);
    }
}

/// The order of writing does not depend on the order in which the store
/// lists its records: two listings of the same records, no location twice,
/// give the same sequence.
pub proof fn lemma_in_sequence_order_free(first: Seq<Stored>, second: Seq<Stored>)
    requires
        first.len() <= usize::MAX,
        second.len() <= usize::MAX,
        distinct_locations(first),
        distinct_locations(second),
        all_among(first, second),
        all_among(second, first),
    ensures
        in_sequence(first) == in_sequence(second),
{
    let a = rearranged(first, arrangement(locations_of(first)));
    let b = rearranged(second, arrangement(locations_of(second)));
    lemma_rearranged(first);
    lemma_rearranged(second);
    assert(all_among(a, b)) by {
        assert forall|i: int| 0 <= i < a.len() implies b.contains(#[trigger] a[i]) by {
            assert(first.contains(a[i]));
            assert(second.contains(a[i]));
        }
    }
    assert(all_among(b, a)) by {
        assert forall|i: int| 0 <= i < b.len() implies a.contains(#[trigger] b[i]) by {
            assert(second.contains(b[i]));
            assert(first.contains(b[i]));
        }
    }
    lemma_ascending_agree(a, b, a.len() as int);
    lemma_ascending_agree(a, b, b.len() as int);
    assert forall|k: int| 0 <= k < a.len() implies in_sequence(first)[k] == in_sequence(
        second,
    )[k] by {
        assert(a[k] == b[k]);
    }
}

/// The compilation database of a store does not depend on the order in which
/// the store lists its records.
pub proof fn lemma_database_order_free(
    classifier: ClassifierView,
    policy: Policy,
    first: Seq<Stored>,
    second: Seq<Stored>,
)
    requires
        first.len() <= usize::MAX,
        second.len() <= usize::MAX,
        distinct_locations(first),
        distinct_locations(second),
        all_among(first, second),
        all_among(second, first),
    ensures
        database(classifier, policy, in_sequence(first)) == database(
            classifier,
            policy,
            in_sequence(second),
        ),
{
    lemma_in_sequence_order_free(first, second);
}

/// Builds the compilation database of a store. The records are taken in the
/// order of writing, whatever order the store lists them in.
pub fn build_from_store(classifier: &Classifier, policy: &Policy, stored: &Vec<Stored>) -> (r: Vec<
    Compilation,
>)
    ensures
        r.deep_view() == database(classifier@, *policy, in_sequence(stored@)),
{
    let mut locations: Vec<Location> = Vec::new();
    let mut i: usize = 0;
    while i < stored.len()
        invariant
            i <= stored.len(),
            locations.len() == i,
            forall|k: int| 0 <= k < i ==> locations[k] == stored[k].location,
        decreases stored.len() - i,
    {
        locations.push(stored[i].location);
        i += 1;
    }
    assert(locations@ =~= locations_of(stored@));
    let order = arrange(&locations);
    let ghost records = in_sequence(stored@);
    let mut all: Vec<Compilation> = Vec::new();
    let mut k: usize = 0;
    while k < order.len()
        invariant
            k <= order.len(),
            order.len() == stored.len(),
            is_arrangement(locations_of(stored@), order@),
            records == arranged(stored@, order@),
            all.deep_view() == candidates(classifier@, *policy, records, k as nat),
        decreases order.len() - k,
    {
        contribute(classifier, policy, &stored[order[k]].record, &mut all);
        k += 1;
    }
    match policy.duplicates {
        Duplicates::LastWins => keep_latest(&all),
        Duplicates::KeepAll => all,
    }
}

} // verus!
