//! Staleness watchdog decisions: which devices went dark since the last
//! tick, and which recovered. The periodic loop and the logging live with
//! the service; each tick hands the fresh snapshot to [`watchdog_step`].
use vstd::prelude::*;

use crate::fleet::{FleetDevice, Staleness};
use crate::text::same_text;

verus! {

/// The ids of the dark devices of a snapshot.
pub open spec fn dark_set(devices: Seq<FleetDevice>) -> Set<Seq<char>> {
    Set::new(
        |id: Seq<char>|
            exists|i: int|
                0 <= i < devices.len() && (#[trigger] devices[i]).staleness == Staleness::Dark
                    && devices[i].device_id@ == id,
    )
}

/// An id is dark in a snapshot exactly when some row with that id is
/// classified dark; fresh, stale and never-heard-from rows make no id dark.
pub proof fn lemma_dark_set_members(devices: Seq<FleetDevice>)
    ensures
        forall|id: Seq<char>|
            #[trigger] dark_set(devices).contains(id) <==> exists|i: int|
                0 <= i < devices.len() && devices[i].device_id@ == id && (#[trigger] devices[i]).staleness
                    == Staleness::Dark,
        (forall|i: int| 0 <= i < devices.len() ==> (#[trigger] devices[i]).staleness
            != Staleness::Dark) ==> dark_set(devices) =~= Set::<Seq<char>>::empty(),
{
}

proof fn lemma_dark_texts(ids: Seq<String>, devices: Seq<FleetDevice>)
    requires
        text_set(ids) == dark_set(devices),
    ensures
        forall|k: int| 0 <= k < ids.len() ==> #[trigger] has_dark_row(devices, ids[k]@),
        forall|i: int|
            0 <= i < devices.len() && (#[trigger] devices[i]).staleness == Staleness::Dark
                ==> text_set(ids).contains(devices[i].device_id@),
{
    assert forall|k: int| 0 <= k < ids.len() implies #[trigger] has_dark_row(devices, ids[k]@) by {
        assert(text_set(ids).contains(ids[k]@));
        assert(dark_set(devices).contains(ids[k]@));
    }
    assert forall|i: int|
        0 <= i < devices.len() && (#[trigger] devices[i]).staleness
            == Staleness::Dark implies text_set(ids).contains(devices[i].device_id@) by {
        assert(dark_set(devices).contains(devices[i].device_id@));
    }
}

/// Some row of the snapshot with id `id` is classified dark.
pub open spec fn has_dark_row(devices: Seq<FleetDevice>, id: Seq<char>) -> bool {
    exists|i: int|
        0 <= i < devices.len() && devices[i].device_id@ == id && (#[trigger] devices[i]).staleness
            == Staleness::Dark
}

/// The texts of a list of strings, as a set.
pub open spec fn text_set(v: Seq<String>) -> Set<Seq<char>> {
    Set::new(|t: Seq<char>| exists|i: int| 0 <= i < v.len() && (#[trigger] v[i])@ == t)
}

/// No text occurs twice.
pub open spec fn distinct_texts(v: Seq<String>) -> bool {
    forall|i: int, j: int| 0 <= i < j < v.len() ==> (#[trigger] v[i])@ != (#[trigger] v[j])@
}

fn contains_text(v: &Vec<String>, t: &str) -> (r: bool)
    ensures
        r == text_set(v@).contains(t@),
{
    let mut i: usize = 0;
    while i < v.len()
        invariant
            i <= v@.len(),
            forall|k: int| 0 <= k < i ==> (#[trigger] v@[k])@ != t@,
        decreases v@.len() - i,
    {
        if same_text(v[i].as_str(), t) {
            assert(v@[i as int]@ == t@);
            return true;
        }
        i = i + 1;
    }
    false
}

fn push_distinct(v: &mut Vec<String>, t: &str)
    requires
        distinct_texts(old(v)@),
    ensures
        distinct_texts(final(v)@),
        text_set(final(v)@) == text_set(old(v)@).insert(t@),
{
    let ghost before = v@;
    if !contains_text(v, t) {
        v.push(t.to_owned());
        proof {
            assert forall|i: int, j: int| 0 <= i < j < v@.len() implies (#[trigger] v@[i])@ != (
            #[trigger] v@[j])@ by {
                assert(v@[i] == before[i]);
                if j < before.len() {
                    assert(v@[j] == before[j]);
                } else {
                    assert(!(exists|k: int| 0 <= k < before.len() && (#[trigger] before[k])@ == t@));
                }
            }
            assert forall|q: Seq<char>| #[trigger] text_set(v@).contains(q) == text_set(
                before,
            ).insert(t@).contains(q) by {
                if text_set(before).contains(q) {
                    let k = choose|k: int| 0 <= k < before.len() && (#[trigger] before[k])@ == q;
                    assert(v@[k] == before[k]);
                }
                if q == t@ {
                    assert(v@[before.len() as int]@ == t@);
                }
                if text_set(v@).contains(q) {
                    let k = choose|k: int| 0 <= k < v@.len() && (#[trigger] v@[k])@ == q;
                    if k < before.len() {
                        assert(v@[k] == before[k]);
                    }
                }
            }
            assert(text_set(v@) =~= text_set(before).insert(t@));
        }
    } else {
        assert(text_set(before).insert(t@) =~= text_set(before));
    }
}

/// The ids of the snapshot's dark devices, each once.
pub fn dark_ids(devices: &[FleetDevice]) -> (ids: Vec<String>)
    ensures
        distinct_texts(ids@),
        text_set(ids@) == dark_set(devices@),
        forall|k: int| 0 <= k < ids@.len() ==> #[trigger] has_dark_row(devices@, ids@[k]@),
        forall|i: int|
            0 <= i < devices@.len() && (#[trigger] devices@[i]).staleness == Staleness::Dark
                ==> text_set(ids@).contains(devices@[i].device_id@),
{
    let mut ids: Vec<String> = Vec::new();
    let mut i: usize = 0;
    assert(text_set(ids@) =~= Set::<Seq<char>>::empty());
    while i < devices.len()
        invariant
            i <= devices@.len(),
            distinct_texts(ids@),
            text_set(ids@) == dark_set(devices@.subrange(0, i as int)),
        decreases devices@.len() - i,
    {
        let ghost seen = devices@.subrange(0, i as int);
        let ghost next = devices@.subrange(0, i + 1);
        if devices[i].staleness == Staleness::Dark {
            push_distinct(&mut ids, devices[i].device_id.as_str());
        }
        proof {
            assert forall|q: Seq<char>| #[trigger] dark_set(next).contains(q) == text_set(
                ids@,
            ).contains(q) by {
                if dark_set(seen).contains(q) {
                    let k = choose|k: int|
                        0 <= k < seen.len() && (#[trigger] seen[k]).staleness == Staleness::Dark
                            && seen[k].device_id@ == q;
                    assert(next[k] == seen[k]);
                }
                if dark_set(next).contains(q) {
                    let k = choose|k: int|
                        0 <= k < next.len() && (#[trigger] next[k]).staleness == Staleness::Dark
                            && next[k].device_id@ == q;
                    if k < i {
                        assert(next[k] == seen[k]);
                    }
                }
                if devices@[i as int].staleness == Staleness::Dark && q == devices@[i as int].device_id@ {
                    assert(next[i as int] == devices@[i as int]);
                }
            }
            assert(dark_set(next) =~= text_set(ids@));
        }
        i = i + 1;
    }
    assert(devices@.subrange(0, i as int) =~= devices@);
    proof {
        lemma_dark_texts(ids@, devices@);
    }
    ids
}

/// `v` without the texts in `remove`, each once.
fn without(v: &Vec<String>, remove: &Vec<String>) -> (r: Vec<String>)
    requires
        distinct_texts(v@),
    ensures
        distinct_texts(r@),
        text_set(r@) == text_set(v@).difference(text_set(remove@)),
{
    let mut r: Vec<String> = Vec::new();
    let mut i: usize = 0;
    assert(text_set(r@) =~= Set::<Seq<char>>::empty());
    while i < v.len()
        invariant
            i <= v@.len(),
            distinct_texts(r@),
            text_set(r@) == text_set(v@.subrange(0, i as int)).difference(text_set(remove@)),
        decreases v@.len() - i,
    {
        let ghost seen = v@.subrange(0, i as int);
        let ghost next = v@.subrange(0, i + 1);
        let ghost before = r@;
        let keep = !contains_text(remove, v[i].as_str());
        if keep {
            push_distinct(&mut r, v[i].as_str());
        }
        proof {
            assert forall|q: Seq<char>| #[trigger] text_set(next).difference(
                text_set(remove@),
            ).contains(q) == text_set(r@).contains(q) by {
                if text_set(seen).contains(q) {
                    let k = choose|k: int| 0 <= k < seen.len() && (#[trigger] seen[k])@ == q;
                    assert(next[k] == seen[k]);
                }
                if text_set(next).contains(q) {
                    let k = choose|k: int| 0 <= k < next.len() && (#[trigger] next[k])@ == q;
                    if k < i {
                        assert(next[k] == seen[k]);
                    }
                }
                if q == v@[i as int]@ {
                    assert(next[i as int] == v@[i as int]);
                }
            }
            assert(text_set(next).difference(text_set(remove@)) =~= text_set(r@));
        }
        i = i + 1;
    }
    assert(v@.subrange(0, i as int) =~= v@);
    r
}

/// What one watchdog tick found.
#[derive(Debug)]
pub struct DarkChanges {
    /// Ids of the devices dark now; the next tick's `known_dark`.
    pub dark_now: Vec<String>,
    /// Dark now, not dark at the previous tick: alert on these.
    pub went_dark: Vec<String>,
    /// Dark at the previous tick, not now.
    pub recovered: Vec<String>,
}

/// One watchdog tick: compare the dark devices of the new snapshot with
/// those known dark at the previous tick.
pub fn watchdog_step(known_dark: &Vec<String>, devices: &[FleetDevice]) -> (c: DarkChanges)
    ensures
        distinct_texts(c.dark_now@),
        distinct_texts(c.went_dark@),
        distinct_texts(c.recovered@),
        text_set(c.dark_now@) == dark_set(devices@),
        text_set(c.went_dark@) == dark_set(devices@).difference(text_set(known_dark@)),
        text_set(c.recovered@) == text_set(known_dark@).difference(dark_set(devices@)),
        forall|k: int|
            0 <= k < c.went_dark@.len() ==> #[trigger] has_dark_row(devices@, c.went_dark@[k]@)
                && !text_set(known_dark@).contains(c.went_dark@[k]@),
        forall|k: int|
            0 <= k < c.recovered@.len() ==> text_set(known_dark@).contains(
                #[trigger] c.recovered@[k]@,
            ) && !has_dark_row(devices@, c.recovered@[k]@),
{
    let dark_now = dark_ids(devices);
    let went_dark = without(&dark_now, known_dark);
    let known = distinct_copy(known_dark);
    let recovered = without(&known, &dark_now);
    proof {
        lemma_dark_set_members(devices@);
        assert forall|k: int| 0 <= k < went_dark@.len() implies #[trigger] has_dark_row(
            devices@,
            went_dark@[k]@,
        ) && !text_set(known_dark@).contains(went_dark@[k]@) by {
            assert(text_set(went_dark@).contains(went_dark@[k]@));
            assert(dark_set(devices@).contains(went_dark@[k]@));
        }
        assert forall|k: int| 0 <= k < recovered@.len() implies text_set(known_dark@).contains(
            #[trigger] recovered@[k]@,
        ) && !has_dark_row(devices@, recovered@[k]@) by {
            assert(text_set(recovered@).contains(recovered@[k]@));
        }
    }
    DarkChanges { dark_now, went_dark, recovered }
}

/// A copy of `v` with repeated texts dropped.
fn distinct_copy(v: &Vec<String>) -> (r: Vec<String>)
    ensures
        distinct_texts(r@),
        text_set(r@) == text_set(v@),
{
    let mut r: Vec<String> = Vec::new();
    let mut i: usize = 0;
    assert(text_set(r@) =~= Set::<Seq<char>>::empty());
    while i < v.len()
        invariant
            i <= v@.len(),
            distinct_texts(r@),
            text_set(r@) == text_set(v@.subrange(0, i as int)),
        decreases v@.len() - i,
    {
        let ghost seen = v@.subrange(0, i as int);
        let ghost next = v@.subrange(0, i + 1);
        push_distinct(&mut r, v[i].as_str());
        proof {
            assert forall|q: Seq<char>| #[trigger] text_set(next).contains(q) == text_set(r@).contains(
                q,
            ) by {
                if text_set(seen).contains(q) {
                    let k = choose|k: int| 0 <= k < seen.len() && (#[trigger] seen[k])@ == q;
                    assert(next[k] == seen[k]);
                }
                if text_set(next).contains(q) {
                    let k = choose|k: int| 0 <= k < next.len() && (#[trigger] next[k])@ == q;
                    if k < i {
                        assert(next[k] == seen[k]);
                    }
                }
                if q == v@[i as int]@ {
                    assert(next[i as int] == v@[i as int]);
                }
            }
            assert(text_set(next) =~= text_set(r@));
        }
        i = i + 1;
    }
    assert(v@.subrange(0, i as int) =~= v@);
    r
}

/// A fleet whose dark devices are exactly the ones already known dark
/// raises no alert and reports no recovery: each device alerts once when it
/// goes dark, not on every tick while it stays dark.
pub proof fn lemma_steady_fleet_is_quiet(known_dark: Seq<String>, devices: Seq<FleetDevice>)
    requires
        text_set(known_dark) == dark_set(devices),
    ensures
        dark_set(devices).difference(text_set(known_dark)) == Set::<Seq<char>>::empty(),
        text_set(known_dark).difference(dark_set(devices)) == Set::<Seq<char>>::empty(),
{
    assert(dark_set(devices).difference(text_set(known_dark)) =~= Set::<Seq<char>>::empty());
    assert(text_set(known_dark).difference(dark_set(devices)) =~= Set::<Seq<char>>::empty());
}

} // verus!
