//! DynamoDB item mapping for device and uplink records.
//!
//! An [`Item`] holds the attributes of one DynamoDB item as plain values;
//! the SDK's `HashMap<String, AttributeValue>` converts to and from it.
use vstd::prelude::*;

use crate::error::AppError;
use crate::models::{DeviceRecord, UplinkRecord};
use crate::text::same_text;

verus! {

/// A DynamoDB attribute value, as far as the records read it.
#[derive(Debug)]
pub enum AttributeValue {
    /// A string attribute.
    S(String),
    /// A number attribute (its decimal text).
    N(String),
    /// Any other kind of attribute.
    Other,
}

/// The map that a list of entries denotes: later entries replace earlier
/// ones with the same key.
pub open spec fn entries_map(entries: Seq<(String, AttributeValue)>) -> Map<Seq<char>, AttributeValue>
    decreases entries.len(),
{
    if entries.len() == 0 {
        Map::empty()
    } else {
        entries_map(entries.drop_last()).insert(entries.last().0@, entries.last().1)
    }
}

/// No key occurs twice.
pub open spec fn distinct_keys(entries: Seq<(String, AttributeValue)>) -> bool {
    forall|i: int, j: int|
        0 <= i < j < entries.len() ==> (#[trigger] entries[i]).0@ != (#[trigger] entries[j]).0@
}

/// The attributes of one DynamoDB item.
pub struct Item {
    entries: Vec<(String, AttributeValue)>,
}

proof fn lemma_entries_map(entries: Seq<(String, AttributeValue)>)
    requires
        distinct_keys(entries),
    ensures
        entries_map(entries).dom().finite(),
        entries_map(entries).dom().len() == entries.len(),
        forall|k: Seq<char>|
            #![trigger entries_map(entries).contains_key(k)]
            entries_map(entries).contains_key(k) <==> exists|i: int|
                0 <= i < entries.len() && (#[trigger] entries[i]).0@ == k,
        forall|i: int|
            0 <= i < entries.len() ==> entries_map(entries)[(#[trigger] entries[i]).0@]
                == entries[i].1,
    decreases entries.len(),
{
    if entries.len() > 0 {
        let rest = entries.drop_last();
        assert(distinct_keys(rest)) by {
            assert forall|i: int, j: int| 0 <= i < j < rest.len() implies (#[trigger] rest[i]).0@
                != (#[trigger] rest[j]).0@ by {
                assert(rest[i] == entries[i] && rest[j] == entries[j]);
            }
        }
        lemma_entries_map(rest);
        let last = entries.last();
        assert(!entries_map(rest).contains_key(last.0@)) by {
            if entries_map(rest).contains_key(last.0@) {
                let i = choose|i: int| 0 <= i < rest.len() && (#[trigger] rest[i]).0@ == last.0@;
                assert(entries[i] == rest[i]);
                assert(entries[entries.len() - 1] == last);
            }
        }
        assert forall|k: Seq<char>|
            #![trigger entries_map(entries).contains_key(k)]
            entries_map(entries).contains_key(k) implies exists|i: int|
                0 <= i < entries.len() && (#[trigger] entries[i]).0@ == k by {
            if k == last.0@ {
                assert(entries[entries.len() - 1].0@ == k);
            } else {
                let i = choose|i: int| 0 <= i < rest.len() && (#[trigger] rest[i]).0@ == k;
                assert(entries[i] == rest[i]);
            }
        }
        assert forall|k: Seq<char>|
            #![trigger entries_map(entries).contains_key(k)]
            (exists|i: int| 0 <= i < entries.len() && (#[trigger] entries[i]).0@ == k) implies entries_map(
                entries,
            ).contains_key(k) by {
            let i = choose|i: int| 0 <= i < entries.len() && (#[trigger] entries[i]).0@ == k;
            if i < entries.len() - 1 {
                assert(rest[i] == entries[i]);
            }
        }
        assert forall|i: int| 0 <= i < entries.len() implies entries_map(entries)[(
        #[trigger] entries[i]).0@] == entries[i].1 by {
            if i < entries.len() - 1 {
                assert(rest[i] == entries[i]);
                assert(entries[i].0@ != last.0@);
            }
        }
    }
}

impl Item {
    /// The attributes, keyed by name.
    pub closed spec fn view(&self) -> Map<Seq<char>, AttributeValue> {
        entries_map(self.entries@)
    }

    #[verifier::type_invariant]
    closed spec fn inv(&self) -> bool {
        distinct_keys(self.entries@)
    }

    /// An item with no attributes.
    pub fn new() -> (item: Item)
        ensures
            item@ == Map::<Seq<char>, AttributeValue>::empty(),
    {
        Item { entries: Vec::new() }
    }

    /// Number of attributes.
    pub fn len(&self) -> (n: usize)
        ensures
            n == self@.len(),
    {
        proof {
            use_type_invariant(self);
            lemma_entries_map(self.entries@);
        }
        self.entries.len()
    }

    fn position(&self, key: &str) -> (r: Option<usize>)
        ensures
            match r {
                Some(i) => i < self.entries@.len() && self.entries@[i as int].0@ == key@,
                None => forall|i: int|
                    0 <= i < self.entries@.len() ==> (#[trigger] self.entries@[i]).0@ != key@,
            },
    {
        let mut i: usize = 0;
        while i < self.entries.len()
            invariant
                i <= self.entries@.len(),
                forall|k: int| 0 <= k < i ==> (#[trigger] self.entries@[k]).0@ != key@,
            decreases self.entries@.len() - i,
        {
            if same_text(self.entries[i].0.as_str(), key) {
                return Some(i);
            }
            i = i + 1;
        }
        None
    }

    /// Whether the item has an attribute named `key`.
    pub fn contains_key(&self, key: &str) -> (r: bool)
        ensures
            r == self@.contains_key(key@),
    {
        proof {
            use_type_invariant(self);
            lemma_entries_map(self.entries@);
        }
        self.position(key).is_some()
    }

    /// The attribute named `key`, if any.
    pub fn get(&self, key: &str) -> (r: Option<&AttributeValue>)
        ensures
            match r {
                Some(v) => self@.contains_key(key@) && *v == self@[key@],
                None => !self@.contains_key(key@),
            },
    {
        proof {
            use_type_invariant(self);
            lemma_entries_map(self.entries@);
        }
        match self.position(key) {
            Some(i) => Some(&self.entries[i].1),
            None => None,
        }
    }

    /// Sets attribute `key` to `value`, replacing any earlier value.
    pub fn insert(&mut self, key: String, value: AttributeValue)
        ensures
            final(self)@ == old(self)@.insert(key@, value),
    {
        proof {
            use_type_invariant(&*self);
            lemma_entries_map(self.entries@);
        }
        let ghost before = self.entries@;
        let ghost k = key@;
        match self.position(key.as_str()) {
            Some(i) => {
                let mut entries = Vec::new();
                std::mem::swap(&mut entries, &mut self.entries);
                entries.set(i, (key, value));
                let ghost after = entries@;
                proof {
                    assert(distinct_keys(after)) by {
                        assert forall|a: int, b: int| 0 <= a < b < after.len() implies (
                        #[trigger] after[a]).0@ != (#[trigger] after[b]).0@ by {
                            if a != i && b != i {
                                assert(after[a] == before[a] && after[b] == before[b]);
                            } else if a == i {
                                assert(after[b] == before[b]);
                            } else {
                                assert(after[a] == before[a]);
                            }
                        }
                    }
                    lemma_entries_map(after);
                    assert(entries_map(after) =~= entries_map(before).insert(k, value)) by {
                        assert forall|q: Seq<char>| #[trigger]
                            entries_map(after).contains_key(q) == entries_map(
                                before,
                            ).insert(k, value).contains_key(q) by {
                            assert(after[i as int].0@ == k);
                            assert(before[i as int].0@ == k);
                            if entries_map(before).contains_key(q) {
                                let j = choose|j: int|
                                    0 <= j < before.len() && (#[trigger] before[j]).0@ == q;
                                if j != i {
                                    assert(after[j] == before[j]);
                                    assert(after[j].0@ == q);
                                }
                            }
                            if entries_map(after).contains_key(q) {
                                let j = choose|j: int|
                                    0 <= j < after.len() && (#[trigger] after[j]).0@ == q;
                                if j != i {
                                    assert(after[j] == before[j]);
                                    assert(before[j].0@ == q);
                                }
                            }
                        }
                        assert forall|q: Seq<char>| #[trigger]
                            entries_map(after).contains_key(q) implies entries_map(after)[q]
                            == entries_map(before).insert(k, value)[q] by {
                            let j = choose|j: int|
                                0 <= j < after.len() && (#[trigger] after[j]).0@ == q;
                            if j != i {
                                assert(after[j] == before[j]);
                                assert(q != k);
                            }
                        }
                    }
                }
                self.entries = entries;
            },
            None => {
                let mut entries = Vec::new();
                std::mem::swap(&mut entries, &mut self.entries);
                entries.push((key, value));
                proof {
                    let after = entries@;
                    assert(after.drop_last() =~= before);
                    assert(distinct_keys(after)) by {
                        assert forall|a: int, b: int| 0 <= a < b < after.len() implies (
                        #[trigger] after[a]).0@ != (#[trigger] after[b]).0@ by {
                            assert(after[a] == before[a]);
                            if b < before.len() {
                                assert(after[b] == before[b]);
                            }
                        }
                    }
                }
                self.entries = entries;
            },
        }
    }

    /// The attributes as (name, value) pairs, each name once.
    pub fn into_entries(self) -> (entries: Vec<(String, AttributeValue)>)
        ensures
            distinct_keys(entries@),
            entries_map(entries@) == self@,
    {
        proof {
            use_type_invariant(&self);
        }
        let Item { entries } = self;
        entries
    }
}

/// The string attribute named `k`, if the item has one.
pub open spec fn s_attr(m: Map<Seq<char>, AttributeValue>, k: Seq<char>) -> Option<String> {
    if m.contains_key(k) {
        match m[k] {
            AttributeValue::S(s) => Some(s),
            _ => None,
        }
    } else {
        None
    }
}

/// The attributes a device record is stored as.
pub open spec fn device_item(r: DeviceRecord) -> Map<Seq<char>, AttributeValue> {
    let base = Map::empty().insert("device_id"@, AttributeValue::S(r.device_id)).insert(
        "owner_id"@,
        AttributeValue::S(r.owner_id),
    );
    let with_dn = match r.subject_dn {
        Some(dn) => base.insert("subject_dn"@, AttributeValue::S(dn)),
        None => base,
    };
    with_dn.insert("status"@, AttributeValue::S(r.status)).insert(
        "created_at"@,
        AttributeValue::S(r.created_at),
    )
}

/// The device record an item holds, or the name of the first required
/// string attribute (in field order) that it lacks.
pub open spec fn device_from_item(m: Map<Seq<char>, AttributeValue>) -> Result<DeviceRecord, Seq<char>> {
    if s_attr(m, "device_id"@) is None {
        Err("device_id"@)
    } else if s_attr(m, "owner_id"@) is None {
        Err("owner_id"@)
    } else if s_attr(m, "status"@) is None {
        Err("status"@)
    } else if s_attr(m, "created_at"@) is None {
        Err("created_at"@)
    } else {
        Ok(
            DeviceRecord {
                device_id: s_attr(m, "device_id"@)->0,
                owner_id: s_attr(m, "owner_id"@)->0,
                subject_dn: s_attr(m, "subject_dn"@),
                status: s_attr(m, "status"@)->0,
                created_at: s_attr(m, "created_at"@)->0,
            },
        )
    }
}

/// Store the device record as an item.
pub fn device_to_item(record: &DeviceRecord) -> (item: Item)
    ensures
        item@ == device_item(*record),
        item@.contains_key("device_id"@) && item@["device_id"@] == AttributeValue::S(
            record.device_id,
        ),
        item@.contains_key("owner_id"@) && item@["owner_id"@] == AttributeValue::S(
            record.owner_id,
        ),
        item@.contains_key("status"@) && item@["status"@] == AttributeValue::S(record.status),
        item@.contains_key("created_at"@) && item@["created_at"@] == AttributeValue::S(
            record.created_at,
        ),
        s_attr(item@, "subject_dn"@) == record.subject_dn,
        item@.dom() =~= device_keys(record.subject_dn is Some),
{
    proof {
        lemma_device_item_fields(*record);
    }
    let mut item = Item::new();
    item.insert("device_id".to_owned(), AttributeValue::S(record.device_id.clone()));
    item.insert("owner_id".to_owned(), AttributeValue::S(record.owner_id.clone()));
    if let Some(dn) = &record.subject_dn {
        item.insert("subject_dn".to_owned(), AttributeValue::S(dn.clone()));
    }
    item.insert("status".to_owned(), AttributeValue::S(record.status.clone()));
    item.insert("created_at".to_owned(), AttributeValue::S(record.created_at.clone()));
    item
}

/// The string attribute `key` of `item`, or `Store("missing field: <key>")`.
fn required_s(item: &Item, key: &str) -> (r: Result<String, AppError>)
    ensures
        match r {
            Ok(v) => s_attr(item@, key@) == Some(v),
            Err(e) => s_attr(item@, key@) is None && (e matches AppError::Store(msg) && msg@
                == "missing field: "@ + key@),
        },
{
    match item.get(key) {
        Some(AttributeValue::S(v)) => Ok(v.clone()),
        _ => {
            let mut msg = "missing field: ".to_owned();
            msg.append(key);
            Err(AppError::Store(msg))
        },
    }
}

/// Read a device record back from an item. Errors with
/// `Store("missing field: <name>")` for the first of `device_id`,
/// `owner_id`, `status`, `created_at` that is missing or not a string.
pub fn item_to_device(item: &Item) -> (r: Result<DeviceRecord, AppError>)
    ensures
        r matches Ok(d) ==> s_attr(item@, "device_id"@) == Some(d.device_id) && s_attr(
            item@,
            "owner_id"@,
        ) == Some(d.owner_id) && s_attr(item@, "status"@) == Some(d.status) && s_attr(
            item@,
            "created_at"@,
        ) == Some(d.created_at) && s_attr(item@, "subject_dn"@) == d.subject_dn,
        match r {
            Ok(d) => device_from_item(item@) == Ok::<DeviceRecord, Seq<char>>(d),
            Err(e) => device_from_item(item@) matches Err(key) && e matches AppError::Store(msg)
                && msg@ == "missing field: "@ + key,
        },
{
    let device_id = match required_s(item, "device_id") {
        Ok(v) => v,
        Err(e) => return Err(e),
    };
    let owner_id = match required_s(item, "owner_id") {
        Ok(v) => v,
        Err(e) => return Err(e),
    };
    let subject_dn = match item.get("subject_dn") {
        Some(AttributeValue::S(v)) => Some(v.clone()),
        _ => None,
    };
    let status = match required_s(item, "status") {
        Ok(v) => v,
        Err(e) => return Err(e),
    };
    let created_at = match required_s(item, "created_at") {
        Ok(v) => v,
        Err(e) => return Err(e),
    };
    let d = DeviceRecord { device_id, owner_id, subject_dn, status, created_at };
    proof {
        lemma_device_read_from_own_fields(item@);
    }
    Ok(d)
}

/// The attribute names of a stored device: `device_id`, `owner_id`,
/// `status`, `created_at`, and `subject_dn` when the record has one.
pub open spec fn device_keys(with_dn: bool) -> Set<Seq<char>> {
    let base = set!["device_id"@, "owner_id"@, "status"@, "created_at"@];
    if with_dn {
        base.insert("subject_dn"@)
    } else {
        base
    }
}

proof fn lemma_device_key_names_differ()
    ensures
        "device_id"@ != "owner_id"@,
        "device_id"@ != "status"@,
        "device_id"@ != "created_at"@,
        "device_id"@ != "subject_dn"@,
        "owner_id"@ != "status"@,
        "owner_id"@ != "created_at"@,
        "owner_id"@ != "subject_dn"@,
        "status"@ != "created_at"@,
        "status"@ != "subject_dn"@,
        "created_at"@ != "subject_dn"@,
{
    reveal_strlit("device_id");
    reveal_strlit("owner_id");
    reveal_strlit("subject_dn");
    reveal_strlit("status");
    reveal_strlit("created_at");
    assert("device_id"@.len() == 9 && "owner_id"@.len() == 8 && "status"@.len() == 6);
    assert("created_at"@.len() == 10 && "subject_dn"@.len() == 10);
    assert("subject_dn"@[0] != "created_at"@[0]);
}

/// Each attribute of a stored device holds the record field of its own
/// name, as a string, and the item has no other attributes.
pub proof fn lemma_device_item_fields(r: DeviceRecord)
    ensures
        device_item(r).contains_key("device_id"@) && device_item(r)["device_id"@]
            == AttributeValue::S(r.device_id),
        device_item(r).contains_key("owner_id"@) && device_item(r)["owner_id"@]
            == AttributeValue::S(r.owner_id),
        device_item(r).contains_key("status"@) && device_item(r)["status"@] == AttributeValue::S(
            r.status,
        ),
        device_item(r).contains_key("created_at"@) && device_item(r)["created_at"@]
            == AttributeValue::S(r.created_at),
        s_attr(device_item(r), "subject_dn"@) == r.subject_dn,
        device_item(r).dom() =~= device_keys(r.subject_dn is Some),
{
    lemma_device_key_names_differ();
}

/// A device read back from an item takes each field from the attribute of
/// its own name.
pub proof fn lemma_device_read_from_own_fields(m: Map<Seq<char>, AttributeValue>)
    ensures
        device_from_item(m) matches Ok(d) ==> s_attr(m, "device_id"@) == Some(d.device_id)
            && s_attr(m, "owner_id"@) == Some(d.owner_id) && s_attr(m, "status"@) == Some(
            d.status,
        ) && s_attr(m, "created_at"@) == Some(d.created_at) && s_attr(m, "subject_dn"@)
            == d.subject_dn,
{
}

/// Storing a device record and reading it back gives the same record.
pub proof fn lemma_device_item_roundtrip(r: DeviceRecord)
    ensures
        device_from_item(device_item(r)) == Ok::<DeviceRecord, Seq<char>>(r),
{
    reveal_strlit("device_id");
    reveal_strlit("owner_id");
    reveal_strlit("subject_dn");
    reveal_strlit("status");
    reveal_strlit("created_at");
    let m = device_item(r);
    assert("device_id"@.len() == 9 && "owner_id"@.len() == 8 && "status"@.len() == 6);
    assert("created_at"@.len() == 10 && "subject_dn"@.len() == 10);
    assert("subject_dn"@[0] != "created_at"@[0]);
    assert("device_id"@ != "status"@ && "device_id"@ != "created_at"@ && "device_id"@
        != "subject_dn"@ && "device_id"@ != "owner_id"@);
    assert("owner_id"@ != "status"@ && "owner_id"@ != "created_at"@ && "owner_id"@
        != "subject_dn"@);
    assert("subject_dn"@ != "status"@ && "subject_dn"@ != "created_at"@);
    assert("status"@ != "created_at"@);
    assert(s_attr(m, "device_id"@) == Some(r.device_id));
    assert(s_attr(m, "owner_id"@) == Some(r.owner_id));
    assert(s_attr(m, "status"@) == Some(r.status));
    assert(s_attr(m, "created_at"@) == Some(r.created_at));
    assert(s_attr(m, "subject_dn"@) == r.subject_dn);
}

/// The attributes an uplink is stored as.
pub open spec fn uplink_item(r: UplinkRecord) -> Map<Seq<char>, AttributeValue> {
    Map::empty().insert("device_id"@, AttributeValue::S(r.device_id)).insert(
        "received_at"@,
        AttributeValue::S(r.received_at),
    ).insert("payload"@, AttributeValue::S(r.payload))
}

/// Each attribute of a stored uplink holds the record field of its own
/// name, as a string.
pub proof fn lemma_uplink_item_fields(r: UplinkRecord)
    ensures
        uplink_item(r).contains_key("device_id"@) && uplink_item(r)["device_id"@]
            == AttributeValue::S(r.device_id),
        uplink_item(r).contains_key("received_at"@) && uplink_item(r)["received_at"@]
            == AttributeValue::S(r.received_at),
        uplink_item(r).contains_key("payload"@) && uplink_item(r)["payload"@] == AttributeValue::S(
            r.payload,
        ),
        uplink_item(r).dom() =~= set!["device_id"@, "received_at"@, "payload"@],
{
    reveal_strlit("device_id");
    reveal_strlit("received_at");
    reveal_strlit("payload");
    assert("device_id"@.len() == 9 && "received_at"@.len() == 11 && "payload"@.len() == 7);
}

/// Store an uplink as an item.
pub fn uplink_to_item(record: &UplinkRecord) -> (item: Item)
    ensures
        item@ == uplink_item(*record),
{
    let mut item = Item::new();
    item.insert("device_id".to_owned(), AttributeValue::S(record.device_id.clone()));
    item.insert("received_at".to_owned(), AttributeValue::S(record.received_at.clone()));
    item.insert("payload".to_owned(), AttributeValue::S(record.payload.clone()));
    item
}

/// Read an uplink back from an item: `device_id` and `received_at` must be
/// strings (`Store("missing device_id")`, `Store("missing received_at")`);
/// a missing or non-string payload reads as empty text, which stands for
/// JSON `null`.
pub fn item_to_uplink(item: &Item) -> (r: Result<UplinkRecord, AppError>)
    ensures
        match r {
            Ok(u) => s_attr(item@, "device_id"@) == Some(u.device_id) && s_attr(
                item@,
                "received_at"@,
            ) == Some(u.received_at) && u.payload@ == match s_attr(item@, "payload"@) {
                Some(p) => p@,
                None => Seq::empty(),
            },
            Err(e) => (e matches AppError::Store(msg) && if s_attr(item@, "device_id"@) is None {
                msg@ == "missing device_id"@
            } else {
                s_attr(item@, "received_at"@) is None && msg@ == "missing received_at"@
            }),
        },
{
    let device_id = match item.get("device_id") {
        Some(AttributeValue::S(v)) => v.clone(),
        _ => return Err(AppError::Store("missing device_id".to_owned())),
    };
    let received_at = match item.get("received_at") {
        Some(AttributeValue::S(v)) => v.clone(),
        _ => return Err(AppError::Store("missing received_at".to_owned())),
    };
    let payload = match item.get("payload") {
        Some(AttributeValue::S(v)) => v.clone(),
        _ => String::new(),
    };
    Ok(UplinkRecord { device_id, received_at, payload })
}

} // verus!
