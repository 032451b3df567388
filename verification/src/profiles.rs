//! Model profiles under their names.

use vstd::prelude::*;
use vstd::string::*;
use crate::error::HarnessError;
use crate::model;
use crate::model::Modeled;
use crate::protocol::{ModelProfile, ModelProfileView};
use crate::table;

verus! {

/// The order of names: that of their characters.
pub open spec fn precedes(left: Seq<char>, right: Seq<char>) -> bool
    decreases left.len(),
{
    if right.len() == 0 {
        false
    } else if left.len() == 0 {
        true
    } else {
        left[0] < right[0] || (left[0] == right[0] && precedes(left.drop_first(), right.drop_first()))
    }
}

/// The order of names is total: of two names one precedes the other, or they are equal.
pub proof fn names_are_ordered(left: Seq<char>, right: Seq<char>)
    ensures
        precedes(left, right) || precedes(right, left) || left == right,
        !(precedes(left, right) && precedes(right, left)),
        !precedes(left, left),
    decreases left.len(),
{
    if left.len() > 0 {
        names_are_ordered(left.drop_first(), left.drop_first());
    }
    if left.len() > 0 && right.len() > 0 {
        names_are_ordered(left.drop_first(), right.drop_first());
        if left[0] == right[0] && left.drop_first() == right.drop_first() {
            assert(left =~= seq![left[0]] + left.drop_first());
            assert(right =~= seq![right[0]] + right.drop_first());
        }
    } else if left.len() == 0 && right.len() == 0 {
        assert(left =~= right);
    }
}

/// The order of names is transitive.
pub proof fn name_order_is_transitive(first: Seq<char>, second: Seq<char>, third: Seq<char>)
    requires
        precedes(first, second),
        precedes(second, third),
    ensures
        precedes(first, third),
    decreases first.len(),
{
    if first.len() > 0 && first[0] == second[0] && second[0] == third[0] {
        name_order_is_transitive(first.drop_first(), second.drop_first(), third.drop_first());
    }
}

/// How two names are ordered.
#[derive(Clone, Copy, Debug, PartialEq, Eq, Structural)]
pub enum Placement {
    Before,
    Same,
    After,
}

/// Compares two names.
pub fn place(left: &str, right: &str) -> (placement: Placement)
    ensures
        match placement {
            Placement::Before => precedes(left@, right@),
            Placement::Same => left@ == right@,
            Placement::After => precedes(right@, left@),
        },
{
    let left_length: usize = left.unicode_len();
    let right_length: usize = right.unicode_len();
    let mut i: usize = 0;
    assert(left@.skip(0) =~= left@);
    assert(right@.skip(0) =~= right@);
    while i < left_length && i < right_length
        invariant
            i <= left_length,
            i <= right_length,
            left_length == left@.len(),
            right_length == right@.len(),
            left@.take(i as int) == right@.take(i as int),
            precedes(left@.skip(i as int), right@.skip(i as int)) == precedes(left@, right@),
            precedes(right@.skip(i as int), left@.skip(i as int)) == precedes(right@, left@),
        decreases left_length - i,
    {
        let a = left.get_char(i);
        let b = right.get_char(i);
        proof {
            assert(left@.skip(i as int)[0] == a);
            assert(right@.skip(i as int)[0] == b);
            assert(left@.skip(i as int).drop_first() =~= left@.skip(i + 1));
            assert(right@.skip(i as int).drop_first() =~= right@.skip(i + 1));
        }
        if a < b {
            return Placement::Before;
        }
        if b < a {
            return Placement::After;
        }
        assert(left@.take(i + 1) =~= left@.take(i as int).push(a));
        assert(right@.take(i + 1) =~= right@.take(i as int).push(b));
        i += 1;
    }
    if i < right_length {
        Placement::Before
    } else if i < left_length {
        Placement::After
    } else {
        assert(left@.take(i as int) =~= left@);
        assert(right@.take(i as int) =~= right@);
        Placement::Same
    }
}

/// Whether entries stand in the order of their names, each name once.
pub open spec fn in_order(entries: Seq<(String, ModelProfile)>) -> bool {
    forall|i: int, j: int|
        0 <= i < j < entries.len() ==> precedes((#[trigger] entries[i]).0@, (#[trigger] entries[j]).0@)
}

/// Model profiles under their names, in the order of the names.
#[derive(Debug)]
pub struct ModelProfiles {
    entries: Vec<(String, ModelProfile)>,
}

impl View for ModelProfiles {
    type V = Map<Seq<char>, ModelProfileView>;

    closed spec fn view(&self) -> Map<Seq<char>, ModelProfileView> {
        table::entries_map(self.entries@)
    }
}

proof fn lemma_distinct(entries: Seq<(String, ModelProfile)>)
    requires
        in_order(entries),
    ensures
        table::distinct_keys(entries),
{
    assert forall|i: int, j: int| 0 <= i < j < entries.len() implies (#[trigger] entries[i]).0@ != (
    #[trigger] entries[j]).0@ by {
        names_are_ordered(entries[i].0@, entries[j].0@);
    }
}

#[verifier::rlimit(40)]
proof fn lemma_same_entries(
    before: Seq<(String, ModelProfile)>,
    after: Seq<(String, ModelProfile)>,
    name: Seq<char>,
    profile: ModelProfileView,
)
    requires
        in_order(before),
        in_order(after),
        forall|i: int|
            0 <= i < after.len() ==> ((#[trigger] after[i]).0@ == name && after[i].1@ == profile) || (after[i].0@
                != name && exists|k: int| 0 <= k < before.len() && before[k] == after[i]),
        forall|i: int|
            0 <= i < before.len() && (#[trigger] before[i]).0@ != name ==> exists|k: int|
                0 <= k < after.len() && after[k] == before[i],
        exists|i: int| 0 <= i < after.len() && (#[trigger] after[i]).0@ == name,
    ensures
        table::entries_map(after) == table::entries_map(before).insert(name, profile),
{
    lemma_distinct(before);
    lemma_distinct(after);
    table::lemma_entries_map(before);
    table::lemma_entries_map(after);
    let left = table::entries_map(after);
    let right = table::entries_map(before).insert(name, profile);
    assert forall|key: Seq<char>| left.dom().contains(key) <==> right.dom().contains(key) by {
        if left.dom().contains(key) && key != name {
            let i = choose|i: int| 0 <= i < after.len() && (#[trigger] after[i]).0@ == key;
            let k = choose|k: int| 0 <= k < before.len() && before[k] == after[i];
            assert(before[k].0@ == key);
        }
        if right.dom().contains(key) && key != name {
            let i = choose|i: int| 0 <= i < before.len() && (#[trigger] before[i]).0@ == key;
            let k = choose|k: int| 0 <= k < after.len() && after[k] == before[i];
            assert(after[k].0@ == key);
        }
        if key == name {
            let i = choose|i: int| 0 <= i < after.len() && (#[trigger] after[i]).0@ == name;
            assert(left.dom().contains(after[i].0@));
        }
    }
    assert forall|key: Seq<char>| left.dom().contains(key) implies left[key] == right[key] by {
        let i = choose|i: int| 0 <= i < after.len() && (#[trigger] after[i]).0@ == key;
        if key != name {
            let k = choose|k: int| 0 <= k < before.len() && before[k] == after[i];
            assert(before[k].0@ == key);
        }
    }
    assert(left =~= right);
}

impl ModelProfiles {
    /// The profiles with their names, in order.
    pub closed spec fn listed(self) -> Seq<(String, ModelProfile)> {
        self.entries@
    }

    #[verifier::type_invariant]
    spec fn names_in_order(self) -> bool {
        in_order(self.entries@)
    }

    /// No profiles.
    pub fn new() -> (profiles: ModelProfiles)
        ensures
            profiles@ == Map::<Seq<char>, ModelProfileView>::empty(),
            profiles.listed() == Seq::<(String, ModelProfile)>::empty(),
    {
        ModelProfiles { entries: Vec::new() }
    }

    /// Reads the profiles with their names, in order.
    pub fn entries(&self) -> (entries: &Vec<(String, ModelProfile)>)
        ensures
            entries@ == self.listed(),
            in_order(entries@),
            table::entries_map(entries@) == self@,
    {
        proof {
            use_type_invariant(&*self);
        }
        &self.entries
    }

    /// The profile with a name.
    pub fn get(&self, name: &str) -> (profile: Option<&ModelProfile>)
        ensures
            match profile {
                Some(found) => self@.dom().contains(name@) && self@[name@] == found@,
                None => !self@.dom().contains(name@),
            },
    {
        proof {
            use_type_invariant(&*self);
            lemma_distinct(self.entries@);
            table::lemma_entries_map(self.entries@);
        }
        let mut i: usize = 0;
        while i < self.entries.len()
            invariant
                i <= self.entries.len(),
                forall|k: int| 0 <= k < i ==> (#[trigger] self.entries@[k]).0@ != name@,
                forall|k: int|
                    0 <= k < self.entries@.len() ==> self@.dom().contains(
                        (#[trigger] self.entries@[k]).0@,
                    ) && self@[self.entries@[k].0@] == self.entries@[k].1@,
            decreases self.entries.len() - i,
        {
            if self.entries[i].0 == name.to_owned() {
                return Some(&self.entries[i].1);
            }
            i += 1;
        }
        None
    }

    /// Gives a name a profile.
    pub fn insert(&mut self, name: String, profile: ModelProfile)
        ensures
            final(self)@ == old(self)@.insert(name@, profile@),
    {
        proof {
            use_type_invariant(&*self);
        }
        let ghost before = self.entries@;
        let ghost content = profile@;
        let mut taken = ModelProfiles { entries: Vec::new() };
        std::mem::swap(&mut taken, self);
        let mut entries = taken.entries;
        let mut i: usize = 0;
        let mut replaced = false;
        let mut found = false;
        while !found && i < entries.len()
            invariant
                i <= entries.len(),
                entries@ == before,
                in_order(before),
                forall|k: int| 0 <= k < i ==> precedes((#[trigger] before[k]).0@, name@),
                replaced ==> found && i < before.len() && before[i as int].0@ == name@,
                found && !replaced ==> i < before.len() && precedes(name@, before[i as int].0@),
            decreases entries.len() - i, if found { 0int } else { 1int },
        {
            match place(entries[i].0.as_str(), name.as_str()) {
                Placement::Before => {
                    i += 1;
                },
                Placement::Same => {
                    replaced = true;
                    found = true;
                },
                Placement::After => {
                    found = true;
                },
            }
        }
        let ghost key = name@;
        if replaced {
            entries[i] = (name, profile);
            proof {
                let after = entries@;
                assert forall|a: int, b: int| 0 <= a < b < after.len() implies precedes(
                    (#[trigger] after[a]).0@,
                    (#[trigger] after[b]).0@,
                ) by {
                    assert(precedes(before[a].0@, before[b].0@));
                }
                assert forall|k: int| 0 <= k < after.len() implies ((#[trigger] after[k]).0@ == key && after[k].1@
                    == content) || (after[k].0@ != key && exists|m: int|
                    0 <= m < before.len() && before[m] == after[k]) by {
                    if k != i {
                        assert(before[k] == after[k]);
                        if k < i {
                            names_are_ordered(before[k].0@, before[i as int].0@);
                        } else {
                            names_are_ordered(before[i as int].0@, before[k].0@);
                        }
                    }
                }
                assert forall|k: int| 0 <= k < before.len() && (#[trigger] before[k]).0@ != key implies exists|m: int|
                    0 <= m < after.len() && after[m] == before[k] by {
                    assert(after[k] == before[k]);
                }
                assert(after[i as int].0@ == key);
                lemma_same_entries(before, after, key, content);
            }
        } else {
            entries.insert(i, (name, profile));
            proof {
                let after = entries@;
                let position = i as int;
                assert forall|a: int, b: int| 0 <= a < b < after.len() implies precedes(
                    (#[trigger] after[a]).0@,
                    (#[trigger] after[b]).0@,
                ) by {
                    let x = if a < position { a } else { a - 1 };
                    let y = if b < position { b } else { b - 1 };
                    if a == position {
                        assert(after[b] == before[y]);
                        if y > position {
                            name_order_is_transitive(key, before[position].0@, before[y].0@);
                        }
                    } else if b == position {
                        assert(after[a] == before[a]);
                    } else {
                        assert(after[a] == before[x] && after[b] == before[y]);
                    }
                }
                assert forall|k: int| 0 <= k < after.len() implies ((#[trigger] after[k]).0@ == key && after[k].1@
                    == content) || (after[k].0@ != key && exists|m: int|
                    0 <= m < before.len() && before[m] == after[k]) by {
                    if k != position {
                        let m = if k < position { k } else { k - 1 };
                        assert(before[m] == after[k]);
                        if k < position {
                            names_are_ordered(after[k].0@, after[position].0@);
                        } else {
                            names_are_ordered(after[position].0@, after[k].0@);
                        }
                    }
                }
                assert forall|k: int| 0 <= k < before.len() && (#[trigger] before[k]).0@ != key implies exists|m: int|
                    0 <= m < after.len() && after[m] == before[k] by {
                    let m = if k < position { k } else { k + 1 };
                    assert(after[m] == before[k]);
                }
                assert(after[position].0@ == key);
                lemma_same_entries(before, after, key, content);
            }
        }
        *self = ModelProfiles { entries };
    }
}

/// Whether a provider is configured.
pub open spec fn has_provider(providers: Seq<Seq<char>>, provider: Seq<char>) -> bool {
    providers.contains(provider)
}

/// Tests whether a provider is configured.
pub fn knows_provider(providers: &Vec<String>, provider: &String) -> (answer: bool)
    ensures
        answer == has_provider(model::views(providers@), provider@),
{
    let ghost all = model::views(providers@);
    let mut i: usize = 0;
    while i < providers.len()
        invariant
            i <= providers.len(),
            all == model::views(providers@),
            forall|k: int| 0 <= k < i ==> #[trigger] all[k] != provider@,
        decreases providers.len() - i,
    {
        if providers[i] == *provider {
            assert(all[i as int] == provider@);
            return true;
        }
        assert(all[i as int] != provider@);
        i += 1;
    }
    false
}

/// What is wrong with a profile: its limits, or its provider.
pub open spec fn profile_fault(
    entry: (String, ModelProfile),
    limits: Option<String>,
    providers: Seq<Seq<char>>,
) -> Option<Seq<char>> {
    match limits {
        Some(fault) => Some("model profile `"@ + entry.0@ + "`: "@ + fault@),
        None => if !has_provider(providers, entry.1.provider@) {
            Some(
                "model profile `"@ + entry.0@ + "` uses unknown provider `"@ + entry.1.provider@ + "`"@,
            )
        } else {
            None
        },
    }
}

/// What is wrong with the first profile that has a fault.
pub open spec fn first_fault(
    entries: Seq<(String, ModelProfile)>,
    limits: Seq<Option<String>>,
    providers: Seq<Seq<char>>,
) -> Option<Seq<char>>
    decreases entries.len(),
{
    if entries.len() == 0 {
        None
    } else {
        match first_fault(entries.drop_last(), limits, providers) {
            Some(fault) => Some(fault),
            None => profile_fault(entries.last(), limits[entries.len() - 1], providers),
        }
    }
}

proof fn lemma_fault_stays(
    entries: Seq<(String, ModelProfile)>,
    limits: Seq<Option<String>>,
    providers: Seq<Seq<char>>,
    count: int,
)
    requires
        0 <= count <= entries.len(),
        first_fault(entries.take(count), limits, providers) is Some,
    ensures
        first_fault(entries, limits, providers) == first_fault(entries.take(count), limits, providers),
    decreases entries.len(),
{
    if count < entries.len() {
        assert(entries.drop_last().take(count) =~= entries.take(count));
        lemma_fault_stays(entries.drop_last(), limits, providers, count);
    } else {
        assert(entries.take(count) =~= entries);
    }
}

/// Refuses profiles that cannot be used: the default must be one of them, and each
/// must have sound limits and a configured provider. `limits` tells what is wrong with
/// the limits of each profile, in the order of their names.
pub fn validate_model_profiles(
    providers: &Vec<String>,
    models: &ModelProfiles,
    limits: &Vec<Option<String>>,
    default_model: &str,
) -> (valid: Result<(), HarnessError>)
    requires
        limits.len() == models.listed().len(),
    ensures
        match valid {
            Ok(()) => models@.dom().contains(default_model@) && first_fault(
                models.listed(),
                limits@,
                model::views(providers@),
            ) is None,
            Err(error) => if !models@.dom().contains(default_model@) {
                error matches HarnessError::UnknownModelProfile(name) && name@ == default_model@
            } else {
                error matches HarnessError::InvalidProfile(reason) && first_fault(
                    models.listed(),
                    limits@,
                    model::views(providers@),
                ) == Some(reason@)
            },
        },
{
    if models.get(default_model).is_none() {
        return Err(HarnessError::UnknownModelProfile(default_model.to_owned()));
    }
    let entries = models.entries();
    let ghost names = model::views(providers@);
    let mut i: usize = 0;
    while i < entries.len()
        invariant
            i <= entries.len(),
            entries@ == models.listed(),
            limits.len() == entries.len(),
            names == model::views(providers@),
            models@.dom().contains(default_model@),
            first_fault(entries@.take(i as int), limits@, names) is None,
        decreases entries.len() - i,
    {
        let (name, profile) = &entries[i];
        proof {
            assert(entries@.take(i + 1).drop_last() =~= entries@.take(i as int));
            assert(entries@.take(i + 1).last() == entries@[i as int]);
        }
        if let Some(fault) = &limits[i] {
            let mut reason = "model profile `".to_owned();
            reason.append(name.as_str());
            reason.append("`: ");
            reason.append(fault.as_str());
            proof {
                lemma_fault_stays(entries@, limits@, names, i + 1);
            }
            return Err(HarnessError::InvalidProfile(reason));
        }
        if !knows_provider(providers, &profile.provider) {
            let mut reason = "model profile `".to_owned();
            reason.append(name.as_str());
            reason.append("` uses unknown provider `");
            reason.append(profile.provider.as_str());
            reason.append("`");
            proof {
                lemma_fault_stays(entries@, limits@, names, i + 1);
            }
            return Err(HarnessError::InvalidProfile(reason));
        }
        i += 1;
    }
    assert(entries@.take(i as int) =~= entries@);
    Ok(())
}

/// Finds the profile that an agent is to use.
pub fn resolve_profile(models: &ModelProfiles, name: &str) -> (profile: Result<ModelProfile, HarnessError>)
    ensures
        match profile {
            Ok(found) => models@.dom().contains(name@) && models@[name@] == found@,
            Err(error) => !models@.dom().contains(name@) && (error matches HarnessError::UnknownModelProfile(text)
                && text@ == name@),
        },
{
    match models.get(name) {
        Some(found) => Ok(found.duplicate()),
        None => Err(HarnessError::UnknownModelProfile(name.to_owned())),
    }
}

/// One name precedes another where it is the beginning of it, or has the smaller character
/// where they first differ.
pub proof fn names_are_compared_by_characters(left: Seq<char>, right: Seq<char>, index: int)
    requires
        0 <= index <= left.len(),
        index <= right.len(),
        forall|k: int| 0 <= k < index ==> #[trigger] left[k] == right[k],
        index < left.len() && index < right.len() ==> left[index] != right[index],
    ensures
        precedes(left, right) <==> index < right.len() && (index == left.len() || left[index] < right[index]),
    decreases left.len(),
{
    if index > 0 {
        assert(left[0] == right[0]);
        let a = left.drop_first();
        let b = right.drop_first();
        assert forall|k: int| 0 <= k < index - 1 implies #[trigger] a[k] == b[k] by {
            assert(a[k] == left[k + 1]);
        }
        names_are_compared_by_characters(a, b, index - 1);
    }
}

/// A profile is sound where its limits are and its provider is configured. A fault of its
/// limits is told before one of its provider, and either names the profile.
pub proof fn sound_profiles_have_no_fault(
    entry: (String, ModelProfile),
    limits: Option<String>,
    providers: Seq<Seq<char>>,
)
    ensures
        profile_fault(entry, limits, providers) is None <==> limits is None && providers.contains(
            entry.1.provider@,
        ),
        limits matches Some(fault) ==> profile_fault(entry, limits, providers) == Some(
            "model profile `"@ + entry.0@ + "`: "@ + fault@,
        ),
        limits is None && !providers.contains(entry.1.provider@) ==> profile_fault(entry, limits, providers) == Some(
            "model profile `"@ + entry.0@ + "` uses unknown provider `"@ + entry.1.provider@ + "`"@,
        ),
{
}

/// The fault that is told is that of the first profile that has one, and none is told where
/// no profile has one.
pub proof fn the_first_faulty_profile_is_told(
    entries: Seq<(String, ModelProfile)>,
    limits: Seq<Option<String>>,
    providers: Seq<Seq<char>>,
    index: int,
)
    requires
        0 <= index <= entries.len(),
        forall|k: int|
            0 <= k < index ==> profile_fault(#[trigger] entries[k], limits[k], providers) is None,
        index < entries.len() ==> profile_fault(entries[index], limits[index], providers) is Some,
    ensures
        first_fault(entries, limits, providers) == if index < entries.len() {
            profile_fault(entries[index], limits[index], providers)
        } else {
            None
        },
    decreases entries.len(),
{
    if entries.len() > 0 {
        let rest = entries.drop_last();
        let last = entries.len() - 1;
        assert(entries[last] == entries.last());
        assert forall|k: int| 0 <= k < rest.len() implies #[trigger] rest[k] == entries[k] by {}
        if index <= last {
            assert forall|k: int| 0 <= k < index implies profile_fault(#[trigger] rest[k], limits[k], providers) is None by {
                assert(profile_fault(entries[k], limits[k], providers) is None);
            }
            the_first_faulty_profile_is_told(rest, limits, providers, index);
        } else {
            assert(profile_fault(entries[last], limits[last], providers) is None);
            assert forall|k: int| 0 <= k < last implies profile_fault(#[trigger] rest[k], limits[k], providers) is None by {
                assert(profile_fault(entries[k], limits[k], providers) is None);
            }
            the_first_faulty_profile_is_told(rest, limits, providers, last);
        }
    }
}

} // verus!
