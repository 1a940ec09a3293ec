//! The plan for a directory: for each group of versions, the file to retain
//! and the files to relocate.

use crate::entry::{can_compare, entry_of, precedes, read_entry, views, Entry, EntryView};
use crate::sorting::{
    all_comparable, insert_position, lemma_insert_position, lemma_sorted_all_comparable,
    lemma_sorted_ascending, lemma_sorted_contains, lemma_sorted_ignores_order,
    lemma_sorted_permutes, sort_entries, sorted, tie_free,
};
use crate::version::at_least_as_new;
use regex::Regex;
use vstd::prelude::*;
use vstd::seq_lib::to_multiset_insert;

verus! {

/// What is to happen to the files of one group.
#[derive(Debug, PartialEq, Eq)]
pub struct GroupPlan {
    /// The key that the files of the group share.
    pub group: String,
    /// The newest file, which stays where it is.
    pub retain: String,
    /// The older files, oldest first, which are to be moved away.
    pub relocate: Vec<String>,
}

/// A [`GroupPlan`] as plain text.
pub struct GroupPlanView {
    /// The group key.
    pub group: Seq<char>,
    /// The name of the file that stays.
    pub retain: Seq<char>,
    /// The names of the files to be moved away, oldest first.
    pub relocate: Seq<Seq<char>>,
}

/// Why no plan was made.
#[derive(Debug, PartialEq, Eq)]
pub enum PlanError {
    /// Two files of `group` carry numeric tokens, and one of these tokens names
    /// no 32-bit integer: the versions of the group cannot be put in order.
    VersionParseOverflow { group: String },
}

/// Strings as plain text, in order.
pub open spec fn texts(strings: Seq<String>) -> Seq<Seq<char>> {
    strings.map_values(|s: String| s@)
}

impl View for GroupPlan {
    type V = GroupPlanView;

    open spec fn view(&self) -> GroupPlanView {
        GroupPlanView { group: self.group@, retain: self.retain@, relocate: texts(self.relocate@) }
    }
}

/// Plans as plain text, in order.
pub open spec fn plan_views(plans: Seq<GroupPlan>) -> Seq<GroupPlanView> {
    plans.map_values(|p: GroupPlan| p@)
}

/// The names of entries, in order.
pub open spec fn names_of(entries: Seq<EntryView>) -> Seq<Seq<char>> {
    entries.map_values(|e: EntryView| e.name)
}

/// The entries of those file names that carry a marker, in the order of the names.
pub open spec fn entries_of(regex: Regex, names: Seq<Seq<char>>) -> Seq<EntryView> {
    names.filter_map(|name: Seq<char>| entry_of(regex, name))
}

/// The group keys of the entries, each once, in the order in which they first occur.
pub open spec fn group_keys(entries: Seq<EntryView>) -> Seq<Seq<char>>
    decreases entries.len(),
{
    if entries.len() == 0 {
        Seq::empty()
    } else {
        let before = group_keys(entries.drop_last());
        if before.contains(entries.last().group) {
            before
        } else {
            before.push(entries.last().group)
        }
    }
}

/// The entries whose group key is `key`, in the order in which they occur.
pub open spec fn members(entries: Seq<EntryView>, key: Seq<char>) -> Seq<EntryView> {
    entries.filter(|entry: EntryView| entry.group == key)
}

/// The plan for one group: its members are sorted from oldest to newest, the
/// last one is retained, and those before it are relocated.
pub open spec fn plan_of(key: Seq<char>, group: Seq<EntryView>) -> GroupPlanView {
    let ordered = sorted(group);
    GroupPlanView {
        group: key,
        retain: ordered.last().name,
        relocate: names_of(ordered.drop_last()),
    }
}

/// The plans for all groups, in the order of [`group_keys`].
pub open spec fn plans_of(entries: Seq<EntryView>) -> Seq<GroupPlanView> {
    let keys = group_keys(entries);
    Seq::new(keys.len(), |i: int| plan_of(keys[i], members(entries, keys[i])))
}

/// The members of each of the first `n` groups can all be compared.
pub open spec fn orderable_up_to(entries: Seq<EntryView>, n: int) -> bool {
    forall|i: int|
        0 <= i < n ==> all_comparable(members(entries, #[trigger] group_keys(entries)[i]))
}

/// Group `i` is the first whose members cannot all be compared.
pub open spec fn first_unorderable(entries: Seq<EntryView>, i: int) -> bool {
    &&& 0 <= i < group_keys(entries).len()
    &&& orderable_up_to(entries, i)
    &&& !all_comparable(members(entries, group_keys(entries)[i]))
}

/// What planning the entries gives: the plans of all groups where each
/// group's members can be compared, and else the key of the first group whose
/// members cannot.
pub open spec fn planned_as(
    entries: Seq<EntryView>,
    outcome: Result<Vec<GroupPlan>, PlanError>,
) -> bool {
    match outcome {
        Ok(plans) => {
            &&& orderable_up_to(entries, group_keys(entries).len() as int)
            &&& plan_views(plans@) == plans_of(entries)
        },
        Err(PlanError::VersionParseOverflow { group }) => exists|i: int|
            first_unorderable(entries, i) && #[trigger] group_keys(entries)[i] == group@,
    }
}

/// Every group has a member.
pub proof fn lemma_groups_have_members(entries: Seq<EntryView>, i: int)
    requires
        0 <= i < group_keys(entries).len(),
    ensures
        members(entries, group_keys(entries)[i]).len() > 0,
    decreases entries.len(),
{
    reveal(Seq::filter);
    if i < group_keys(entries.drop_last()).len() {
        lemma_groups_have_members(entries.drop_last(), i);
    }
}

/// Every entry was read from one of the names, and is what that name yields.
pub proof fn lemma_entries_come_from_names(regex: Regex, names: Seq<Seq<char>>, i: int)
    requires
        0 <= i < entries_of(regex, names).len(),
    ensures
        names.contains(entries_of(regex, names)[i].name),
        entry_of(regex, entries_of(regex, names)[i].name) == Some(entries_of(regex, names)[i]),
    decreases names.len(),
{
    let before = entries_of(regex, names.drop_last());
    if i < before.len() {
        lemma_entries_come_from_names(regex, names.drop_last(), i);
        let name = before[i].name;
        let at = choose|at: int| 0 <= at < names.drop_last().len() && names.drop_last()[at] == name;
        assert(names[at] == name);
    } else {
        assert(names[names.len() - 1] == names.last());
    }
}

/// Every name that carries a marker has its entry among the members of its group,
/// and its group key among the group keys.
pub proof fn lemma_matching_names_are_grouped(regex: Regex, names: Seq<Seq<char>>, i: int)
    requires
        0 <= i < names.len(),
        entry_of(regex, names[i]) is Some,
    ensures
        ({
            let entries = entries_of(regex, names);
            let entry = entry_of(regex, names[i])->0;
            &&& entries.contains(entry)
            &&& group_keys(entries).contains(entry.group)
            &&& members(entries, entry.group).contains(entry)
        }),
    decreases names.len(),
{
    let entries = entries_of(regex, names);
    let entry = entry_of(regex, names[i])->0;
    if i < names.len() - 1 {
        lemma_matching_names_are_grouped(regex, names.drop_last(), i);
        let before = entries_of(regex, names.drop_last());
        let at = choose|at: int| 0 <= at < before.len() && before[at] == entry;
        assert(entries[at] == entry);
    } else {
        assert(entries.last() == entry);
    }
    lemma_entries_are_grouped(entries, entry);
}

/// Every entry stands among the members of its group, and its group key among
/// the group keys.
pub proof fn lemma_entries_are_grouped(entries: Seq<EntryView>, entry: EntryView)
    requires
        entries.contains(entry),
    ensures
        group_keys(entries).contains(entry.group),
        members(entries, entry.group).contains(entry),
    decreases entries.len(),
{
    reveal(Seq::filter);
    let keys_before = group_keys(entries.drop_last());
    let members_before = members(entries.drop_last(), entry.group);
    if entries.last() == entry {
        if keys_before.contains(entry.group) {
        } else {
            assert(keys_before.push(entry.group).last() == entry.group);
        }
        assert(members_before.push(entry).last() == entry);
    } else {
        let at = choose|at: int| 0 <= at < entries.len() && entries[at] == entry;
        assert(entries.drop_last()[at] == entry);
        lemma_entries_are_grouped(entries.drop_last(), entry);
        let k = choose|k: int| 0 <= k < keys_before.len() && keys_before[k] == entry.group;
        assert(group_keys(entries)[k] == entry.group);
        let m = choose|m: int| 0 <= m < members_before.len() && members_before[m] == entry;
        assert(members(entries, entry.group)[m] == entry);
    }
}

/// No group key occurs twice.
pub proof fn lemma_group_keys_distinct(entries: Seq<EntryView>)
    ensures
        group_keys(entries).no_duplicates(),
    decreases entries.len(),
{
    if entries.len() > 0 {
        lemma_group_keys_distinct(entries.drop_last());
    }
}

/// The members of a group are entries that carry the group's key.
pub proof fn lemma_members_share_key(entries: Seq<EntryView>, key: Seq<char>, i: int)
    requires
        0 <= i < members(entries, key).len(),
    ensures
        members(entries, key)[i].group == key,
        entries.contains(members(entries, key)[i]),
    decreases entries.len(),
{
    reveal(Seq::filter);
    let before = members(entries.drop_last(), key);
    if i < before.len() {
        lemma_members_share_key(entries.drop_last(), key, i);
        let entry = before[i];
        let at = choose|at: int| 0 <= at < entries.drop_last().len() && entries.drop_last()[at] == entry;
        assert(entries[at] == entry);
    } else {
        assert(entries[entries.len() - 1] == entries.last());
    }
}

/// A file of another group changes nothing in the plan of a group.
pub proof fn lemma_groups_are_independent(entries: Seq<EntryView>, other: EntryView, key: Seq<char>)
    requires
        other.group != key,
    ensures
        plan_of(key, members(entries.push(other), key)) == plan_of(key, members(entries, key)),
{
    reveal(Seq::filter);
    assert(entries.push(other).drop_last() =~= entries);
}

/// The plan of a group in which no two members tie does not depend on the
/// order in which the members were listed.
pub proof fn lemma_plan_ignores_order(key: Seq<char>, group: Seq<EntryView>, again: Seq<EntryView>)
    requires
        tie_free(group),
        group.to_multiset() == again.to_multiset(),
    ensures
        plan_of(key, group) == plan_of(key, again),
{
    lemma_sorted_ignores_order(group, again);
}

/// Sorting keeps every name, as often as it was given.
pub proof fn lemma_sorted_keeps_names(s: Seq<EntryView>)
    ensures
        names_of(sorted(s)).to_multiset() == names_of(s).to_multiset(),
    decreases s.len(),
{
    if s.len() > 0 {
        let rest = sorted(s.drop_first());
        lemma_sorted_keeps_names(s.drop_first());
        lemma_insert_position(s.first(), rest);
        let at = insert_position(s.first(), rest) as int;
        to_multiset_insert(names_of(rest), at, s.first().name);
        to_multiset_insert(names_of(s.drop_first()), 0, s.first().name);
        assert(names_of(rest.insert(at, s.first())) =~= names_of(rest).insert(at, s.first().name));
        assert(names_of(s.drop_first()).insert(0, s.first().name) =~= names_of(s));
    }
}

/// In the plan of a group whose members can all be compared, every member is
/// either the one that is retained or one of those that are relocated, and the
/// retained file is found to be at least as new as each relocated one.
pub proof fn lemma_retained_is_newest(regex: Regex, names: Seq<Seq<char>>, g: int)
    requires
        0 <= g < group_keys(entries_of(regex, names)).len(),
        all_comparable(members(entries_of(regex, names), group_keys(entries_of(regex, names))[g])),
    ensures
        ({
            let entries = entries_of(regex, names);
            let group = members(entries, group_keys(entries)[g]);
            let plan = plans_of(entries)[g];
            &&& plan.relocate.len() + 1 == group.len()
            &&& plan.relocate.push(plan.retain).to_multiset() == names_of(group).to_multiset()
            &&& forall|j: int|
                0 <= j < plan.relocate.len() ==> at_least_as_new(
                    regex,
                    plan.retain,
                    #[trigger] plan.relocate[j],
                )
        }),
{
    let entries = entries_of(regex, names);
    let key = group_keys(entries)[g];
    let group = members(entries, key);
    let ordered = sorted(group);
    let plan = plans_of(entries)[g];
    lemma_groups_have_members(entries, g);
    lemma_sorted_permutes(group);
    lemma_sorted_keeps_names(group);
    lemma_sorted_ascending(group);
    lemma_sorted_all_comparable(group);
    assert(plan.relocate.push(plan.retain) =~= names_of(ordered));
    let newest = ordered.last();
    assert forall|j: int| 0 <= j < ordered.len() implies entry_of(regex, (#[trigger] ordered[j]).name)
        == Some(ordered[j]) && ordered[j].group == key by {
        assert(ordered.contains(ordered[j]));
        lemma_sorted_contains(group, ordered[j]);
        let m = choose|m: int| 0 <= m < group.len() && group[m] == ordered[j];
        lemma_members_share_key(entries, key, m);
        let e = choose|e: int| 0 <= e < entries.len() && entries[e] == ordered[j];
        lemma_entries_come_from_names(regex, names, e);
    }
    assert forall|j: int| 0 <= j < plan.relocate.len() implies at_least_as_new(
        regex,
        plan.retain,
        #[trigger] plan.relocate[j],
    ) by {
        assert(plan.relocate[j] == ordered[j].name);
        assert(precedes(ordered[j], newest));
        assert(can_compare(ordered[j], newest));
        assert(entry_of(regex, newest.name) == Some(newest));
    }
}

/// Every file of a plan was listed, carries a marker, and yields the key of the
/// plan's group.
pub proof fn lemma_planned_files_were_listed(
    regex: Regex,
    names: Seq<Seq<char>>,
    g: int,
    name: Seq<char>,
)
    requires
        0 <= g < group_keys(entries_of(regex, names)).len(),
        name == plans_of(entries_of(regex, names))[g].retain || plans_of(
            entries_of(regex, names),
        )[g].relocate.contains(name),
    ensures
        names.contains(name),
        entry_of(regex, name) matches Some(entry) && entry.group == group_keys(
            entries_of(regex, names),
        )[g],
{
    let entries = entries_of(regex, names);
    let key = group_keys(entries)[g];
    let group = members(entries, key);
    let ordered = sorted(group);
    let plan = plans_of(entries)[g];
    lemma_groups_have_members(entries, g);
    lemma_sorted_permutes(group);
    let j = if name == plan.retain {
        ordered.len() - 1
    } else {
        choose|j: int| 0 <= j < plan.relocate.len() && plan.relocate[j] == name
    };
    assert(ordered[j].name == name);
    assert(ordered.contains(ordered[j]));
    lemma_sorted_contains(group, ordered[j]);
    let m = choose|m: int| 0 <= m < group.len() && group[m] == ordered[j];
    lemma_members_share_key(entries, key, m);
    let e = choose|e: int| 0 <= e < entries.len() && entries[e] == ordered[j];
    lemma_entries_come_from_names(regex, names, e);
}

/// What planning gives is determined by the entries: two outcomes for the same
/// entries hold the same plans, or name the same group.
pub proof fn lemma_plan_is_determined(
    entries: Seq<EntryView>,
    first: Result<Vec<GroupPlan>, PlanError>,
    second: Result<Vec<GroupPlan>, PlanError>,
)
    requires
        planned_as(entries, first),
        planned_as(entries, second),
    ensures
        match (first, second) {
            (Ok(plans), Ok(again)) => plan_views(plans@) == plan_views(again@),
            (
                Err(PlanError::VersionParseOverflow { group }),
                Err(PlanError::VersionParseOverflow { group: again }),
            ) => group@ == again@,
            _ => false,
        },
{
    let keys = group_keys(entries);
    match (first, second) {
        (Ok(_), Ok(_)) => {},
        (
            Err(PlanError::VersionParseOverflow { group }),
            Err(PlanError::VersionParseOverflow { group: again }),
        ) => {
            let i = choose|i: int| first_unorderable(entries, i) && #[trigger] keys[i] == group@;
            let j = choose|j: int| first_unorderable(entries, j) && #[trigger] keys[j] == again@;
            assert(i == j);
        },
        (Err(PlanError::VersionParseOverflow { group }), Ok(_)) => {
            let i = choose|i: int| first_unorderable(entries, i) && #[trigger] keys[i] == group@;
        },
        (Ok(_), Err(PlanError::VersionParseOverflow { group })) => {
            let i = choose|i: int| first_unorderable(entries, i) && #[trigger] keys[i] == group@;
        },
    }
}

/// Reads the entries of the file names that carry a marker.
pub fn collect_entries(file_names: &Vec<String>, regex: &Regex) -> (entries: Vec<Entry>)
    ensures
        views(entries@) == entries_of(*regex, texts(file_names@)),
{
    let ghost names = texts(file_names@);
    let mut entries: Vec<Entry> = Vec::new();
    let mut i: usize = 0;
    assert(views(entries@) =~= entries_of(*regex, names.take(0)));
    while i < file_names.len()
        invariant
            i <= file_names.len(),
            names == texts(file_names@),
            views(entries@) == entries_of(*regex, names.take(i as int)),
        decreases file_names.len() - i,
    {
        let ghost before = views(entries@);
        proof {
            let longer = names.take(i + 1);
            assert(longer.drop_last() =~= names.take(i as int));
            assert(longer.last() == file_names@[i as int]@);
        }
        match read_entry(file_names[i].as_str(), regex) {
            Some(entry) => {
                entries.push(entry);
                assert(views(entries@) =~= before.push(entry@));
            },
            None => {},
        }
        i = i + 1;
    }
    assert(names.take(i as int) =~= names);
    entries
}

/// Whether `key` is among `keys`.
pub fn holds_key(keys: &Vec<String>, key: &String) -> (found: bool)
    ensures
        found == texts(keys@).contains(key@),
{
    let mut i: usize = 0;
    while i < keys.len()
        invariant
            i <= keys.len(),
            forall|j: int| 0 <= j < i ==> texts(keys@)[j] != key@,
        decreases keys.len() - i,
    {
        if keys[i] == *key {
            assert(texts(keys@)[i as int] == key@);
            return true;
        }
        i = i + 1;
    }
    false
}

/// The group keys of the entries, each once, in the order of first occurrence.
pub fn distinct_groups(entries: &Vec<Entry>) -> (keys: Vec<String>)
    ensures
        texts(keys@) == group_keys(views(entries@)),
{
    let ghost given = views(entries@);
    let mut keys: Vec<String> = Vec::new();
    let mut i: usize = 0;
    assert(texts(keys@) =~= group_keys(given.take(0)));
    while i < entries.len()
        invariant
            i <= entries.len(),
            given == views(entries@),
            texts(keys@) == group_keys(given.take(i as int)),
        decreases entries.len() - i,
    {
        let ghost before = texts(keys@);
        proof {
            let longer = given.take(i + 1);
            assert(longer.drop_last() =~= given.take(i as int));
            assert(longer.last() == entries@[i as int]@);
        }
        if !holds_key(&keys, &entries[i].group) {
            keys.push(entries[i].group.clone());
            assert(texts(keys@) =~= before.push(entries@[i as int]@.group));
        }
        i = i + 1;
    }
    assert(given.take(i as int) =~= given);
    keys
}

/// The entries whose group key is `key`, in the order in which they occur.
pub fn members_of(entries: &Vec<Entry>, key: &String) -> (found: Vec<Entry>)
    ensures
        views(found@) == members(views(entries@), key@),
{
    let ghost given = views(entries@);
    let mut found: Vec<Entry> = Vec::new();
    let mut i: usize = 0;
    assert(views(found@) =~= members(given.take(0), key@)) by {
        reveal(Seq::filter);
    }
    while i < entries.len()
        invariant
            i <= entries.len(),
            given == views(entries@),
            views(found@) == members(given.take(i as int), key@),
        decreases entries.len() - i,
    {
        let ghost before = views(found@);
        proof {
            reveal(Seq::filter);
            let longer = given.take(i + 1);
            assert(longer.drop_last() =~= given.take(i as int));
            assert(longer.last() == entries@[i as int]@);
        }
        let entry = &entries[i];
        if entry.group == *key {
            let copy = Entry {
                name: entry.name.clone(),
                group: entry.group.clone(),
                token: entry.token.clone(),
            };
            found.push(copy);
            assert(views(found@) =~= before.push(entries@[i as int]@));
        }
        i = i + 1;
    }
    assert(given.take(i as int) =~= given);
    found
}

/// The names of the entries, in order.
pub fn entry_names(entries: &Vec<Entry>) -> (names: Vec<String>)
    ensures
        texts(names@) == names_of(views(entries@)),
{
    let mut names: Vec<String> = Vec::new();
    let mut i: usize = 0;
    while i < entries.len()
        invariant
            i <= entries.len(),
            names.len() == i,
            forall|j: int| 0 <= j < i ==> names@[j]@ == entries@[j]@.name,
        decreases entries.len() - i,
    {
        names.push(entries[i].name.clone());
        i = i + 1;
    }
    assert(texts(names@) =~= names_of(views(entries@)));
    names
}

/// Plans one group: the newest of its members is retained, the others are
/// relocated. Fails exactly when two of the members cannot be compared.
pub fn plan_group(key: String, group: Vec<Entry>) -> (outcome: Result<GroupPlan, PlanError>)
    requires
        group.len() > 0,
    ensures
        outcome is Ok <==> all_comparable(views(group@)),
        outcome matches Ok(plan) ==> plan@ == plan_of(key@, views(group@)),
        outcome matches Err(PlanError::VersionParseOverflow { group: named }) ==> named@ == key@,
{
    proof {
        lemma_sorted_permutes(views(group@));
    }
    match sort_entries(group) {
        Ok(ordered) => {
            let mut older = ordered;
            let ghost all = views(older@);
            let newest = older.pop().unwrap();
            assert(views(older@) =~= all.drop_last());
            assert(newest@ == all.last());
            let relocate = entry_names(&older);
            Ok(GroupPlan { group: key, retain: newest.name, relocate })
        },
        Err(_) => Err(PlanError::VersionParseOverflow { group: key }),
    }
}

/// Plans every group of the entries, in the order in which the groups first
/// occur. Fails exactly when some group has two members which cannot be
/// compared, and names the first such group.
pub fn plan_entries(entries: &Vec<Entry>) -> (outcome: Result<Vec<GroupPlan>, PlanError>)
    ensures
        planned_as(views(entries@), outcome),
{
    let ghost given = views(entries@);
    let ghost all_keys = group_keys(given);
    let keys = distinct_groups(entries);
    let mut plans: Vec<GroupPlan> = Vec::new();
    let mut i: usize = 0;
    while i < keys.len()
        invariant
            i <= keys.len(),
            given == views(entries@),
            all_keys == group_keys(given),
            texts(keys@) == all_keys,
            plans.len() == i,
            orderable_up_to(given, i as int),
            forall|j: int|
                0 <= j < i ==> (#[trigger] plans@[j])@ == plan_of(
                    all_keys[j],
                    members(given, all_keys[j]),
                ),
        decreases keys.len() - i,
    {
        assert(texts(keys@)[i as int] == keys@[i as int]@);
        let group = members_of(entries, &keys[i]);
        proof {
            lemma_groups_have_members(given, i as int);
        }
        match plan_group(keys[i].clone(), group) {
            Ok(plan) => {
                plans.push(plan);
            },
            Err(error) => {
                assert(first_unorderable(given, i as int));
                return Err(error);
            },
        }
        i = i + 1;
    }
    assert(plan_views(plans@) =~= plans_of(given));
    Ok(plans)
}

/// Plans a directory from the names of its files: the files that carry a marker
/// are grouped by their group key, and in each group the newest stays while the
/// others are to be relocated. Files without a marker take no part. Fails exactly
/// when some group has two members which cannot be compared, and names the
/// first such group.
pub fn plan_directory(file_names: &Vec<String>, regex: &Regex) -> (outcome: Result<
    Vec<GroupPlan>,
    PlanError,
>)
    ensures
        planned_as(entries_of(*regex, texts(file_names@)), outcome),
{
    let entries = collect_entries(file_names, regex);
    plan_entries(&entries)
}

} // verus!
