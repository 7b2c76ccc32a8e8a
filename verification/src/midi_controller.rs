//! Executable profile data model: `Group`, `Application` and
//! `ControllerProfile`, verified against the ghost model in
//! [`crate::profile_model`].

use vstd::prelude::*;

use crate::profile_model::GroupView;
use crate::profile_model::ProfileEntry;
use crate::profile_model::ProfileView;
use crate::profile_model::contains_group;
use crate::profile_model::dedup_entries;
use crate::profile_model::distinct_groups;
use crate::profile_model::fresh_entries;
use crate::profile_model::lemma_dedup_entries_distinct_groups;
use crate::profile_model::seed_entries;
use crate::profile_model::apply_add;
use crate::profile_model::has_group_named;
use crate::profile_model::is_first_match;
use crate::profile_model::lemma_add_to_first_named_group;
use crate::profile_model::lemma_add_unknown_group_is_no_op;
use crate::profile_model::lemma_apply_add_preserves_distinct;
use crate::profile_model::GroupRecordView;
use crate::profile_model::entries_of_parts;
use crate::profile_model::entry_of_part;
use crate::profile_model::part_of_entry;
use crate::profile_model::parts_of_entries;
use crate::profile_model::rebuild_entries;

verus! {

/// Turns an optional owned string into its optional view.
pub open spec fn opt_view(o: Option<String>) -> Option<Seq<char>> {
    match o {
        Some(s) => Some(s@),
        None => None,
    }
}

/// One logical control-surface element (for example a fader), identified by
/// name and optionally bound to a volume control and a mute control.
pub struct Group {
    name: String,
    volume: Option<String>,
    mute: Option<String>,
}

impl View for Group {
    type V = GroupView;

    closed spec fn view(&self) -> GroupView {
        GroupView {
            name: self.name@,
            volume: opt_view(self.volume),
            mute: opt_view(self.mute),
        }
    }
}

impl Group {
    /// Builds a group with the given name and both bindings unset.
    /// Any name is accepted, the empty string too.
    pub fn new(name: &str) -> (g: Group)
        ensures
            g@.name == name@,
            g@.volume is None,
            g@.mute is None,
    {
        Group { name: name.to_owned(), volume: None, mute: None }
    }

    /// Builds a group with the given name and the given control bindings.
    pub fn with_bindings(name: &str, volume: Option<String>, mute: Option<String>) -> (g: Group)
        ensures
            g@.name == name@,
            g@.volume == opt_view(volume),
            g@.mute == opt_view(mute),
    {
        Group { name: name.to_owned(), volume, mute }
    }

    /// Returns the group's name.
    pub fn get_name(&self) -> (r: &str)
        ensures
            r@ == self@.name,
    {
        self.name.as_str()
    }

    /// Returns the identifier of the bound volume control, if one is set.
    pub fn get_volume(&self) -> (r: &Option<String>)
        ensures
            opt_view(*r) == self@.volume,
    {
        &self.volume
    }

    /// Returns the identifier of the bound mute control, if one is set.
    pub fn get_mute(&self) -> (r: &Option<String>)
        ensures
            opt_view(*r) == self@.mute,
    {
        &self.mute
    }
}

/// One controllable audio-producing program, identified by the name of its
/// stream as the audio server reports it. Its view is that name.
pub struct Application {
    name: String,
}

impl View for Application {
    type V = Seq<char>;

    closed spec fn view(&self) -> Seq<char> {
        self.name@
    }
}

impl Application {
    /// Builds an application reference by name. The name is not checked
    /// against any live registry of streams.
    pub fn new(name: &str) -> (a: Application)
        ensures
            a@ == name@,
    {
        Application { name: name.to_owned() }
    }

    /// Returns the application's name.
    pub fn get_name(&self) -> (r: &str)
        ensures
            r@ == self@,
    {
        self.name.as_str()
    }
}

/// The views of a sequence of applications, in order.
pub open spec fn app_views(s: Seq<Application>) -> Seq<Seq<char>> {
    s.map_values(|a: Application| a@)
}

/// The views of a sequence of groups, in order.
pub open spec fn group_views(s: Seq<Group>) -> Seq<GroupView> {
    s.map_values(|g: Group| g@)
}

/// The view of the stored group entries: each group's view paired with the
/// views of the applications assigned to it, in order.
pub open spec fn entries_view(gs: Seq<(Group, Vec<Application>)>) -> Seq<ProfileEntry> {
    Seq::new(gs.len(), |i: int| (gs[i].0@, app_views(gs[i].1@)))
}

/// The serialized form of one group entry: the group's name, its optional
/// volume and mute bindings, and the names of its assigned applications.
pub type GroupRecord = (String, Option<String>, Option<String>, Vec<String>);

/// The views of a sequence of owned strings, in order.
pub open spec fn strings_view(s: Seq<String>) -> Seq<Seq<char>> {
    s.map_values(|x: String| x@)
}

/// The view of one serialized group record.
pub open spec fn record_view(r: GroupRecord) -> GroupRecordView {
    (r.0@, opt_view(r.1), opt_view(r.2), strings_view(r.3@))
}

/// The views of a sequence of serialized group records, in order.
pub open spec fn records_view(s: Seq<GroupRecord>) -> Seq<GroupRecordView> {
    Seq::new(s.len(), |i: int| record_view(s[i]))
}

/// Copies an optional string.
fn clone_opt(o: &Option<String>) -> (r: Option<String>)
    ensures
        opt_view(r) == opt_view(*o),
{
    match o {
        Option::None => Option::None,
        Option::Some(s) => Option::Some(s.clone()),
    }
}

/// Copies out the names of the given applications, in order.
fn app_names(apps: &Vec<Application>) -> (r: Vec<String>)
    ensures
        strings_view(r@) == app_views(apps@),
{
    let n = apps.len();
    let mut r: Vec<String> = Vec::new();
    let mut i: usize = 0;
    while i < n
        invariant
            n == apps@.len(),
            i <= n,
            r@.len() == i,
            forall|j: int| 0 <= j < i ==> (#[trigger] r@[j])@ == apps@[j]@,
        decreases n - i,
    {
        r.push(apps[i].name.clone());
        i += 1;
    }
    proof {
        assert(strings_view(r@) =~= app_views(apps@));
    }
    r
}

/// Builds application references carrying the given names, in order.
fn apps_of_names(names: Vec<String>) -> (r: Vec<Application>)
    ensures
        app_views(r@) == strings_view(names@),
{
    let ghost nvs = names@;
    let n = names.len();
    let mut rest = names;
    let mut r: Vec<Application> = Vec::new();
    let mut i: usize = 0;
    while i < n
        invariant
            n == nvs.len(),
            rest@.len() == n - i,
            forall|j: int| 0 <= j < n - i ==> (#[trigger] rest@[j])@ == nvs[i + j]@,
            i <= n,
            r@.len() == i,
            forall|j: int| 0 <= j < i ==> (#[trigger] r@[j])@ == nvs[j]@,
        decreases n - i,
    {
        let ghost rest_before = rest@;
        let s = rest.remove(0);
        proof {
            assert forall|j: int| 0 <= j < n - (i + 1) implies (#[trigger] rest@[j])@ == nvs[i + 1
                + j]@ by {
                assert(rest@[j] == rest_before[j + 1]);
            }
        }
        r.push(Application { name: s });
        i += 1;
    }
    proof {
        assert(app_views(r@) =~= strings_view(nvs));
    }
    r
}

/// Compares two optional strings by contents.
fn opt_str_eq(a: &Option<String>, b: &Option<String>) -> (r: bool)
    ensures
        r == (opt_view(*a) == opt_view(*b)),
{
    match (a, b) {
        (Option::None, Option::None) => true,
        (Option::Some(x), Option::Some(y)) => *x == *y,
        _ => false,
    }
}

/// Compares two groups by full value: name, volume binding and mute binding.
fn group_eq(a: &Group, b: &Group) -> (r: bool)
    ensures
        r == (a@ == b@),
{
    let r = a.name == b.name && opt_str_eq(&a.volume, &b.volume) && opt_str_eq(&a.mute, &b.mute);
    proof {
        if r {
            assert(a@ =~= b@);
        }
    }
    r
}

/// Reports whether some stored entry is keyed by exactly the given group
/// value.
fn contains_group_exec(entries: &Vec<(Group, Vec<Application>)>, g: &Group) -> (r: bool)
    ensures
        r == contains_group(entries_view(entries@), g@),
{
    let ghost es = entries_view(entries@);
    let n = entries.len();
    let mut i: usize = 0;
    while i < n
        invariant
            n == entries@.len(),
            es == entries_view(entries@),
            i <= n,
            forall|j: int| 0 <= j < i ==> (#[trigger] es[j]).0 != g@,
        decreases n - i,
    {
        if group_eq(&entries[i].0, g) {
            assert(es[i as int].0 == g@);
            return true;
        }
        i += 1;
    }
    false
}

/// Finds the index of the first stored entry whose group carries the given
/// name, scanning the entries in order.
fn find_group_index(entries: &Vec<(Group, Vec<Application>)>, target: &str) -> (r: Option<usize>)
    ensures
        match r {
            Some(i) => is_first_match(entries_view(entries@), target@, i as int),
            None => !has_group_named(entries_view(entries@), target@),
        },
{
    let ghost es = entries_view(entries@);
    let t: String = target.to_owned();
    let n = entries.len();
    let mut i: usize = 0;
    while i < n
        invariant
            n == entries@.len(),
            es == entries_view(entries@),
            t@ == target@,
            i <= n,
            forall|j: int| 0 <= j < i ==> (#[trigger] es[j]).0.name != target@,
        decreases n - i,
    {
        if entries[i].0.name == t {
            assert(es[i as int].0.name == target@);
            return Some(i);
        }
        i += 1;
    }
    None
}

/// A named configuration mapping each of its groups to the ordered list of
/// applications currently assigned to it.
pub struct ControllerProfile {
    name: String,
    groups: Vec<(Group, Vec<Application>)>,
}

impl View for ControllerProfile {
    type V = ProfileView;

    closed spec fn view(&self) -> ProfileView {
        ProfileView { name: self.name@, entries: entries_view(self.groups@) }
    }
}

impl ControllerProfile {
    /// A profile is well formed when no two of its entries are keyed by the
    /// same full group value. Every constructor establishes this and every
    /// operation preserves it.
    pub open spec fn wf(&self) -> bool {
        distinct_groups(self@.entries)
    }

    /// Builds a profile that associates each supplied group with a fresh
    /// empty application list. A group value supplied twice yields a single
    /// entry, as a mapping admits each key once.
    pub fn new(name: &str, groups: Vec<Group>) -> (p: ControllerProfile)
        ensures
            p@.name == name@,
            p@.entries == fresh_entries(group_views(groups@)),
            p.wf(),
    {
        let ghost gvs = group_views(groups@);
        let n = groups.len();
        let mut gs = groups;
        let mut entries: Vec<(Group, Vec<Application>)> = Vec::new();
        let mut i: usize = 0;
        while i < n
            invariant
                n == gvs.len(),
                gs@.len() == n - i,
                forall|j: int| 0 <= j < n - i ==> (#[trigger] gs@[j])@ == gvs[i + j],
                i <= n,
                entries_view(entries@) == dedup_entries(seed_entries(gvs.take(i as int))),
            decreases n - i,
        {
            let ghost gs_before = gs@;
            let g = gs.remove(0);
            proof {
                assert(g@ == gvs[i as int]);
                assert forall|j: int| 0 <= j < n - (i + 1) implies (#[trigger] gs@[j])@ == gvs[i + 1
                    + j] by {
                    assert(gs@[j] == gs_before[j + 1]);
                }
            }
            let ghost prior = entries_view(entries@);
            proof {
                let seeded_next = seed_entries(gvs.take(i + 1));
                assert(gvs.take(i + 1).drop_last() =~= gvs.take(i as int));
                assert(gvs.take(i + 1).last() == gvs[i as int]);
                assert(seeded_next == seed_entries(gvs.take(i as int)).push(
                    (gvs[i as int], Seq::<Seq<char>>::empty()),
                ));
                assert(seeded_next.drop_last() =~= seed_entries(gvs.take(i as int)));
                assert(seeded_next.last() == (gvs[i as int], Seq::<Seq<char>>::empty()));
            }
            if !contains_group_exec(&entries, &g) {
                let assigned: Vec<Application> = Vec::new();
                proof {
                    assert(app_views(assigned@) =~= Seq::<Seq<char>>::empty());
                }
                entries.push((g, assigned));
                proof {
                    assert(entries_view(entries@) =~= prior.push(
                        (gvs[i as int], Seq::<Seq<char>>::empty()),
                    ));
                }
            }
            i += 1;
            proof {
                assert(entries_view(entries@) == dedup_entries(seed_entries(gvs.take(i as int))));
            }
        }
        proof {
            assert(gvs.take(n as int) =~= gvs);
            lemma_dedup_entries_distinct_groups(seed_entries(gvs));
        }
        ControllerProfile { name: name.to_owned(), groups: entries }
    }

    /// Returns the profile's name.
    pub fn get_name(&self) -> (r: &str)
        ensures
            r@ == self@.name,
    {
        self.name.as_str()
    }

    /// Appends `app` to the application list of the first group whose name
    /// equals `group_name`. The lookup goes by name alone, though entries are
    /// keyed by full group value: of several groups sharing a name, only the
    /// first in storage order receives the application. When no group carries
    /// the name, nothing changes and no error is signalled.
    pub fn add_application(&mut self, group_name: &str, app: Application)
        ensures
            final(self)@.name == old(self)@.name,
            final(self)@.entries == apply_add(old(self)@.entries, group_name@, app@),
            old(self).wf() ==> final(self).wf(),
    {
        let ghost es = entries_view(self.groups@);
        match find_group_index(&self.groups, group_name) {
            Some(i) => {
                let slot = &mut self.groups[i];
                slot.1.push(app);
                proof {
                    assert(app_views(self.groups@[i as int].1@) =~= es[i as int].1.push(app@));
                    assert(entries_view(self.groups@) =~= es.update(
                        i as int,
                        (es[i as int].0, es[i as int].1.push(app@)),
                    ));
                    lemma_add_to_first_named_group(es, group_name@, app@, i as int);
                    if old(self).wf() {
                        lemma_apply_add_preserves_distinct(es, group_name@, app@);
                    }
                }
            },
            None => {
                proof {
                    lemma_add_unknown_group_is_no_op(es, group_name@, app@);
                }
            },
        }
    }

    /// Returns a read-only view of the group entries: each group paired with
    /// the ordered list of applications assigned to it.
    pub fn get_groups(&self) -> (r: &Vec<(Group, Vec<Application>)>)
        ensures
            entries_view(r@) == self@.entries,
    {
        &self.groups
    }

    /// Serializes the profile into plain values: its name, and one record
    /// per group holding the group's name, its bindings and the names of its
    /// assigned applications, in order.
    pub fn to_parts(&self) -> (r: (String, Vec<GroupRecord>))
        ensures
            r.0@ == self@.name,
            records_view(r.1@) == parts_of_entries(self@.entries),
    {
        let ghost es = entries_view(self.groups@);
        let n = self.groups.len();
        let mut records: Vec<GroupRecord> = Vec::new();
        let mut i: usize = 0;
        while i < n
            invariant
                n == self.groups@.len(),
                es == entries_view(self.groups@),
                i <= n,
                records_view(records@) == parts_of_entries(es.take(i as int)),
            decreases n - i,
        {
            let entry = &self.groups[i];
            let names = app_names(&entry.1);
            let rec: GroupRecord = (
                entry.0.name.clone(),
                clone_opt(&entry.0.volume),
                clone_opt(&entry.0.mute),
                names,
            );
            let ghost prev = records_view(records@);
            records.push(rec);
            proof {
                assert(es[i as int] == (self.groups@[i as int].0@, app_views(
                    self.groups@[i as int].1@,
                )));
                assert(record_view(rec) == part_of_entry(es[i as int]));
                assert(es.take(i + 1).drop_last() =~= es.take(i as int));
                assert(es.take(i + 1).last() == es[i as int]);
                assert(records_view(records@) =~= prev.push(part_of_entry(es[i as int])));
            }
            i += 1;
        }
        proof {
            assert(es.take(n as int) =~= es);
        }
        (self.name.clone(), records)
    }

    /// Rebuilds a profile from its serialized form: the given name, and one
    /// group entry per record, in order, deduplicated by full group value
    /// with the first occurrence kept.
    pub fn from_parts(name: &str, records: Vec<GroupRecord>) -> (p: ControllerProfile)
        ensures
            p@.name == name@,
            p@.entries == rebuild_entries(records_view(records@)),
            p.wf(),
    {
        let ghost rvs = records_view(records@);
        let n = records.len();
        let mut rest = records;
        let mut entries: Vec<(Group, Vec<Application>)> = Vec::new();
        let mut i: usize = 0;
        while i < n
            invariant
                n == rvs.len(),
                rest@.len() == n - i,
                forall|j: int| 0 <= j < n - i ==> record_view(#[trigger] rest@[j]) == rvs[i + j],
                i <= n,
                entries_view(entries@) == dedup_entries(entries_of_parts(rvs.take(i as int))),
            decreases n - i,
        {
            let ghost rest_before = rest@;
            let rec = rest.remove(0);
            proof {
                assert(record_view(rec) == rvs[i as int]);
                assert forall|j: int| 0 <= j < n - (i + 1) implies record_view(
                    #[trigger] rest@[j],
                ) == rvs[i + 1 + j] by {
                    assert(rest@[j] == rest_before[j + 1]);
                }
            }
            let (gname, volume, mute, names) = rec;
            let g = Group { name: gname, volume, mute };
            let apps = apps_of_names(names);
            proof {
                assert(g@ =~= entry_of_part(rvs[i as int]).0);
                assert(rvs.take(i + 1).drop_last() =~= rvs.take(i as int));
                assert(rvs.take(i + 1).last() == rvs[i as int]);
                let parts_next = entries_of_parts(rvs.take(i + 1));
                assert(parts_next == entries_of_parts(rvs.take(i as int)).push(
                    entry_of_part(rvs[i as int]),
                ));
                assert(parts_next.drop_last() =~= entries_of_parts(rvs.take(i as int)));
                assert(parts_next.last() == entry_of_part(rvs[i as int]));
            }
            let ghost prior = entries_view(entries@);
            if !contains_group_exec(&entries, &g) {
                entries.push((g, apps));
                proof {
                    assert(entries_view(entries@) =~= prior.push(entry_of_part(rvs[i as int])));
                }
            }
            i += 1;
            proof {
                assert(entries_view(entries@) == dedup_entries(
                    entries_of_parts(rvs.take(i as int)),
                ));
            }
        }
        proof {
            assert(rvs.take(n as int) =~= rvs);
            lemma_dedup_entries_distinct_groups(entries_of_parts(rvs));
        }
        ControllerProfile { name: name.to_owned(), groups: entries }
    }
}

/// Lists, for display, each group's name together with the names of the
/// applications assigned to it, in the profile's storage order.
pub fn get_groups_for_profile(profile: &ControllerProfile) -> (r: Vec<(String, Vec<String>)>)
    ensures
        r@.len() == profile@.entries.len(),
        forall|i: int|
            0 <= i < r@.len() ==> (#[trigger] r@[i]).0@ == profile@.entries[i].0.name
                && strings_view(r@[i].1@) == profile@.entries[i].1,
{
    let ghost es = entries_view(profile.groups@);
    let n = profile.groups.len();
    let mut r: Vec<(String, Vec<String>)> = Vec::new();
    let mut i: usize = 0;
    while i < n
        invariant
            n == profile.groups@.len(),
            es == entries_view(profile.groups@),
            i <= n,
            r@.len() == i,
            forall|j: int|
                0 <= j < i ==> (#[trigger] r@[j]).0@ == es[j].0.name && strings_view(r@[j].1@)
                    == es[j].1,
        decreases n - i,
    {
        let entry = &profile.groups[i];
        let names = app_names(&entry.1);
        r.push((entry.0.name.clone(), names));
        i += 1;
    }
    r
}

} // verus!
