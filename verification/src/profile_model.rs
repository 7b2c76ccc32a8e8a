//! Mathematical model of controller profiles: ghost views of groups and
//! profiles, and the specification functions that the executable operations
//! are proved against.

use vstd::prelude::*;

verus! {

/// Ghost view of a fader group: its name and its optional volume-control and
/// mute-control bindings, all as character sequences.
#[verifier::ext_equal]
pub ghost struct GroupView {
    pub name: Seq<char>,
    pub volume: Option<Seq<char>>,
    pub mute: Option<Seq<char>>,
}

/// One entry of a profile's mapping: a group together with the ordered list
/// of names of the applications assigned to it.
pub type ProfileEntry = (GroupView, Seq<Seq<char>>);

/// Ghost view of a controller profile: its name, and its group entries in the
/// order the profile stores them.
#[verifier::ext_equal]
pub ghost struct ProfileView {
    pub name: Seq<char>,
    pub entries: Seq<ProfileEntry>,
}

/// Holds when no two entries are keyed by the same full group value
/// (name, volume and mute all equal).
pub open spec fn distinct_groups(es: Seq<ProfileEntry>) -> bool {
    forall|i: int, j: int|
        0 <= i < es.len() && 0 <= j < es.len() && i != j ==> (#[trigger] es[i]).0 != (#[trigger] es[j]).0
}

/// Holds when some entry's group carries the given name.
pub open spec fn has_group_named(es: Seq<ProfileEntry>, name: Seq<char>) -> bool {
    exists|i: int| 0 <= i < es.len() && (#[trigger] es[i]).0.name == name
}

/// Holds when `i` is the index of the first entry whose group carries the
/// given name.
pub open spec fn is_first_match(es: Seq<ProfileEntry>, name: Seq<char>, i: int) -> bool {
    &&& 0 <= i < es.len()
    &&& es[i].0.name == name
    &&& forall|j: int| 0 <= j < i ==> (#[trigger] es[j]).0.name != name
}

/// Holds when some entry is keyed by exactly the given group value.
pub open spec fn contains_group(es: Seq<ProfileEntry>, g: GroupView) -> bool {
    exists|i: int| 0 <= i < es.len() && (#[trigger] es[i]).0 == g
}

/// The result of assigning `app` under `name`: the first entry whose group is
/// named `name` has `app` appended to its list, every other entry is kept as
/// it is, and when no entry matches nothing changes at all.
pub open spec fn apply_add(es: Seq<ProfileEntry>, name: Seq<char>, app: Seq<char>) -> Seq<ProfileEntry>
    decreases es.len(),
{
    if es.len() == 0 {
        es
    } else if es[0].0.name == name {
        es.update(0, (es[0].0, es[0].1.push(app)))
    } else {
        seq![es[0]] + apply_add(es.drop_first(), name, app)
    }
}

/// Keeps, left to right, the first entry for each distinct full group value
/// and drops every later entry keyed by a value already present.
pub open spec fn dedup_entries(es: Seq<ProfileEntry>) -> Seq<ProfileEntry>
    decreases es.len(),
{
    if es.len() == 0 {
        es
    } else {
        let prior = dedup_entries(es.drop_last());
        if contains_group(prior, es.last().0) {
            prior
        } else {
            prior.push(es.last())
        }
    }
}

/// Pairs each group, in order, with an empty application list.
pub open spec fn seed_entries(gs: Seq<GroupView>) -> Seq<ProfileEntry>
    decreases gs.len(),
{
    if gs.len() == 0 {
        Seq::empty()
    } else {
        seed_entries(gs.drop_last()).push((gs.last(), Seq::empty()))
    }
}

/// The entries a freshly built profile holds for the given groups: one entry
/// per distinct full group value, each with an empty application list.
pub open spec fn fresh_entries(gs: Seq<GroupView>) -> Seq<ProfileEntry> {
    dedup_entries(seed_entries(gs))
}

/// The serialized form of one entry: the group's name, its optional volume
/// and mute bindings, and the names of its assigned applications in order.
pub type GroupRecordView = (Seq<char>, Option<Seq<char>>, Option<Seq<char>>, Seq<Seq<char>>);

/// Flattens one entry into its serialized form.
pub open spec fn part_of_entry(e: ProfileEntry) -> GroupRecordView {
    (e.0.name, e.0.volume, e.0.mute, e.1)
}

/// Rebuilds one entry from its serialized form.
pub open spec fn entry_of_part(p: GroupRecordView) -> ProfileEntry {
    (GroupView { name: p.0, volume: p.1, mute: p.2 }, p.3)
}

/// Flattens every entry, in order.
pub open spec fn parts_of_entries(es: Seq<ProfileEntry>) -> Seq<GroupRecordView>
    decreases es.len(),
{
    if es.len() == 0 {
        Seq::empty()
    } else {
        parts_of_entries(es.drop_last()).push(part_of_entry(es.last()))
    }
}

/// Rebuilds every entry, in order.
pub open spec fn entries_of_parts(ps: Seq<GroupRecordView>) -> Seq<ProfileEntry>
    decreases ps.len(),
{
    if ps.len() == 0 {
        Seq::empty()
    } else {
        entries_of_parts(ps.drop_last()).push(entry_of_part(ps.last()))
    }
}

/// The entries a profile rebuilt from serialized records holds: the records
/// in order, deduplicated by full group value with the first kept.
pub open spec fn rebuild_entries(ps: Seq<GroupRecordView>) -> Seq<ProfileEntry> {
    dedup_entries(entries_of_parts(ps))
}

/// Flattening an entry and rebuilding it gives the entry back.
pub proof fn lemma_entry_part_inverse(e: ProfileEntry)
    ensures
        entry_of_part(part_of_entry(e)) == e,
{
    assert(entry_of_part(part_of_entry(e)).0 =~= e.0);
}

/// Flattening a profile's entries and rebuilding them, before any
/// deduplication, gives the entries back.
pub proof fn lemma_entries_parts_inverse(es: Seq<ProfileEntry>)
    ensures
        entries_of_parts(parts_of_entries(es)) == es,
    decreases es.len(),
{
    if es.len() == 0 {
        assert(entries_of_parts(parts_of_entries(es)) =~= es);
    } else {
        lemma_entries_parts_inverse(es.drop_last());
        let ps = parts_of_entries(es);
        assert(ps.drop_last() =~= parts_of_entries(es.drop_last()));
        lemma_entry_part_inverse(es.last());
        assert(entries_of_parts(ps) =~= es);
    }
}

/// Deduplication leaves a sequence of entries with pairwise-distinct group
/// values exactly as it is.
pub proof fn lemma_dedup_entries_of_distinct(es: Seq<ProfileEntry>)
    requires
        distinct_groups(es),
    ensures
        dedup_entries(es) == es,
    decreases es.len(),
{
    if es.len() == 0 {
    } else {
        let front = es.drop_last();
        assert forall|i: int, j: int|
            0 <= i < front.len() && 0 <= j < front.len() && i != j implies (#[trigger] front[i]).0
            != (#[trigger] front[j]).0 by {
            assert(front[i] == es[i]);
            assert(front[j] == es[j]);
        }
        lemma_dedup_entries_of_distinct(front);
        if contains_group(front, es.last().0) {
            let w = choose|i: int| 0 <= i < front.len() && (#[trigger] front[i]).0 == es.last().0;
            assert(es[w].0 == es[es.len() - 1].0);
            assert(false);
        }
        assert(front.push(es.last()) =~= es);
    }
}

/// Round trip: serializing a profile's entries and reconstructing them
/// reproduces the same groups with the same per-group application order,
/// for every well-formed profile.
pub proof fn lemma_parts_round_trip(es: Seq<ProfileEntry>)
    requires
        distinct_groups(es),
    ensures
        rebuild_entries(parts_of_entries(es)) == es,
{
    lemma_entries_parts_inverse(es);
    lemma_dedup_entries_of_distinct(es);
}

/// Assigning an application under a name that no group in the profile
/// carries is a silent no-op: every entry is left exactly as it was, and no
/// error is signalled anywhere.
pub proof fn lemma_add_unknown_group_is_no_op(es: Seq<ProfileEntry>, name: Seq<char>, app: Seq<char>)
    requires
        !has_group_named(es, name),
    ensures
        apply_add(es, name, app) == es,
    decreases es.len(),
{
    if es.len() == 0 {
    } else {
        let tail = es.drop_first();
        assert(es[0].0.name != name);
        assert forall|i: int| 0 <= i < tail.len() implies (#[trigger] tail[i]).0.name != name by {
            assert(tail[i] == es[i + 1]);
        }
        lemma_add_unknown_group_is_no_op(tail, name, app);
        assert(seq![es[0]] + tail =~= es);
    }
}

/// Assigning an application under a carried name appends it to the list of
/// the first entry whose group bears that name and leaves every other entry
/// unchanged.
pub proof fn lemma_add_to_first_named_group(
    es: Seq<ProfileEntry>,
    name: Seq<char>,
    app: Seq<char>,
    i: int,
)
    requires
        is_first_match(es, name, i),
    ensures
        apply_add(es, name, app) == es.update(i, (es[i].0, es[i].1.push(app))),
    decreases es.len(),
{
    if i == 0 {
    } else {
        let tail = es.drop_first();
        assert(es[0].0.name != name);
        assert(tail[i - 1] == es[i]);
        assert forall|j: int| 0 <= j < i - 1 implies (#[trigger] tail[j]).0.name != name by {
            assert(tail[j] == es[j + 1]);
        }
        lemma_add_to_first_named_group(tail, name, app, i - 1);
        assert(seq![es[0]] + tail.update(i - 1, (tail[i - 1].0, tail[i - 1].1.push(app))) =~= es.update(
            i,
            (es[i].0, es[i].1.push(app)),
        ));
    }
}

/// Where some entry's group carries the name, a first such entry exists.
pub proof fn lemma_first_match_exists(es: Seq<ProfileEntry>, name: Seq<char>)
    requires
        has_group_named(es, name),
    ensures
        exists|i: int| #[trigger] is_first_match(es, name, i),
    decreases es.len(),
{
    if es[0].0.name == name {
        assert(is_first_match(es, name, 0));
    } else {
        let tail = es.drop_first();
        let w = choose|i: int| 0 <= i < es.len() && (#[trigger] es[i]).0.name == name;
        assert(tail[w - 1] == es[w]);
        lemma_first_match_exists(tail, name);
        let k = choose|i: int| #[trigger] is_first_match(tail, name, i);
        assert forall|j: int| 0 <= j < k + 1 implies (#[trigger] es[j]).0.name != name by {
            if j > 0 {
                assert(es[j] == tail[j - 1]);
            }
        }
        assert(es[k + 1] == tail[k]);
        assert(is_first_match(es, name, k + 1));
    }
}

/// An assignment never changes which groups a profile holds, nor their
/// order: it can only extend one entry's application list.
pub proof fn lemma_apply_add_preserves_group_keys(
    es: Seq<ProfileEntry>,
    name: Seq<char>,
    app: Seq<char>,
)
    ensures
        apply_add(es, name, app).len() == es.len(),
        forall|i: int| 0 <= i < es.len() ==> (#[trigger] apply_add(es, name, app)[i]).0 == es[i].0,
    decreases es.len(),
{
    if !has_group_named(es, name) {
        lemma_add_unknown_group_is_no_op(es, name, app);
    } else {
        lemma_first_match_exists(es, name);
        let k = choose|i: int| #[trigger] is_first_match(es, name, i);
        lemma_add_to_first_named_group(es, name, app, k);
    }
}

/// An assignment preserves well-formedness: where no two entries shared a
/// full group value before, none do after.
pub proof fn lemma_apply_add_preserves_distinct(
    es: Seq<ProfileEntry>,
    name: Seq<char>,
    app: Seq<char>,
)
    requires
        distinct_groups(es),
    ensures
        distinct_groups(apply_add(es, name, app)),
{
    lemma_apply_add_preserves_group_keys(es, name, app);
    let res = apply_add(es, name, app);
    assert forall|i: int, j: int|
        0 <= i < res.len() && 0 <= j < res.len() && i != j implies (#[trigger] res[i]).0 != (
    #[trigger] res[j]).0 by {
        assert(res[i].0 == es[i].0);
        assert(res[j].0 == es[j].0);
    }
}

/// Seeding pairs each group with the empty list, in order.
pub proof fn lemma_seed_entries(gs: Seq<GroupView>)
    ensures
        seed_entries(gs).len() == gs.len(),
        forall|i: int|
            0 <= i < gs.len() ==> (#[trigger] seed_entries(gs)[i]) == (gs[i], Seq::<Seq<
            char>>::empty()),
    decreases gs.len(),
{
    if gs.len() == 0 {
    } else {
        lemma_seed_entries(gs.drop_last());
        assert forall|i: int| 0 <= i < gs.len() implies (#[trigger] seed_entries(gs)[i]) == (
        gs[i], Seq::<Seq<char>>::empty()) by {
            if i < gs.len() - 1 {
                assert(seed_entries(gs)[i] == seed_entries(gs.drop_last())[i]);
                assert(gs.drop_last()[i] == gs[i]);
            }
        }
    }
}

/// A profile built from pairwise-distinct group values holds exactly one
/// entry per group, in the order given, each mapped to the empty list of
/// applications.
pub proof fn lemma_new_profile_entries(gs: Seq<GroupView>)
    requires
        forall|i: int, j: int|
            0 <= i < gs.len() && 0 <= j < gs.len() && i != j ==> gs[i] != gs[j],
    ensures
        fresh_entries(gs).len() == gs.len(),
        forall|i: int|
            0 <= i < gs.len() ==> (#[trigger] fresh_entries(gs)[i]) == (gs[i], Seq::<Seq<
            char>>::empty()),
{
    lemma_seed_entries(gs);
    let seeded = seed_entries(gs);
    assert forall|i: int, j: int|
        0 <= i < seeded.len() && 0 <= j < seeded.len() && i != j implies (#[trigger] seeded[i]).0
        != (#[trigger] seeded[j]).0 by {
        assert(seeded[i].0 == gs[i]);
        assert(seeded[j].0 == gs[j]);
    }
    lemma_dedup_entries_of_distinct(seeded);
}

/// For an entry that is the first to bear its group's name and still has no
/// assignments, one assignment under that name yields exactly that one
/// application there, and every other entry stays as it was.
pub proof fn lemma_add_application_once(es: Seq<ProfileEntry>, app: Seq<char>, i: int)
    requires
        is_first_match(es, es[i].0.name, i),
        es[i].1 == Seq::<Seq<char>>::empty(),
    ensures
        ({
            let res = apply_add(es, es[i].0.name, app);
            &&& res.len() == es.len()
            &&& res[i].0 == es[i].0
            &&& res[i].1 == seq![app]
            &&& forall|j: int| 0 <= j < es.len() && j != i ==> res[j] == es[j]
        }),
{
    lemma_add_to_first_named_group(es, es[i].0.name, app, i);
    assert(Seq::<Seq<char>>::empty().push(app) =~= seq![app]);
}

/// Two assignments under the same group name, of `a1` and then `a2`, append
/// both to the first entry bearing that name, in that order: order is
/// preserved and duplicates are allowed. Every other entry stays as it was;
/// with an empty starting list the entry ends up holding exactly `a1` then
/// `a2`.
pub proof fn lemma_add_application_twice(
    es: Seq<ProfileEntry>,
    name: Seq<char>,
    a1: Seq<char>,
    a2: Seq<char>,
    i: int,
)
    requires
        is_first_match(es, name, i),
    ensures
        ({
            let res = apply_add(apply_add(es, name, a1), name, a2);
            &&& res.len() == es.len()
            &&& res[i].0 == es[i].0
            &&& res[i].1 == es[i].1.push(a1).push(a2)
            &&& forall|j: int| 0 <= j < es.len() && j != i ==> res[j] == es[j]
        }),
{
    lemma_add_to_first_named_group(es, name, a1, i);
    let es1 = apply_add(es, name, a1);
    assert forall|j: int| 0 <= j < i implies (#[trigger] es1[j]).0.name != name by {
        assert(es1[j] == es[j]);
    }
    assert(is_first_match(es1, name, i));
    lemma_add_to_first_named_group(es1, name, a2, i);
}

/// Two groups sharing a name but differing in their bindings are distinct
/// keys: a profile built from both holds two separate entries, and an
/// assignment under the shared name reaches only the first of them, leaving
/// the second untouched.
pub proof fn lemma_same_name_distinct_bindings(g1: GroupView, g2: GroupView, app: Seq<char>)
    requires
        g1 != g2,
        g1.name == g2.name,
    ensures
        fresh_entries(seq![g1, g2]).len() == 2,
        apply_add(fresh_entries(seq![g1, g2]), g1.name, app) == seq![
            (g1, seq![app]),
            (g2, Seq::<Seq<char>>::empty()),
        ],
{
    let gs = seq![g1, g2];
    assert(gs[0] == g1 && gs[1] == g2);
    lemma_new_profile_entries(gs);
    let es = fresh_entries(gs);
    assert(es[0] == (g1, Seq::<Seq<char>>::empty()));
    assert(es[1] == (g2, Seq::<Seq<char>>::empty()));
    assert(is_first_match(es, g1.name, 0));
    lemma_add_to_first_named_group(es, g1.name, app, 0);
    assert(apply_add(es, g1.name, app) =~= seq![(g1, seq![app]), (g2, Seq::<Seq<char>>::empty())]);
    assert(Seq::<Seq<char>>::empty().push(app) =~= seq![app]);
}

/// No two entries that the deduplication keeps share a full group value.
pub proof fn lemma_dedup_entries_distinct_groups(es: Seq<ProfileEntry>)
    ensures
        distinct_groups(dedup_entries(es)),
    decreases es.len(),
{
    if es.len() == 0 {
    } else {
        lemma_dedup_entries_distinct_groups(es.drop_last());
        let prior = dedup_entries(es.drop_last());
        if !contains_group(prior, es.last().0) {
            let res = prior.push(es.last());
            assert forall|i: int, j: int|
                0 <= i < res.len() && 0 <= j < res.len() && i != j implies (#[trigger] res[i]).0 != (
            #[trigger] res[j]).0 by {
                if i == prior.len() as int {
                    assert(res[j] == prior[j]);
                    if res[j].0 == es.last().0 {
                        assert(contains_group(prior, es.last().0));
                    }
                } else if j == prior.len() as int {
                    assert(res[i] == prior[i]);
                    if res[i].0 == es.last().0 {
                        assert(contains_group(prior, es.last().0));
                    }
                } else {
                    assert(res[i] == prior[i]);
                    assert(res[j] == prior[j]);
                }
            }
        }
    }
}

} // verus!
