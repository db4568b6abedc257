//! The per-cycle encounter state machine: accumulated statistics, the
//! debounce that counts each physical encounter exactly once, and the save
//! cadence. Classifier output drives the transitions; capture, recognition
//! and persistence I/O happen outside and hand in plain values.

use vstd::prelude::*;

use crate::classify::has_wild;
use crate::classify::species_of;

verus! {

/// A counted encounter is persisted once this many encounters have
/// accumulated since the last save.
pub const SAVE_THRESHOLD: u32 = 5;

/// The durable aggregate of encounter statistics.
#[derive(Debug, Clone, PartialEq)]
pub struct EncounterState {
    /// Cumulative count of individual creatures counted across all completed
    /// encounters.
    pub encounters: u32,
    /// Species captured during the most recently completed encounter.
    pub last_encounter: Vec<String>,
    /// Cumulative per-species tally; keys are lower-cased species names.
    pub mon_stats: Vec<(String, u32)>,
    /// When true, intermediate cropped images are persisted for inspection.
    pub debug: bool,
    /// True while a wild encounter is believed to be on screen.
    pub in_encounter: bool,
    /// Debounce flag: the current on-screen encounter has not been tallied.
    pub is_not_counted: bool,
    /// Completed encounters not yet persisted; reset to 0 on save.
    pub unsaved_encounters: u32,
}

/// The mathematical model of an `EncounterState`.
pub ghost struct StateModel {
    pub encounters: u32,
    pub last_encounter: Seq<Seq<char>>,
    pub mon_stats: Seq<(Seq<char>, u32)>,
    pub debug: bool,
    pub in_encounter: bool,
    pub is_not_counted: bool,
    pub unsaved_encounters: u32,
}

/// The per-species tally, as a sequence of key/count pairs.
pub open spec fn entries_view(v: Seq<(String, u32)>) -> Seq<(Seq<char>, u32)> {
    v.map_values(|p: (String, u32)| (p.0@, p.1))
}

impl View for EncounterState {
    type V = StateModel;

    open spec fn view(&self) -> StateModel {
        StateModel {
            encounters: self.encounters,
            last_encounter: self.last_encounter.deep_view(),
            mon_stats: entries_view(self.mon_stats@),
            debug: self.debug,
            in_encounter: self.in_encounter,
            is_not_counted: self.is_not_counted,
            unsaved_encounters: self.unsaved_encounters,
        }
    }
}

/// The count recorded for `key`: the count of its first entry, or 0 when no
/// entry carries it.
pub open spec fn stats_get(s: Seq<(Seq<char>, u32)>, key: Seq<char>) -> u32
    decreases s.len(),
{
    if s.len() == 0 {
        0
    } else if s[0].0 == key {
        s[0].1
    } else {
        stats_get(s.drop_first(), key)
    }
}

/// The tally after one more sighting of `key`: its first entry's count grows
/// by one, or a fresh entry with count 1 is appended.
pub open spec fn bump(s: Seq<(Seq<char>, u32)>, key: Seq<char>) -> Seq<(Seq<char>, u32)>
    decreases s.len(),
{
    if s.len() == 0 {
        seq![(key, 1u32)]
    } else if s[0].0 == key {
        seq![(s[0].0, (s[0].1 + 1) as u32)] + s.drop_first()
    } else {
        seq![s[0]] + bump(s.drop_first(), key)
    }
}

/// The tally after one sighting of each key of `keys`, in order.
pub open spec fn bump_all(s: Seq<(Seq<char>, u32)>, keys: Seq<Seq<char>>) -> Seq<
    (Seq<char>, u32),
>
    decreases keys.len(),
{
    if keys.len() == 0 {
        s
    } else {
        bump_all(bump(s, keys[0]), keys.drop_first())
    }
}

/// The total of all recorded counts.
pub open spec fn sum_counts(s: Seq<(Seq<char>, u32)>) -> int
    decreases s.len(),
{
    if s.len() == 0 {
        0
    } else {
        s[0].1 + sum_counts(s.drop_first())
    }
}

/// A tally total is never negative.
pub proof fn lemma_sum_nonneg(s: Seq<(Seq<char>, u32)>)
    ensures
        0 <= sum_counts(s),
    decreases s.len(),
{
    if s.len() > 0 {
        lemma_sum_nonneg(s.drop_first());
    }
}

/// No single count exceeds the tally total.
pub proof fn lemma_get_le_sum(s: Seq<(Seq<char>, u32)>, key: Seq<char>)
    ensures
        stats_get(s, key) <= sum_counts(s),
    decreases s.len(),
{
    if s.len() > 0 {
        lemma_get_le_sum(s.drop_first(), key);
        lemma_sum_nonneg(s.drop_first());
    }
}

/// Recording one sighting raises the tally total by exactly one.
pub proof fn lemma_bump_sum(s: Seq<(Seq<char>, u32)>, key: Seq<char>)
    requires
        stats_get(s, key) < u32::MAX,
    ensures
        sum_counts(bump(s, key)) == sum_counts(s) + 1,
    decreases s.len(),
{
    if s.len() == 0 {
        assert(bump(s, key)[0] == (key, 1u32));
        assert(bump(s, key).drop_first() =~= Seq::<(Seq<char>, u32)>::empty());
        assert(sum_counts(Seq::<(Seq<char>, u32)>::empty()) == 0);
        assert(sum_counts(bump(s, key)) == 1);
    } else if s[0].0 == key {
        assert(bump(s, key)[0] == (s[0].0, (s[0].1 + 1) as u32));
        assert(bump(s, key).drop_first() =~= s.drop_first());
        assert(stats_get(s, key) == s[0].1);
        assert(sum_counts(bump(s, key)) == (s[0].1 + 1) + sum_counts(s.drop_first()));
    } else {
        lemma_bump_sum(s.drop_first(), key);
        assert(bump(s, key)[0] == s[0]);
        assert(bump(s, key).drop_first() =~= bump(s.drop_first(), key));
        assert(sum_counts(bump(s, key)) == s[0].1 + sum_counts(bump(s.drop_first(), key)));
    }
}

/// Recording a list of sightings raises the tally total by its length.
pub proof fn lemma_bump_all_sum(s: Seq<(Seq<char>, u32)>, keys: Seq<Seq<char>>)
    requires
        sum_counts(s) + keys.len() <= u32::MAX,
    ensures
        sum_counts(bump_all(s, keys)) == sum_counts(s) + keys.len(),
    decreases keys.len(),
{
    if keys.len() > 0 {
        lemma_get_le_sum(s, keys[0]);
        lemma_bump_sum(s, keys[0]);
        lemma_bump_all_sum(bump(s, keys[0]), keys.drop_first());
    }
}

proof fn lemma_bump_found(s: Seq<(Seq<char>, u32)>, key: Seq<char>, i: int)
    requires
        0 <= i < s.len(),
        s[i].0 == key,
        forall|j: int| 0 <= j < i ==> s[j].0 != key,
    ensures
        stats_get(s, key) == s[i].1,
        bump(s, key) =~= s.update(i, (s[i].0, (s[i].1 + 1) as u32)),
    decreases i,
{
    if i == 0 {
        assert(bump(s, key) =~= s.update(0, (s[0].0, (s[0].1 + 1) as u32)));
    } else {
        lemma_bump_found(s.drop_first(), key, i - 1);
        assert(s.drop_first().update(i - 1, (s[i].0, (s[i].1 + 1) as u32)) =~= s.update(
            i,
            (s[i].0, (s[i].1 + 1) as u32),
        ).drop_first());
        assert(bump(s, key) =~= seq![s[0]] + bump(s.drop_first(), key));
        assert(bump(s, key) =~= s.update(i, (s[i].0, (s[i].1 + 1) as u32)));
    }
}

proof fn lemma_bump_absent(s: Seq<(Seq<char>, u32)>, key: Seq<char>)
    requires
        forall|j: int| 0 <= j < s.len() ==> s[j].0 != key,
    ensures
        bump(s, key) =~= s.push((key, 1u32)),
    decreases s.len(),
{
    if s.len() > 0 {
        lemma_bump_absent(s.drop_first(), key);
        assert(s.drop_first().push((key, 1u32)) =~= s.push((key, 1u32)).drop_first());
    }
}

proof fn lemma_bump_all_push(s: Seq<(Seq<char>, u32)>, keys: Seq<Seq<char>>, key: Seq<char>)
    ensures
        bump_all(s, keys.push(key)) == bump(bump_all(s, keys), key),
    decreases keys.len(),
{
    if keys.len() == 0 {
        assert(keys.push(key)[0] == key);
        assert(keys.push(key).drop_first() =~= Seq::<Seq<char>>::empty());
        assert(bump_all(s, keys.push(key)) == bump_all(bump(s, key), Seq::<Seq<char>>::empty()));
        assert(bump_all(s, keys) == s);
    } else {
        assert(keys.push(key)[0] == keys[0]);
        assert(keys.push(key).drop_first() =~= keys.drop_first().push(key));
        assert(bump_all(s, keys.push(key)) == bump_all(
            bump(s, keys[0]),
            keys.drop_first().push(key),
        ));
        lemma_bump_all_push(bump(s, keys[0]), keys.drop_first(), key);
        assert(bump_all(s, keys) == bump_all(bump(s, keys[0]), keys.drop_first()));
    }
}

/// Records one sighting of `key` in the tally.
fn bump_entry(stats: &mut Vec<(String, u32)>, key: &String)
    requires
        stats_get(entries_view(old(stats)@), key@) < u32::MAX,
    ensures
        entries_view(final(stats)@) == bump(entries_view(old(stats)@), key@),
{
    let ghost orig = entries_view(stats@);
    let n: usize = stats.len();
    let mut i: usize = 0;
    let mut found: bool = false;
    while i < n && !found
        invariant
            i <= n,
            n == stats@.len(),
            orig == entries_view(stats@),
            stats_get(orig, key@) < u32::MAX,
            forall|j: int| 0 <= j < i ==> orig[j].0 != key@,
            found ==> (i < n && orig[i as int].0 == key@),
        decreases n - i + (if found { 0int } else { 1int }),
    {
        proof {
            assert(orig[i as int] == (stats@[i as int].0@, stats@[i as int].1));
        }
        if stats[i].0 == *key {
            found = true;
        } else {
            i = i + 1;
        }
    }
    if found {
        proof {
            lemma_bump_found(orig, key@, i as int);
        }
        let k: String = stats[i].0.clone();
        let c: u32 = stats[i].1;
        stats.set(i, (k, c + 1));
        proof {
            assert(entries_view(stats@) =~= orig.update(
                i as int,
                (orig[i as int].0, (orig[i as int].1 + 1) as u32),
            ));
            assert(entries_view(stats@) == bump(orig, key@));
        }
    } else {
        proof {
            lemma_bump_absent(orig, key@);
        }
        stats.push((key.clone(), 1));
        proof {
            assert(entries_view(stats@) =~= orig.push((key@, 1u32)));
        }
    }
}

/// Records one sighting of every name in `keys`, in order.
fn bump_entries(stats: &mut Vec<(String, u32)>, keys: &Vec<String>)
    requires
        sum_counts(entries_view(old(stats)@)) + keys@.len() <= u32::MAX,
    ensures
        entries_view(final(stats)@) == bump_all(entries_view(old(stats)@), keys.deep_view()),
{
    let ghost orig = entries_view(stats@);
    let ghost kdv = keys.deep_view();
    proof {
        assert(kdv.len() == keys@.len());
        assert(kdv.take(0) =~= Seq::<Seq<char>>::empty());
    }
    let mut i: usize = 0;
    while i < keys.len()
        invariant
            i <= keys@.len(),
            kdv == keys.deep_view(),
            kdv.len() == keys@.len(),
            sum_counts(orig) + kdv.len() <= u32::MAX,
            entries_view(stats@) == bump_all(orig, kdv.take(i as int)),
            sum_counts(entries_view(stats@)) == sum_counts(orig) + i,
        decreases keys@.len() - i,
    {
        proof {
            assert(kdv[i as int] == keys@[i as int]@);
            lemma_get_le_sum(entries_view(stats@), kdv[i as int]);
            lemma_bump_sum(entries_view(stats@), kdv[i as int]);
            lemma_bump_all_push(orig, kdv.take(i as int), kdv[i as int]);
            assert(kdv.take(i as int).push(kdv[i as int]) =~= kdv.take(i + 1));
        }
        let key: String = keys[i].clone();
        bump_entry(stats, &key);
        i = i + 1;
    }
    proof {
        assert(kdv.take(kdv.len() as int) =~= kdv);
    }
}

/// The recorded count for `name`, or 0 when the species was never tallied.
pub fn stat_count(stats: &Vec<(String, u32)>, name: &String) -> (r: u32)
    ensures
        r == stats_get(entries_view(stats@), name@),
{
    let ghost sv = entries_view(stats@);
    proof {
        assert(sv.skip(0) =~= sv);
    }
    let mut i: usize = 0;
    while i < stats.len()
        invariant
            i <= stats@.len(),
            sv == entries_view(stats@),
            sv.len() == stats@.len(),
            forall|j: int| 0 <= j < i ==> sv[j].0 != name@,
            stats_get(sv, name@) == stats_get(sv.skip(i as int), name@),
        decreases stats@.len() - i,
    {
        proof {
            assert(sv.skip(i as int)[0] == sv[i as int]);
            assert(sv.skip(i as int).drop_first() =~= sv.skip(i + 1));
        }
        if stats[i].0 == *name {
            return stats[i].1;
        }
        i = i + 1;
    }
    proof {
        assert(sv.skip(i as int) =~= Seq::<(Seq<char>, u32)>::empty());
    }
    0
}

/// A fresh, empty aggregate: nothing counted, no encounter on screen.
pub open spec fn default_model() -> StateModel {
    StateModel {
        encounters: 0,
        last_encounter: Seq::empty(),
        mon_stats: Seq::empty(),
        debug: false,
        in_encounter: false,
        is_not_counted: true,
        unsaved_encounters: 0,
    }
}

impl Default for EncounterState {
    /// The starting aggregate: zero counts and the machine idle.
    fn default() -> (r: Self)
        ensures
            r@ == default_model(),
    {
        let r = EncounterState {
            encounters: 0,
            last_encounter: Vec::new(),
            mon_stats: Vec::new(),
            debug: false,
            in_encounter: false,
            is_not_counted: true,
            unsaved_encounters: 0,
        };
        proof {
            assert(r@.last_encounter =~= default_model().last_encounter);
            assert(r@.mon_stats =~= default_model().mon_stats);
        }
        r
    }
}

/// The model after the bottom-region scan: seeing the trigger phrase while
/// idle enters an uncounted encounter; nothing else changes.
pub open spec fn step_trigger(m: StateModel, lines: Seq<Seq<char>>) -> StateModel {
    if !m.in_encounter && has_wild(lines) {
        StateModel { in_encounter: true, ..m }
    } else {
        m
    }
}

/// The model after tallying `species`: counts, last encounter and the
/// per-species tally grow, the debounce closes, one more encounter awaits
/// saving.
pub open spec fn counted_model(m: StateModel, species: Seq<Seq<char>>) -> StateModel {
    StateModel {
        encounters: (m.encounters + species.len()) as u32,
        last_encounter: species,
        mon_stats: bump_all(m.mon_stats, species),
        is_not_counted: false,
        unsaved_encounters: (m.unsaved_encounters + 1) as u32,
        ..m
    }
}

/// The model after an encounter leaves the screen: back to idle, debounce
/// re-armed, the last-encounter list cleared.
pub open spec fn cleared_model(m: StateModel) -> StateModel {
    StateModel { in_encounter: false, is_not_counted: true, last_encounter: Seq::empty(), ..m }
}

/// The model, detection flag and save request after the top-region species
/// scan.
pub open spec fn step_species(m: StateModel, species: Seq<Seq<char>>) -> (StateModel, bool, bool) {
    if !m.in_encounter {
        (m, false, false)
    } else if species.len() > 0 && m.is_not_counted {
        let m2 = counted_model(m, species);
        (m2, true, m2.unsaved_encounters >= SAVE_THRESHOLD)
    } else if species.len() == 0 && !m.is_not_counted {
        (cleared_model(m), false, false)
    } else {
        (m, false, false)
    }
}

/// The counters have room for `n` more creatures: no count overflows.
pub open spec fn room_for(m: StateModel, n: int) -> bool {
    m.encounters + n <= u32::MAX && sum_counts(m.mon_stats) + n <= u32::MAX
        && m.unsaved_encounters < u32::MAX
}

/// The species scan stays within machine limits: room is only needed on the
/// cycle that actually tallies.
pub open spec fn species_step_ok(m: StateModel, species: Seq<Seq<char>>) -> bool {
    (m.in_encounter && m.is_not_counted && species.len() > 0) ==> room_for(m, species.len() as int)
}

/// Copies a list of names.
fn clone_strings(v: &Vec<String>) -> (r: Vec<String>)
    ensures
        r.deep_view() == v.deep_view(),
{
    let mut r: Vec<String> = Vec::new();
    let mut i: usize = 0;
    while i < v.len()
        invariant
            i <= v@.len(),
            r@.len() == i,
            forall|j: int| 0 <= j < i ==> r@[j]@ == v@[j]@,
        decreases v@.len() - i,
    {
        r.push(v[i].clone());
        i = i + 1;
    }
    proof {
        assert(r.deep_view() =~= v.deep_view());
    }
    r
}

impl EncounterState {
    /// Applies the bottom-region scan: entering an encounter when the trigger
    /// phrase is visible while idle.
    pub fn observe_bottom(&mut self, lines: &Vec<String>)
        ensures
            final(self)@ == step_trigger(old(self)@, lines.deep_view()),
    {
        if !self.in_encounter {
            if crate::classify::has_wild_trigger(lines) {
                self.in_encounter = true;
            }
        }
    }

    /// Tallies an already extracted species list: the uncounted branch counts
    /// it, the counted branch waits for the species text to disappear.
    /// Returns (encounter newly counted, save requested).
    pub fn observe_species(&mut self, species: &Vec<String>) -> (r: (bool, bool))
        requires
            species_step_ok(old(self)@, species.deep_view()),
        ensures
            final(self)@ == step_species(old(self)@, species.deep_view()).0,
            r.0 == step_species(old(self)@, species.deep_view()).1,
            r.1 == step_species(old(self)@, species.deep_view()).2,
    {
        let ghost m = self@;
        let ghost sdv = species.deep_view();
        proof {
            assert(sdv.len() == species@.len());
        }
        if !self.in_encounter {
            return (false, false);
        }
        if species.len() > 0 && self.is_not_counted {
            let n: usize = species.len();
            self.encounters = self.encounters + (n as u32);
            self.last_encounter = clone_strings(species);
            bump_entries(&mut self.mon_stats, species);
            self.is_not_counted = false;
            self.unsaved_encounters = self.unsaved_encounters + 1;
            let save: bool = self.unsaved_encounters >= SAVE_THRESHOLD;
            proof {
                assert(self@ == counted_model(m, sdv));
            }
            (true, save)
        } else if species.len() == 0 && !self.is_not_counted {
            self.in_encounter = false;
            self.is_not_counted = true;
            self.last_encounter = Vec::new();
            proof {
                assert(self@.last_encounter =~= Seq::<Seq<char>>::empty());
                assert(self@ == cleared_model(m));
            }
            (false, false)
        } else {
            (false, false)
        }
    }

    /// The counters can take `n` more creatures without overflow.
    pub fn can_count(&self, n: usize) -> (r: bool)
        ensures
            r == room_for(self@, n as int),
    {
        if self.unsaved_encounters == u32::MAX {
            return false;
        }
        if n > (u32::MAX - self.encounters) as usize {
            return false;
        }
        let limit: u64 = (u32::MAX as u64) - (n as u64);
        let ghost sv = entries_view(self.mon_stats@);
        let mut acc: u64 = 0;
        let mut i: usize = 0;
        while i < self.mon_stats.len()
            invariant
                i <= self.mon_stats@.len(),
                sv == entries_view(self.mon_stats@),
                sv.len() == self.mon_stats@.len(),
                limit == u32::MAX - n,
                n <= u32::MAX,
                acc == sum_counts(sv.take(i as int)),
                acc <= limit,
            decreases self.mon_stats@.len() - i,
        {
            proof {
                lemma_sum_take_step(sv, i as int);
                assert(sv[i as int].1 == self.mon_stats@[i as int].1);
            }
            let c: u32 = self.mon_stats[i].1;
            acc = acc + (c as u64);
            if acc > limit {
                proof {
                    lemma_sum_split(sv, i + 1);
                    lemma_sum_nonneg(sv.skip(i + 1));
                }
                return false;
            }
            i = i + 1;
        }
        proof {
            assert(sv.take(sv.len() as int) =~= sv);
        }
        true
    }

    /// Applies the top-region scan: extracts species from the lines and
    /// tallies them. Returns `None`, leaving the aggregate untouched, only
    /// when the tally would overflow a counter.
    pub fn observe_top(&mut self, lines: &Vec<String>) -> (r: Option<(bool, bool)>)
        ensures
            ({
                let sp = species_of(lines.deep_view());
                &&& species_step_ok(old(self)@, sp) ==> {
                    &&& final(self)@ == step_species(old(self)@, sp).0
                    &&& r == Some((step_species(old(self)@, sp).1, step_species(old(self)@, sp).2))
                }
                &&& !species_step_ok(old(self)@, sp) ==> {
                    &&& final(self)@ == old(self)@
                    &&& r is None
                }
            }),
    {
        let species: Vec<String> = crate::classify::extract_species(lines);
        let ghost sp = species_of(lines.deep_view());
        proof {
            assert(species.deep_view() == sp);
            assert(sp.len() == species@.len());
        }
        if self.in_encounter && self.is_not_counted && species.len() > 0 && !self.can_count(
            species.len(),
        ) {
            return None;
        }
        let r: (bool, bool) = self.observe_species(&species);
        Some(r)
    }

    /// One full detection cycle, given the recognized lines of both regions:
    /// the bottom scan may open an encounter, the top scan tallies or closes
    /// it. Returns `None`, leaving the aggregate as the bottom scan left it,
    /// only when the tally would overflow a counter.
    pub fn encounter_process(&mut self, bottom_lines: &Vec<String>, top_lines: &Vec<String>) -> (r:
        Option<(bool, bool)>)
        ensures
            ({
                let m1 = step_trigger(old(self)@, bottom_lines.deep_view());
                let sp = species_of(top_lines.deep_view());
                &&& species_step_ok(m1, sp) ==> {
                    &&& final(self)@ == step_species(m1, sp).0
                    &&& r == Some((step_species(m1, sp).1, step_species(m1, sp).2))
                }
                &&& !species_step_ok(m1, sp) ==> {
                    &&& final(self)@ == m1
                    &&& r is None
                }
            }),
    {
        self.observe_bottom(bottom_lines);
        self.observe_top(top_lines)
    }

    /// Acknowledges a completed save: nothing awaits persistence any more.
    pub fn mark_saved(&mut self)
        ensures
            final(self)@ == (StateModel { unsaved_encounters: 0, ..old(self)@ }),
    {
        self.unsaved_encounters = 0;
    }
}

proof fn lemma_sum_take_step(s: Seq<(Seq<char>, u32)>, i: int)
    requires
        0 <= i < s.len(),
    ensures
        sum_counts(s.take(i + 1)) == sum_counts(s.take(i)) + s[i].1,
    decreases i,
{
    if i == 0 {
        assert(s.take(1).drop_first() =~= Seq::<(Seq<char>, u32)>::empty());
        assert(s.take(0) =~= Seq::<(Seq<char>, u32)>::empty());
        assert(s.take(1)[0] == s[0]);
    } else {
        lemma_sum_take_step(s.drop_first(), i - 1);
        assert(s.take(i + 1).drop_first() =~= s.drop_first().take(i));
        assert(s.take(i).drop_first() =~= s.drop_first().take(i - 1));
        assert(s.take(i + 1)[0] == s[0]);
        assert(s.take(i)[0] == s[0]);
        assert(s.drop_first()[i - 1] == s[i]);
    }
}

/// A tally total splits at any index into the totals of the two parts.
pub proof fn lemma_sum_split(s: Seq<(Seq<char>, u32)>, i: int)
    requires
        0 <= i <= s.len(),
    ensures
        sum_counts(s) == sum_counts(s.take(i)) + sum_counts(s.skip(i)),
    decreases i,
{
    if i == 0 {
        assert(s.take(0) =~= Seq::<(Seq<char>, u32)>::empty());
        assert(s.skip(0) =~= s);
    } else {
        lemma_sum_take_step(s, i - 1);
        lemma_sum_split(s, i - 1);
        assert(s.skip(i - 1).drop_first() =~= s.skip(i));
        assert(s.skip(i - 1)[0] == s[i - 1]);
    }
}

/// The structural invariant of the aggregate: the debounce flag only closes
/// inside an encounter, and a remembered last encounter exists only while
/// its encounter is counted and still on screen.
pub open spec fn flags_wf(m: StateModel) -> bool {
    &&& !m.is_not_counted ==> m.in_encounter
    &&& m.last_encounter.len() > 0 ==> (m.in_encounter && !m.is_not_counted)
}

/// The aggregate and the per-species tally agree: the sum of all recorded
/// per-species counts equals the cumulative encounter count, which counts
/// every species token ever tallied.
pub open spec fn counts_consistent(m: StateModel) -> bool {
    m.encounters == sum_counts(m.mon_stats)
}

/// A fresh aggregate is well formed and consistent.
pub proof fn lemma_default_wf()
    ensures
        flags_wf(default_model()),
        counts_consistent(default_model()),
{
}

/// The bottom-region scan preserves well-formedness and consistency, and
/// never changes any count.
pub proof fn lemma_step_trigger_preserves(m: StateModel, lines: Seq<Seq<char>>)
    requires
        flags_wf(m),
    ensures
        flags_wf(step_trigger(m, lines)),
        counts_consistent(m) ==> counts_consistent(step_trigger(m, lines)),
        step_trigger(m, lines).encounters == m.encounters,
        step_trigger(m, lines).mon_stats == m.mon_stats,
{
}

/// The species scan preserves well-formedness, and preserves consistency:
/// the sum of the per-species tallies grows by exactly the number of species
/// tokens appended to the last encounter, which is the growth of the
/// cumulative count — on any cycle, counting or not.
pub proof fn lemma_step_species_preserves(m: StateModel, species: Seq<Seq<char>>)
    requires
        flags_wf(m),
        species_step_ok(m, species),
    ensures
        flags_wf(step_species(m, species).0),
        counts_consistent(m) ==> counts_consistent(step_species(m, species).0),
        ({
            let m2 = step_species(m, species).0;
            let counted = step_species(m, species).1;
            &&& sum_counts(m2.mon_stats) == sum_counts(m.mon_stats) + (if counted {
                species.len() as int
            } else {
                0
            })
            &&& m2.encounters == m.encounters + (if counted {
                species.len() as int
            } else {
                0
            })
        }),
{
    if m.in_encounter && species.len() > 0 && m.is_not_counted {
        lemma_sum_nonneg(m.mon_stats);
        lemma_bump_all_sum(m.mon_stats, species);
    }
}

/// Save cadence: a save is requested exactly on a counting cycle that brings
/// the unsaved total to the threshold; fewer pending encounters never
/// request one, and acknowledging a save leaves none pending.
pub proof fn lemma_save_cadence(m: StateModel, species: Seq<Seq<char>>)
    requires
        m.unsaved_encounters < u32::MAX,
    ensures
        ({
            let m2 = step_species(m, species).0;
            let counted = step_species(m, species).1;
            let save = step_species(m, species).2;
            &&& save <==> (counted && m2.unsaved_encounters >= SAVE_THRESHOLD)
            &&& counted ==> m2.unsaved_encounters == m.unsaved_encounters + 1
            &&& save <==> (counted && m.unsaved_encounters + 1 >= SAVE_THRESHOLD)
            &&& !counted ==> m2.unsaved_encounters == m.unsaved_encounters
        }),
{
}

/// The delay before the next polling cycle, in milliseconds: slow down after
/// a newly counted encounter, poll quickly otherwise.
pub fn next_delay_ms(encounter_detected: bool) -> (r: u64)
    ensures
        r == if encounter_detected {
            100u64
        } else {
            10u64
        },
{
    if encounter_detected {
        100
    } else {
        10
    }
}


/// A whole detection cycle preserves well-formedness and consistency: over
/// any sequence of simulated cycles the sum of the per-species tallies and
/// the cumulative encounter count grow together, by exactly the number of
/// species tokens counted in the cycle.
pub proof fn lemma_cycle_preserves(m: StateModel, bottom: Seq<Seq<char>>, top: Seq<Seq<char>>)
    requires
        flags_wf(m),
        species_step_ok(step_trigger(m, bottom), species_of(top)),
    ensures
        ({
            let m1 = step_trigger(m, bottom);
            let m2 = step_species(m1, species_of(top)).0;
            let counted = step_species(m1, species_of(top)).1;
            &&& flags_wf(m2)
            &&& counts_consistent(m) ==> counts_consistent(m2)
            &&& m2.encounters == m.encounters + (if counted {
                species_of(top).len() as int
            } else {
                0
            })
            &&& sum_counts(m2.mon_stats) == sum_counts(m.mon_stats) + (if counted {
                species_of(top).len() as int
            } else {
                0
            })
        }),
{
    lemma_step_trigger_preserves(m, bottom);
    lemma_step_species_preserves(step_trigger(m, bottom), species_of(top));
}

} // verus!
