//! The prompt library: every prompt version in the system, which one is
//! deployed per character, running comparison trials, and the evolution
//! tree of versions.

use vstd::prelude::*;
use crate::prompts::{CertificationLevel, Prompt, PromptId, PromptRole, same_prompt_with_activity};

verus! {

/// The central prompt library.
pub struct PromptLibrary {
    /// Every prompt version, in registration order, one per id.
    prompts: Vec<Prompt>,
    /// The deployed version of each character, one entry per character.
    active_prompts: Vec<(u32, PromptId)>,
    /// Running comparison trials: two variants per character.
    ab_tests: Vec<(u32, (PromptId, PromptId))>,
}

/// Summary statistics of a library.
#[derive(Debug, Clone)]
pub struct LibraryStats {
    pub total_prompts: usize,
    pub active_characters: usize,
    pub certified_prompts: usize,
    pub running_ab_tests: usize,
}

impl PromptLibrary {
    pub closed spec fn prompts_model(self) -> Seq<Prompt> {
        self.prompts@
    }

    pub closed spec fn active_model(self) -> Seq<(u32, PromptId)> {
        self.active_prompts@
    }

    pub closed spec fn ab_model(self) -> Seq<(u32, (PromptId, PromptId))> {
        self.ab_tests@
    }

    /// At most one prompt per id, and one table row per character.
    pub open spec fn wf(self) -> bool {
        &&& forall|i: int, j: int|
            0 <= i < j < self.prompts_model().len() ==> (#[trigger] self.prompts_model()[i]).id != (
            #[trigger] self.prompts_model()[j]).id
        &&& forall|i: int, j: int|
            0 <= i < j < self.active_model().len() ==> (#[trigger] self.active_model()[i]).0 != (
            #[trigger] self.active_model()[j]).0
        &&& forall|i: int, j: int|
            0 <= i < j < self.ab_model().len() ==> (#[trigger] self.ab_model()[i]).0 != (
            #[trigger] self.ab_model()[j]).0
        &&& forall|i: int|
            0 <= i < self.ab_model().len() ==> (#[trigger] self.ab_model()[i]).1.0.character_id
                == self.ab_model()[i].0 && self.ab_model()[i].1.1.character_id
                == self.ab_model()[i].0
    }

    /// Whether some stored prompt carries the given id.
    pub open spec fn spec_has_prompt(self, id: PromptId) -> bool {
        exists|i: int|
            0 <= i < self.prompts_model().len() && (#[trigger] self.prompts_model()[i]).id == id
    }

    /// The stored prompt with the given id.
    pub open spec fn prompt_of(self, id: PromptId) -> Prompt {
        self.prompts_model()[choose|i: int|
            0 <= i < self.prompts_model().len() && (#[trigger] self.prompts_model()[i]).id == id]
    }

    /// The deployed version of a character, if a row names one.
    pub open spec fn spec_active_id(self, character_id: u32) -> Option<PromptId> {
        lookup_row(self.active_model(), character_id)
    }

    /// The running trial of a character, if one is registered.
    pub open spec fn spec_ab_pair(self, character_id: u32) -> Option<(PromptId, PromptId)> {
        lookup_ab_row(self.ab_model(), character_id)
    }

    /// A prompt's success rate as the trials read it: zero when the
    /// version is missing, unused, or carries inconsistent counters.
    pub open spec fn spec_rate(self, id: PromptId) -> nat {
        if self.spec_has_prompt(id) && self.prompt_of(id).metrics.successes <= self.prompt_of(
            id,
        ).metrics.invocations && self.prompt_of(id).metrics.invocations > 0 {
            (self.prompt_of(id).metrics.successes * 100) as nat / self.prompt_of(
                id,
            ).metrics.invocations as nat
        } else {
            0
        }
    }

    /// Creates a new empty library.
    pub fn new() -> (r: PromptLibrary)
        ensures
            r.wf(),
            r.prompts_model().len() == 0,
            r.active_model().len() == 0,
            r.ab_model().len() == 0,
    {
        PromptLibrary { prompts: Vec::new(), active_prompts: Vec::new(), ab_tests: Vec::new() }
    }

    /// A library loaded with every built-in character prompt.
    pub fn with_defaults() -> (r: PromptLibrary)
        ensures
            r.wf(),
            r.prompts_model().len() == 8,
    {
        let mut lib = Self::new();
        let p1 = crate::characters::sam_orchestrator();
        let ghost v1 = p1;
        proof {
            assert(!lib.spec_has_prompt(v1.id)) by {
                if lib.spec_has_prompt(v1.id) {
                    let w = choose|i: int|
                        0 <= i < lib.prompts_model().len() && (#[trigger] lib.prompts_model()[
                        i]).id == v1.id;
                }
            }
        }
        lib.register(p1);
        proof {
            assert(lib.prompts_model() =~= seq![v1]);
            lemma_fresh_character(lib, seq![v1], 2);
        }
        let p2 = crate::characters::archimedes_voice();
        let ghost v2 = p2;
        lib.register(p2);
        proof {
            assert(lib.prompts_model() =~= seq![v1, v2]);
            lemma_fresh_character(lib, seq![v1, v2], 3);
        }
        let p3 = crate::characters::archimedes_silent();
        let ghost v3 = p3;
        lib.register(p3);
        proof {
            assert(lib.prompts_model() =~= seq![v1, v2, v3]);
            lemma_fresh_character(lib, seq![v1, v2, v3], 4);
        }
        let p4 = crate::characters::thomas_tester();
        let ghost v4 = p4;
        lib.register(p4);
        proof {
            assert(lib.prompts_model() =~= seq![v1, v2, v3, v4]);
            lemma_fresh_character(lib, seq![v1, v2, v3, v4], 5);
        }
        let p5 = crate::characters::pete_backend();
        let ghost v5 = p5;
        lib.register(p5);
        proof {
            assert(lib.prompts_model() =~= seq![v1, v2, v3, v4, v5]);
            lemma_fresh_character(lib, seq![v1, v2, v3, v4, v5], 6);
        }
        let p6 = crate::characters::sentinel_security();
        let ghost v6 = p6;
        lib.register(p6);
        proof {
            assert(lib.prompts_model() =~= seq![v1, v2, v3, v4, v5, v6]);
            lemma_fresh_character(lib, seq![v1, v2, v3, v4, v5, v6], 7);
        }
        let p7 = crate::characters::scout_researcher();
        let ghost v7 = p7;
        lib.register(p7);
        proof {
            assert(lib.prompts_model() =~= seq![v1, v2, v3, v4, v5, v6, v7]);
            lemma_fresh_character(lib, seq![v1, v2, v3, v4, v5, v6, v7], 8);
        }
        let p8 = crate::characters::scribe_documenter();
        let ghost v8 = p8;
        lib.register(p8);
        proof {
            assert(lib.prompts_model() =~= seq![v1, v2, v3, v4, v5, v6, v7, v8]);
        }
        lib
    }

    /// Finds the position of a prompt by id.
    fn position_of(&self, id: PromptId) -> (r: Option<usize>)
        ensures
            match r {
                Some(i) => i < self.prompts_model().len() && self.prompts_model()[i as int].id
                    == id,
                None => !self.spec_has_prompt(id),
            },
    {
        let mut i: usize = 0;
        while i < self.prompts.len()
            invariant
                i <= self.prompts_model().len(),
                forall|m: int| 0 <= m < i ==> (#[trigger] self.prompts_model()[m]).id != id,
            decreases self.prompts_model().len() - i,
        {
            if self.prompts[i].id.character_id == id.character_id && self.prompts[i].id.version
                == id.version {
                return Some(i);
            }
            i = i + 1;
        }
        proof {
            if self.spec_has_prompt(id) {
                let w = choose|m: int|
                    0 <= m < self.prompts_model().len() && (#[trigger] self.prompts_model()[m]).id
                        == id;
                assert(self.prompts_model()[w].id != id);
            }
        }
        None
    }

    /// Finds the row of a character in the active table.
    fn active_position(&self, character_id: u32) -> (r: Option<usize>)
        ensures
            match r {
                Some(i) => i < self.active_model().len() && self.active_model()[i as int].0
                    == character_id,
                None => forall|m: int|
                    0 <= m < self.active_model().len() ==> (#[trigger] self.active_model()[m]).0
                        != character_id,
            },
    {
        let mut i: usize = 0;
        while i < self.active_prompts.len()
            invariant
                i <= self.active_model().len(),
                forall|m: int|
                    0 <= m < i ==> (#[trigger] self.active_model()[m]).0 != character_id,
            decreases self.active_model().len() - i,
        {
            if self.active_prompts[i].0 == character_id {
                return Some(i);
            }
            i = i + 1;
        }
        None
    }

    /// Registers a prompt: it replaces any stored version with its id,
    /// and becomes its character's deployed version when flagged active.
    pub fn register(&mut self, prompt: Prompt)
        requires
            old(self).wf(),
        ensures
            final(self).wf(),
            final(self).spec_has_prompt(prompt.id),
            final(self).prompts_model().len() <= old(self).prompts_model().len() + 1,
            final(self).prompts_model().len() >= old(self).prompts_model().len(),
            !old(self).spec_has_prompt(prompt.id) ==> final(self).prompts_model() == old(self).prompts_model().push(prompt),
    {
        let id = prompt.id;
        let is_active = prompt.is_active;
        let ghost pm = self.prompts_model();
        match self.position_of(id) {
            Some(i) => {
                self.prompts.set(i, prompt);
                proof {
                    assert(self.prompts_model() =~= pm.update(i as int, prompt));
                    assert forall|a: int, b: int|
                        0 <= a < b < self.prompts_model().len() implies (
                    #[trigger] self.prompts_model()[a]).id != (#[trigger] self.prompts_model()[
                    b]).id by {
                        assert(pm[a].id != pm[b].id);
                        if a != i as int {
                            assert(self.prompts_model()[a] == pm[a]);
                        }
                        if b != i as int {
                            assert(self.prompts_model()[b] == pm[b]);
                        }
                    }
                    assert(self.prompts_model()[i as int].id == id);
                    assert(self.active_model() == old(self).active_model());
                    assert(self.ab_model() == old(self).ab_model());
                    assert(self.wf());
                }
            },
            None => {
                self.prompts.push(prompt);
                proof {
                    assert(self.prompts_model() =~= pm.push(prompt));
                    assert forall|a: int, b: int|
                        0 <= a < b < self.prompts_model().len() implies (
                    #[trigger] self.prompts_model()[a]).id != (#[trigger] self.prompts_model()[
                    b]).id by {
                        if b < pm.len() {
                            assert(self.prompts_model()[a] == pm[a]);
                            assert(self.prompts_model()[b] == pm[b]);
                        } else {
                            assert(self.prompts_model()[a] == pm[a]);
                            assert(pm[a].id != id);
                        }
                    }
                    assert(self.prompts_model()[pm.len() as int].id == id);
                    assert(self.active_model() == old(self).active_model());
                    assert(self.ab_model() == old(self).ab_model());
                    assert(self.wf());
                }
            },
        }
        if is_active {
            let ghost mid = *self;
            proof {
                assert(mid.spec_has_prompt(prompt.id));
            }
            self.set_active_row(id);
            proof {
                assert(self.prompts_model() == mid.prompts_model());
            }
        }
    }

    /// Writes the active-table row for a character.
    fn set_active_row(&mut self, id: PromptId)
        requires
            old(self).wf(),
        ensures
            final(self).wf(),
            final(self).prompts_model() == old(self).prompts_model(),
            final(self).ab_model() == old(self).ab_model(),
            final(self).spec_active_id(id.character_id) == Some(id),
            forall|c: u32|
                c != id.character_id ==> #[trigger] final(self).spec_active_id(c) == old(self).spec_active_id(c),
    {
        let ghost am = self.active_model();
        match self.active_position(id.character_id) {
            Some(i) => {
                self.active_prompts.set(i, (id.character_id, id));
                proof {
                    assert(self.prompts_model() == old(self).prompts_model());
                    assert(self.ab_model() == old(self).ab_model());
                    assert(self.active_model() =~= am.update(i as int, (id.character_id, id)));
                    assert forall|a: int, b: int|
                        0 <= a < b < self.active_model().len() implies (
                    #[trigger] self.active_model()[a]).0 != (#[trigger] self.active_model()[
                    b]).0 by {
                        assert(am[a].0 != am[b].0);
                        if a != i as int {
                            assert(self.active_model()[a] == am[a]);
                        }
                        if b != i as int {
                            assert(self.active_model()[b] == am[b]);
                        }
                    }
                    let nm = self.active_model();
                    assert(nm[i as int].0 == id.character_id);
                    assert(self.spec_active_id(id.character_id) == Some(id)) by {
                        let w = choose|a: int|
                            0 <= a < nm.len() && (#[trigger] nm[a]).0 == id.character_id;
                        assert(w == i as int) by {
                            if w != i as int {
                                assert(nm[w].0 != nm[i as int].0);
                            }
                        }
                    }
                    assert forall|c: u32| c != id.character_id implies #[trigger] self.spec_active_id(
                        c,
                    ) == old(self).spec_active_id(c) by {
                        lemma_active_rows_agree(am, nm, i as int, c);
                    }
                }
            },
            None => {
                self.active_prompts.push((id.character_id, id));
                proof {
                    assert(self.prompts_model() == old(self).prompts_model());
                    assert(self.ab_model() == old(self).ab_model());
                    assert(self.active_model() =~= am.push((id.character_id, id)));
                    assert forall|a: int, b: int|
                        0 <= a < b < self.active_model().len() implies (
                    #[trigger] self.active_model()[a]).0 != (#[trigger] self.active_model()[
                    b]).0 by {
                        if b < am.len() {
                            assert(self.active_model()[a] == am[a]);
                            assert(self.active_model()[b] == am[b]);
                        } else {
                            assert(self.active_model()[a] == am[a]);
                        }
                    }
                    let nm = self.active_model();
                    assert(nm[am.len() as int].0 == id.character_id);
                    assert(self.spec_active_id(id.character_id) == Some(id)) by {
                        let w = choose|a: int|
                            0 <= a < nm.len() && (#[trigger] nm[a]).0 == id.character_id;
                        assert(w == am.len() as int) by {
                            if w < am.len() {
                                assert(nm[w] == am[w]);
                                assert(am[w].0 != id.character_id);
                            }
                        }
                    }
                    assert forall|c: u32| c != id.character_id implies #[trigger] self.spec_active_id(
                        c,
                    ) == old(self).spec_active_id(c) by {
                        lemma_active_rows_agree_push(am, nm, id.character_id, c);
                    }
                }
            },
        }
    }

    /// The deployed prompt of a character: the stored prompt the active
    /// table names, or nothing when no row or no such version exists.
    pub fn get_active(&self, character_id: u32) -> (r: Option<&Prompt>)
        requires
            self.wf(),
        ensures
            match r {
                Some(p) => self.spec_active_id(character_id) == Some(p.id)
                    && self.spec_has_prompt(p.id) && *p == self.prompt_of(p.id),
                None => match self.spec_active_id(character_id) {
                    Some(aid) => !self.spec_has_prompt(aid),
                    None => true,
                },
            },
    {
        match self.active_position(character_id) {
            Some(i) => {
                let id = self.active_prompts[i].1;
                proof {
                    assert(self.spec_active_id(character_id) == Some(id)) by {
                        let am = self.active_model();
                        let w = choose|a: int|
                            0 <= a < am.len() && (#[trigger] am[a]).0 == character_id;
                        assert(w == i as int) by {
                            if w != i as int {
                                assert(am[w].0 != am[i as int].0);
                            }
                        }
                    }
                }
                match self.position_of(id) {
                    Some(j) => {
                        proof {
                            assert(self.prompts_model()[j as int].id == id);
                            let w = choose|k: int|
                                0 <= k < self.prompts_model().len()
                                    && (#[trigger] self.prompts_model()[k]).id == id;
                            assert(w == j as int) by {
                                if w != j as int {
                                    assert(self.prompts_model()[w].id != self.prompts_model()[
                                        j as int].id);
                                }
                            }
                        }
                        Some(&self.prompts[j])
                    },
                    None => None,
                }
            },
            None => {
                proof {
                    assert(self.spec_active_id(character_id) is None);
                }
                None
            },
        }
    }

    /// A specific prompt version.
    pub fn get(&self, id: &PromptId) -> (r: Option<&Prompt>)
        requires
            self.wf(),
        ensures
            match r {
                Some(p) => self.spec_has_prompt(*id) && p.id == *id && *p == self.prompt_of(*id),
                None => !self.spec_has_prompt(*id),
            },
    {
        match self.position_of(*id) {
            Some(i) => {
                proof {
                    assert(self.prompts_model()[i as int].id == *id);
                    let w = choose|k: int|
                        0 <= k < self.prompts_model().len() && (#[trigger] self.prompts_model()[
                        k]).id == *id;
                    assert(w == i as int) by {
                        if w != i as int {
                            assert(self.prompts_model()[w].id != self.prompts_model()[i as int].id);
                        }
                    }
                }
                Some(&self.prompts[i])
            },
            None => None,
        }
    }

    /// Whether the library holds the given version.
    pub fn contains(&self, id: &PromptId) -> (r: bool)
        ensures
            r == self.spec_has_prompt(*id),
    {
        match self.position_of(*id) {
            Some(i) => {
                proof {
                    assert(self.prompts_model()[i as int].id == *id);
                }
                true
            },
            None => false,
        }
    }

    /// Makes a stored version the deployed one for its character: its
    /// activity flag goes up, the previously deployed version's goes
    /// down, and the table row moves; answers whether the version
    /// exists, and changes nothing when it does not.
    pub fn set_active(&mut self, id: PromptId) -> (r: bool)
        requires
            old(self).wf(),
        ensures
            final(self).wf(),
            r == old(self).spec_has_prompt(id),
            !r ==> final(self).prompts_model() == old(self).prompts_model() && final(self).active_model() == old(self).active_model() && final(self).ab_model() == old(self).ab_model(),
            r ==> final(self).spec_active_id(id.character_id) == Some(id),
            r ==> forall|c: u32|
                c != id.character_id ==> #[trigger] final(self).spec_active_id(c) == old(self).spec_active_id(c),
            r ==> final(self).ab_model() == old(self).ab_model(),
            // every prompt keeps its place; the chosen one turns active,
            // the previously deployed one of the same character turns
            // inactive, the rest stay as they were
            r ==> final(self).prompts_model().len() == old(self).prompts_model().len(),
            r ==> forall|i: int|
                0 <= i < old(self).prompts_model().len() ==> (if old(self).prompts_model()[i].id
                    == id {
                    same_prompt_with_activity(
                        #[trigger] final(self).prompts_model()[i],
                        old(self).prompts_model()[i],
                        true,
                    )
                } else if Some(old(self).prompts_model()[i].id) == old(self).spec_active_id(
                    id.character_id,
                ) {
                    same_prompt_with_activity(
                        final(self).prompts_model()[i],
                        old(self).prompts_model()[i],
                        false,
                    )
                } else {
                    final(self).prompts_model()[i] == old(self).prompts_model()[i]
                }),
    {
        let ghost pm0 = self.prompts_model();
        let pi = match self.position_of(id) {
            Some(i) => i,
            None => {
                return false;
            },
        };
        // put the previously deployed version's flag down, when it is a
        // different version and still stored
        let old_active: Option<PromptId> = match self.active_position(id.character_id) {
            Some(row) => Some(self.active_prompts[row].1),
            None => None,
        };
        proof {
            match old_active {
                Some(oid) => {
                    assert(old(self).spec_active_id(id.character_id) == Some(oid)) by {
                        let am = self.active_model();
                        let w = choose|a: int|
                            0 <= a < am.len() && (#[trigger] am[a]).0 == id.character_id;
                        assert(am[w].0 == id.character_id);
                    }
                },
                None => {
                    assert(old(self).spec_active_id(id.character_id) is None);
                },
            }
        }
        if let Some(oid) = old_active {
            let same = oid.character_id == id.character_id && oid.version == id.version;
            if !same {
                match self.position_of(oid) {
                    Some(oi) => {
                        let mut p = self.prompts[oi].duplicate();
                        p.is_active = false;
                        let ghost pv = p;
                        self.prompts.set(oi, p);
                        proof {
                            assert(pv.id == pm0[oi as int].id);
                            assert(same_prompt_with_activity(pv, pm0[oi as int], false));
                            assert(self.prompts_model() =~= pm0.update(oi as int, pv));
                            lemma_ids_stay_unique(pm0, self.prompts_model(), oi as int);
                        }
                    },
                    None => {
                    },
                }
            }
        }
        // raise the chosen version's flag
        let ghost pm1 = self.prompts_model();
        proof {
            assert(pm1[pi as int].id == id) by {
                assert(pm0[pi as int].id == id);
            }
        }
        let mut p = self.prompts[pi].duplicate();
        p.is_active = true;
        let ghost pv1 = p;
        self.prompts.set(pi, p);
        proof {
            assert(pv1.id == pm1[pi as int].id);
            assert(same_prompt_with_activity(pv1, pm1[pi as int], true));
            assert(self.prompts_model() =~= pm1.update(pi as int, pv1));
            lemma_ids_stay_unique(pm1, self.prompts_model(), pi as int);
            assert(self.active_model() == old(self).active_model());
            assert(self.ab_model() == old(self).ab_model());
            assert(self.wf());
        }
        self.set_active_row(id);
        proof {
            let pmf = self.prompts_model();
            assert forall|i: int| 0 <= i < pm0.len() implies (if pm0[i].id == id {
                same_prompt_with_activity(#[trigger] pmf[i], pm0[i], true)
            } else if Some(pm0[i].id) == old(self).spec_active_id(id.character_id) {
                same_prompt_with_activity(pmf[i], pm0[i], false)
            } else {
                pmf[i] == pm0[i]
            }) by {
                if i == pi as int {
                    assert(pm0[i].id == id);
                    assert(pmf[i] == pv1);
                    assert(same_prompt_with_activity(pm1[pi as int], pm0[i], pm1[
                        pi as int].is_active) || pm1[pi as int] == pm0[i]);
                } else {
                    assert(pmf[i] == pm1[i]);
                    assert(pm0[i].id != id) by {
                        assert(pm0[i].id != pm0[pi as int].id);
                    }
                }
            }
        }
        true
    }

    /// Starts a comparison trial between two versions of one character;
    /// answers whether both exist and belong together.
    pub fn start_ab_test(&mut self, variant_a: PromptId, variant_b: PromptId) -> (r: bool)
        requires
            old(self).wf(),
        ensures
            final(self).wf(),
            r == (variant_a.character_id == variant_b.character_id && old(self).spec_has_prompt(
                variant_a,
            ) && old(self).spec_has_prompt(variant_b)),
    {
        if variant_a.character_id != variant_b.character_id {
            return false;
        }
        let have_a = self.contains(&variant_a);
        let have_b = self.contains(&variant_b);
        if !have_a || !have_b {
            return false;
        }
        let character_id = variant_a.character_id;
        let ghost abm = self.ab_model();
        let mut i: usize = 0;
        let mut found: Option<usize> = None;
        while i < self.ab_tests.len()
            invariant
                i <= self.ab_model().len(),
                abm == self.ab_model(),
                match found {
                    Some(f) => f < i && abm[f as int].0 == character_id,
                    None => forall|m: int| 0 <= m < i ==> (#[trigger] abm[m]).0 != character_id,
                },
            decreases self.ab_model().len() - i,
        {
            if self.ab_tests[i].0 == character_id {
                found = Some(i);
                i = self.ab_tests.len();
            } else {
                i = i + 1;
            }
        }
        match found {
            Some(f) => {
                self.ab_tests.set(f, (character_id, (variant_a, variant_b)));
                proof {
                    assert(self.prompts_model() == old(self).prompts_model());
                    assert(self.active_model() == old(self).active_model());
                    assert(self.ab_model() =~= abm.update(
                        f as int,
                        (character_id, (variant_a, variant_b)),
                    ));
                    assert forall|a: int, b: int|
                        0 <= a < b < self.ab_model().len() implies (#[trigger] self.ab_model()[
                    a]).0 != (#[trigger] self.ab_model()[b]).0 by {
                        assert(abm[a].0 != abm[b].0);
                        if a != f as int {
                            assert(self.ab_model()[a] == abm[a]);
                        }
                        if b != f as int {
                            assert(self.ab_model()[b] == abm[b]);
                        }
                    }
                }
            },
            None => {
                self.ab_tests.push((character_id, (variant_a, variant_b)));
                proof {
                    assert(self.prompts_model() == old(self).prompts_model());
                    assert(self.active_model() == old(self).active_model());
                    assert(self.ab_model() =~= abm.push((character_id, (variant_a, variant_b))));
                    assert forall|a: int, b: int|
                        0 <= a < b < self.ab_model().len() implies (#[trigger] self.ab_model()[
                    a]).0 != (#[trigger] self.ab_model()[b]).0 by {
                        if b < abm.len() {
                            assert(self.ab_model()[a] == abm[a]);
                            assert(self.ab_model()[b] == abm[b]);
                        } else {
                            assert(self.ab_model()[a] == abm[a]);
                        }
                    }
                }
            },
        }
        true
    }

    /// The trial variant for the given invocation: even invocations get
    /// the first variant, odd ones the second.
    pub fn get_ab_variant(&self, character_id: u32, invocation: u64) -> (r: Option<&Prompt>)
        requires
            self.wf(),
        ensures
            r matches Some(p) ==> self.spec_has_prompt(p.id),
    {
        let mut i: usize = 0;
        while i < self.ab_tests.len()
            invariant
                self.wf(),
                i <= self.ab_model().len(),
            decreases self.ab_model().len() - i,
        {
            if self.ab_tests[i].0 == character_id {
                let pair = self.ab_tests[i].1;
                let id = if invocation % 2 == 0 {
                    pair.0
                } else {
                    pair.1
                };
                let r = self.get(&id);
                return r;
            }
            i = i + 1;
        }
        None
    }

    /// Finds the row of a character's running trial.
    fn ab_position(&self, character_id: u32) -> (r: Option<usize>)
        ensures
            match r {
                Some(i) => i < self.ab_model().len() && self.ab_model()[i as int].0
                    == character_id,
                None => forall|m: int|
                    0 <= m < self.ab_model().len() ==> (#[trigger] self.ab_model()[m]).0
                        != character_id,
            },
    {
        let mut i: usize = 0;
        while i < self.ab_tests.len()
            invariant
                i <= self.ab_model().len(),
                forall|m: int| 0 <= m < i ==> (#[trigger] self.ab_model()[m]).0 != character_id,
            decreases self.ab_model().len() - i,
        {
            if self.ab_tests[i].0 == character_id {
                return Some(i);
            }
            i = i + 1;
        }
        None
    }

    /// Ends a character's trial: the registered pair leaves the table,
    /// the variant with the higher success rate (the first on a tie)
    /// becomes the deployed version, and the winner is answered; with no
    /// trial registered, nothing changes.
    pub fn end_ab_test(&mut self, character_id: u32) -> (r: Option<PromptId>)
        requires
            old(self).wf(),
        ensures
            final(self).wf(),
            match r {
                None => old(self).spec_ab_pair(character_id) is None && final(self).prompts_model()
                    == old(self).prompts_model() && final(self).active_model() == old(
                    self,
                ).active_model() && final(self).ab_model() == old(self).ab_model(),
                Some(w) => {
                    &&& (old(self).spec_ab_pair(character_id) matches Some(pair) && w == (
                    if old(self).spec_rate(pair.0) >= old(self).spec_rate(pair.1) {
                        pair.0
                    } else {
                        pair.1
                    }))
                    &&& final(self).spec_ab_pair(character_id) is None
                    &&& forall|c: u32|
                        c != character_id ==> #[trigger] final(self).spec_ab_pair(c) == old(
                            self,
                        ).spec_ab_pair(c)
                    &&& final(self).ab_model().len() + 1 == old(self).ab_model().len()
                    &&& (old(self).spec_has_prompt(w) ==> final(self).spec_active_id(character_id)
                        == Some(w) && final(self).spec_has_prompt(w) && final(self).prompt_of(
                        w,
                    ).is_active)
                    &&& (!old(self).spec_has_prompt(w) ==> final(self).prompts_model() == old(
                        self,
                    ).prompts_model() && final(self).active_model() == old(self).active_model())
                },
            },
    {
        let f = match self.ab_position(character_id) {
            Some(f) => f,
            None => {
                proof {
                    assert(self.spec_ab_pair(character_id) is None);
                }
                return None;
            },
        };
        let (a, b) = self.ab_tests[f].1;
        let ghost abm = self.ab_model();
        proof {
            assert(a.character_id == character_id && b.character_id == character_id) by {
                assert(abm[f as int].1.0.character_id == abm[f as int].0);
                assert(abm[f as int].1.1.character_id == abm[f as int].0);
            }
            assert(old(self).spec_ab_pair(character_id) == Some((a, b))) by {
                let w = choose|m: int|
                    0 <= m < abm.len() && (#[trigger] abm[m]).0 == character_id;
                assert(w == f as int) by {
                    if w != f as int {
                        assert(abm[w].0 != abm[f as int].0);
                    }
                }
            }
        }
        self.ab_tests.remove(f);
        proof {
            assert(self.prompts_model() == old(self).prompts_model());
            assert(self.active_model() == old(self).active_model());
            assert(self.ab_model() =~= abm.remove(f as int));
            assert forall|x: int, y: int|
                0 <= x < y < self.ab_model().len() implies (#[trigger] self.ab_model()[x]).0 != (
            #[trigger] self.ab_model()[y]).0 by {
                let x0: int = if x < f as int {
                    x
                } else {
                    x + 1
                };
                let y0: int = if y < f as int {
                    y
                } else {
                    y + 1
                };
                assert(self.ab_model()[x] == abm[x0] && self.ab_model()[y] == abm[y0]);
            }
            // the character's trial is gone, the others stand untouched
            assert(self.spec_ab_pair(character_id) is None) by {
                if exists|m: int|
                    0 <= m < self.ab_model().len() && (#[trigger] self.ab_model()[m]).0
                        == character_id {
                    let w = choose|m: int|
                        0 <= m < self.ab_model().len() && (#[trigger] self.ab_model()[m]).0
                            == character_id;
                    let w0: int = if w < f as int {
                        w
                    } else {
                        w + 1
                    };
                    assert(self.ab_model()[w] == abm[w0]);
                    assert(abm[w0].0 != abm[f as int].0);
                }
            }
            assert forall|c: u32| c != character_id implies #[trigger] self.spec_ab_pair(c) == old(
                self,
            ).spec_ab_pair(c) by {
                lemma_ab_rows_agree_remove(abm, self.ab_model(), f as int, c);
            }
        }
        let ghost mid = *self;
        let a_rate: u8 = match self.get(&a) {
            Some(p) => {
                proof {
                    let w = choose|m: int|
                        0 <= m < self.prompts_model().len() && (#[trigger] self.prompts_model()[
                        m]).id == a;
                }
                if p.metrics.successes <= p.metrics.invocations {
                    p.metrics.success_rate()
                } else {
                    0
                }
            },
            None => 0,
        };
        proof {
            assert(a_rate as nat == old(self).spec_rate(a));
        }
        let b_rate: u8 = match self.get(&b) {
            Some(p) => {
                proof {
                    let w = choose|m: int|
                        0 <= m < self.prompts_model().len() && (#[trigger] self.prompts_model()[
                        m]).id == b;
                }
                if p.metrics.successes <= p.metrics.invocations {
                    p.metrics.success_rate()
                } else {
                    0
                }
            },
            None => 0,
        };
        proof {
            assert(b_rate as nat == old(self).spec_rate(b));
        }
        let winner = if a_rate >= b_rate {
            a
        } else {
            b
        };
        let deployed = self.set_active(winner);
        proof {
            assert(self.ab_model() == mid.ab_model());
            assert(self.spec_ab_pair(character_id) is None) by {
                assert(mid.spec_ab_pair(character_id) is None);
            }
            assert forall|c: u32|
                c != character_id implies #[trigger] self.spec_ab_pair(c) == old(
                self,
            ).spec_ab_pair(c) by {
                assert(mid.spec_ab_pair(c) == old(self).spec_ab_pair(c));
            }
            assert(self.ab_model().len() + 1 == old(self).ab_model().len());
            assert(winner == (if old(self).spec_rate(a) >= old(self).spec_rate(b) {
                a
            } else {
                b
            }));
            assert(deployed == old(self).spec_has_prompt(winner));
            if deployed {
                assert(final_has_active(*self, winner)) by {
                    let pmf = self.prompts_model();
                    let pm_mid = mid.prompts_model();
                    let w = choose|m: int|
                        0 <= m < pm_mid.len() && (#[trigger] pm_mid[m]).id == winner;
                    assert(crate::prompts::same_prompt_with_activity(pmf[w], pm_mid[w], true));
                    assert(pmf[w].id == winner && pmf[w].is_active);
                    let w2 = choose|m: int|
                        0 <= m < pmf.len() && (#[trigger] pmf[m]).id == winner;
                    assert(w2 == w) by {
                        if w2 != w {
                            assert(pmf[w2].id != pmf[w].id);
                        }
                    }
                }
            }
        }
        Some(winner)
    }

    /// Every stored version of a character.
    pub fn get_all_versions(&self, character_id: u32) -> (r: Vec<&Prompt>)
        ensures
            forall|p: int|
                0 <= p < r@.len() ==> (#[trigger] r@[p]).id.character_id == character_id,
    {
        let mut r: Vec<&Prompt> = Vec::new();
        let mut i: usize = 0;
        while i < self.prompts.len()
            invariant
                i <= self.prompts_model().len(),
                forall|p: int|
                    0 <= p < r@.len() ==> (#[trigger] r@[p]).id.character_id == character_id,
            decreases self.prompts_model().len() - i,
        {
            if self.prompts[i].id.character_id == character_id {
                r.push(&self.prompts[i]);
            }
            i = i + 1;
        }
        r
    }

    /// Every stored version directly evolved from the given one.
    pub fn get_children(&self, id: &PromptId) -> (r: Vec<&Prompt>)
        ensures
            forall|p: int| 0 <= p < r@.len() ==> (#[trigger] r@[p]).parent_id == Some(*id),
    {
        let mut r: Vec<&Prompt> = Vec::new();
        let mut i: usize = 0;
        while i < self.prompts.len()
            invariant
                i <= self.prompts_model().len(),
                forall|p: int| 0 <= p < r@.len() ==> (#[trigger] r@[p]).parent_id == Some(*id),
            decreases self.prompts_model().len() - i,
        {
            let matches_parent = match &self.prompts[i].parent_id {
                Some(pid) => pid.character_id == id.character_id && pid.version == id.version,
                None => false,
            };
            if matches_parent {
                r.push(&self.prompts[i]);
            }
            i = i + 1;
        }
        r
    }

    /// Rewrites a prompt's certification, when the version exists.
    pub fn update_certification(&mut self, id: &PromptId, level: CertificationLevel)
        requires
            old(self).wf(),
        ensures
            final(self).wf(),
            final(self).prompts_model().len() == old(self).prompts_model().len(),
            old(self).spec_has_prompt(*id) ==> exists|i: int|
                0 <= i < final(self).prompts_model().len() && (#[trigger] final(self).prompts_model()[i]).id == *id && final(self).prompts_model()[i].certification
                    == level,
    {
        let ghost pm = self.prompts_model();
        match self.position_of(*id) {
            Some(i) => {
                let mut p = self.prompts[i].duplicate();
                p.certification = level;
                let ghost pv = p;
                self.prompts.set(i, p);
                proof {
                    assert(pv.id == pm[i as int].id);
                    assert(self.prompts_model() =~= pm.update(i as int, pv));
                    assert forall|a: int, b: int|
                        0 <= a < b < self.prompts_model().len() implies (
                    #[trigger] self.prompts_model()[a]).id != (#[trigger] self.prompts_model()[
                    b]).id by {
                        assert(pm[a].id != pm[b].id);
                        if a != i as int {
                            assert(self.prompts_model()[a] == pm[a]);
                        }
                        if b != i as int {
                            assert(self.prompts_model()[b] == pm[b]);
                        }
                    }
                    assert(self.prompts_model()[i as int].id == *id
                        && self.prompts_model()[i as int].certification == level);
                    assert(self.active_model() == old(self).active_model());
                    assert(self.ab_model() == old(self).ab_model());
                    assert(self.wf());
                }
            },
            None => {
            },
        }
    }

    /// Every deployed prompt playing the given role.
    pub fn get_by_role(&self, role: PromptRole) -> (r: Vec<&Prompt>)
        ensures
            forall|p: int|
                0 <= p < r@.len() ==> (#[trigger] r@[p]).role == role && r@[p].is_active,
    {
        let mut r: Vec<&Prompt> = Vec::new();
        let mut i: usize = 0;
        while i < self.prompts.len()
            invariant
                i <= self.prompts_model().len(),
                forall|p: int|
                    0 <= p < r@.len() ==> (#[trigger] r@[p]).role == role && r@[p].is_active,
            decreases self.prompts_model().len() - i,
        {
            if self.prompts[i].role == role && self.prompts[i].is_active {
                r.push(&self.prompts[i]);
            }
            i = i + 1;
        }
        r
    }

    /// Every prompt certified or above.
    pub fn get_certified(&self) -> (r: Vec<&Prompt>)
        ensures
            forall|p: int|
                0 <= p < r@.len() ==> (#[trigger] r@[p]).certification.spec_rank() >= 2,
    {
        let mut r: Vec<&Prompt> = Vec::new();
        let mut i: usize = 0;
        while i < self.prompts.len()
            invariant
                i <= self.prompts_model().len(),
                forall|p: int|
                    0 <= p < r@.len() ==> (#[trigger] r@[p]).certification.spec_rank() >= 2,
            decreases self.prompts_model().len() - i,
        {
            if self.prompts[i].certification.rank() >= 2 {
                r.push(&self.prompts[i]);
            }
            i = i + 1;
        }
        r
    }

    /// Summary statistics.
    pub fn stats(&self) -> (r: LibraryStats)
        ensures
            r.total_prompts == self.prompts_model().len(),
            r.active_characters == self.active_model().len(),
            r.running_ab_tests == self.ab_model().len(),
    {
        let certified = self.get_certified().len();
        LibraryStats {
            total_prompts: self.prompts.len(),
            active_characters: self.active_prompts.len(),
            certified_prompts: certified,
            running_ab_tests: self.ab_tests.len(),
        }
    }
}

/// A row table updated at one position leaves every other character's
/// lookup alone.
proof fn lemma_active_rows_agree(
    am: Seq<(u32, PromptId)>,
    nm: Seq<(u32, PromptId)>,
    i: int,
    c: u32,
)
    requires
        0 <= i < am.len(),
        nm.len() == am.len(),
        forall|j: int| 0 <= j < nm.len() && j != i ==> #[trigger] nm[j] == am[j],
        nm[i].0 != c,
        am[i].0 != c,
        forall|a: int, b: int| 0 <= a < b < am.len() ==> (#[trigger] am[a]).0 != (#[trigger] am[b]).0,
    ensures
        lookup_row(nm, c) == lookup_row(am, c),
{
    if exists|j: int| 0 <= j < am.len() && (#[trigger] am[j]).0 == c {
        let w = choose|j: int| 0 <= j < am.len() && (#[trigger] am[j]).0 == c;
        assert(w != i);
        assert(nm[w] == am[w]);
        assert(exists|j: int| 0 <= j < nm.len() && (#[trigger] nm[j]).0 == c);
        let w2 = choose|j: int| 0 <= j < nm.len() && (#[trigger] nm[j]).0 == c;
        assert(w2 != i);
        assert(nm[w2] == am[w2]);
        assert(w2 == w) by {
            if w2 != w {
                assert(am[w2].0 != am[w].0 || am[w].0 != am[w2].0);
            }
        }
    } else {
        if exists|j: int| 0 <= j < nm.len() && (#[trigger] nm[j]).0 == c {
            let w2 = choose|j: int| 0 <= j < nm.len() && (#[trigger] nm[j]).0 == c;
            assert(w2 != i);
            assert(am[w2].0 == c);
        }
    }
}

/// A row table extended with a row for another character leaves every
/// other character's lookup alone.
proof fn lemma_active_rows_agree_push(
    am: Seq<(u32, PromptId)>,
    nm: Seq<(u32, PromptId)>,
    cid: u32,
    c: u32,
)
    requires
        nm.len() == am.len() + 1,
        forall|j: int| 0 <= j < am.len() ==> #[trigger] nm[j] == am[j],
        nm[am.len() as int].0 == cid,
        c != cid,
        forall|a: int, b: int| 0 <= a < b < am.len() ==> (#[trigger] am[a]).0 != (#[trigger] am[b]).0,
    ensures
        lookup_row(nm, c) == lookup_row(am, c),
{
    if exists|j: int| 0 <= j < am.len() && (#[trigger] am[j]).0 == c {
        let w = choose|j: int| 0 <= j < am.len() && (#[trigger] am[j]).0 == c;
        assert(nm[w] == am[w]);
        assert(exists|j: int| 0 <= j < nm.len() && (#[trigger] nm[j]).0 == c);
        let w2 = choose|j: int| 0 <= j < nm.len() && (#[trigger] nm[j]).0 == c;
        assert(w2 != am.len() as int);
        assert(nm[w2] == am[w2]);
        assert(w2 == w) by {
            if w2 != w {
                assert(am[w2].0 != am[w].0 || am[w].0 != am[w2].0);
            }
        }
    } else {
        if exists|j: int| 0 <= j < nm.len() && (#[trigger] nm[j]).0 == c {
            let w2 = choose|j: int| 0 <= j < nm.len() && (#[trigger] nm[j]).0 == c;
            assert(w2 != am.len() as int);
            assert(am[w2].0 == c);
        }
    }
}

/// An update that keeps a slot's id keeps the ids pairwise distinct.
proof fn lemma_ids_stay_unique(pm: Seq<Prompt>, nm: Seq<Prompt>, i: int)
    requires
        0 <= i < pm.len(),
        nm.len() == pm.len(),
        forall|j: int| 0 <= j < pm.len() && j != i ==> #[trigger] nm[j] == pm[j],
        nm[i].id == pm[i].id,
        forall|a: int, b: int| 0 <= a < b < pm.len() ==> (#[trigger] pm[a]).id != (#[trigger] pm[b]).id,
    ensures
        forall|a: int, b: int| 0 <= a < b < nm.len() ==> (#[trigger] nm[a]).id != (#[trigger] nm[b]).id,
{
    assert forall|a: int, b: int|
        0 <= a < b < nm.len() implies (#[trigger] nm[a]).id != (#[trigger] nm[b]).id by {
        assert(pm[a].id != pm[b].id);
        if a != i {
            assert(nm[a] == pm[a]);
        }
        if b != i {
            assert(nm[b] == pm[b]);
        }
    }
}

/// A trial table with one row removed leaves every other character's
/// lookup alone.
proof fn lemma_ab_rows_agree_remove(
    am: Seq<(u32, (PromptId, PromptId))>,
    nm: Seq<(u32, (PromptId, PromptId))>,
    f: int,
    c: u32,
)
    requires
        0 <= f < am.len(),
        nm == am.remove(f),
        am[f].0 != c,
        forall|a: int, b: int| 0 <= a < b < am.len() ==> (#[trigger] am[a]).0 != (#[trigger] am[b]).0,
    ensures
        lookup_ab_row(nm, c) == lookup_ab_row(am, c),
{
    assert(nm =~= am.subrange(0, f) + am.skip(f + 1));
    if exists|j: int| 0 <= j < am.len() && (#[trigger] am[j]).0 == c {
        let w = choose|j: int| 0 <= j < am.len() && (#[trigger] am[j]).0 == c;
        assert(w != f);
        let w1: int = if w < f {
            w
        } else {
            w - 1
        };
        assert(nm[w1] == am[w]);
        assert(exists|j: int| 0 <= j < nm.len() && (#[trigger] nm[j]).0 == c);
        let w2 = choose|j: int| 0 <= j < nm.len() && (#[trigger] nm[j]).0 == c;
        let w20: int = if w2 < f {
            w2
        } else {
            w2 + 1
        };
        assert(nm[w2] == am[w20]);
        assert(w20 == w) by {
            if w20 != w {
                assert(am[w20].0 != am[w].0 || am[w].0 != am[w20].0);
            }
        }
    } else {
        if exists|j: int| 0 <= j < nm.len() && (#[trigger] nm[j]).0 == c {
            let w2 = choose|j: int| 0 <= j < nm.len() && (#[trigger] nm[j]).0 == c;
            let w20: int = if w2 < f {
                w2
            } else {
                w2 + 1
            };
            assert(nm[w2] == am[w20]);
        }
    }
}

/// The trial row a character's lookup lands on, as an option.
pub open spec fn lookup_ab_row(rows: Seq<(u32, (PromptId, PromptId))>, c: u32) -> Option<
    (PromptId, PromptId),
> {
    if exists|i: int| 0 <= i < rows.len() && (#[trigger] rows[i]).0 == c {
        Some(rows[choose|i: int| 0 <= i < rows.len() && (#[trigger] rows[i]).0 == c].1)
    } else {
        None
    }
}

/// Whether a library holds the prompt and shows it active.
pub open spec fn final_has_active(lib: PromptLibrary, id: PromptId) -> bool {
    lib.spec_has_prompt(id) && lib.prompt_of(id).is_active
}

/// The row a character's lookup lands on, as an option.
pub open spec fn lookup_row(rows: Seq<(u32, PromptId)>, c: u32) -> Option<PromptId> {
    if exists|i: int| 0 <= i < rows.len() && (#[trigger] rows[i]).0 == c {
        Some(
            rows[choose|i: int| 0 <= i < rows.len() && (#[trigger] rows[i]).0 == c].1,
        )
    } else {
        None
    }
}

/// A character id not yet present in the library makes a fresh prompt
/// id.
proof fn lemma_fresh_character(lib: PromptLibrary, held: Seq<Prompt>, next_char: u32)
    requires
        lib.prompts_model() == held,
        forall|i: int|
            0 <= i < held.len() ==> (#[trigger] held[i]).id.character_id < next_char,
    ensures
        forall|id: PromptId| id.character_id == next_char ==> !lib.spec_has_prompt(id),
{
    assert forall|id: PromptId| id.character_id == next_char implies !lib.spec_has_prompt(id) by {
        if lib.spec_has_prompt(id) {
            let w = choose|i: int|
                0 <= i < lib.prompts_model().len() && (#[trigger] lib.prompts_model()[i]).id == id;
            assert(held[w].id.character_id < next_char);
        }
    }
}

} // verus!
