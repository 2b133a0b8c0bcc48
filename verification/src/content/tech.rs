//! Research state: which technologies are researched, which one is active.
//! Lab timing and the science bank are floating-point bookkeeping kept by
//! the simulation beside this state.

use vstd::prelude::*;
use vstd::string::StringExecFns;
use crate::content::pack::texts;
use crate::content::registry::ContentRegistry;
use crate::text::str_eq;

verus! {

/// Technology progression for Era 1.
#[derive(Clone, Debug)]
pub struct TechState {
    pub researched: Vec<String>,
    /// Active research tech id.
    pub active: Option<String>,
    /// Era 2 unlocked via the era-transition tech.
    pub era2_unlocked: bool,
}

/// Techs researched from the start: the industrial spine, so the first
/// factory loops are playable while military / laser / nexus stay gated.
pub open spec fn starter_techs() -> Seq<Seq<char>> {
    seq![
        "era1_tech_basic_recovery"@,
        "era1_tech_basic_extraction"@,
        "era1_tech_material_processing"@,
        "era1_tech_basic_metallurgy"@,
        "era1_tech_fluid_engineering"@,
        "era1_tech_research_infrastructure"@,
        "era1_tech_industrial_automation"@,
        "era1_tech_structural_engineering"@,
        "era1_tech_waste_recovery"@,
    ]
}

pub open spec fn ERA_TRANSITION() -> Seq<char> {
    "era1_tech_era_transition"@
}


/// Prerequisites of the registry's tech with this id; none when the id names
/// no tech.
pub open spec fn prereqs_of(reg: &ContentRegistry, id: Seq<char>) -> Seq<Seq<char>> {
    if reg.has_tech_id(id) {
        texts(reg.techs[choose|i: int| 0 <= i < reg.techs.len() && reg.techs[i].id@ == id].prerequisites@)
    } else {
        Seq::empty()
    }
}

/// A chain of ids, each a prerequisite of the one before.
pub open spec fn prereq_chain(reg: &ContentRegistry, path: Seq<Seq<char>>) -> bool {
    &&& path.len() >= 1
    &&& forall|i: int| 0 <= i < path.len() - 1 ==> prereqs_of(reg, #[trigger] path[i]).contains(path[i + 1])
}

/// `id` is `root` or a prerequisite of it, directly or through others.
pub open spec fn needs(reg: &ContentRegistry, root: Seq<char>, id: Seq<char>) -> bool {
    exists|path: Seq<Seq<char>>| #[trigger] prereq_chain(reg, path) && path[0] == root && path.last() == id
}

/// Every prerequisite text of every tech, in table order.
pub open spec fn all_prereqs(ts: Seq<crate::content::types::RuntimeTech>) -> Seq<Seq<char>>
    decreases ts.len(),
{
    if ts.len() == 0 {
        Seq::empty()
    } else {
        all_prereqs(ts.drop_last()) + texts(ts.last().prerequisites@)
    }
}

proof fn lemma_all_prereqs_has(ts: Seq<crate::content::types::RuntimeTech>, i: int, j: int)
    requires
        0 <= i < ts.len(),
        0 <= j < ts[i].prerequisites@.len(),
    ensures
        all_prereqs(ts).contains(ts[i].prerequisites@[j]@),
    decreases ts.len(),
{
    let rest = all_prereqs(ts.drop_last());
    let last = texts(ts.last().prerequisites@);
    if i == ts.len() - 1 {
        assert((rest + last)[rest.len() + j] == last[j]);
    } else {
        lemma_all_prereqs_has(ts.drop_last(), i, j);
        let k = choose|k: int| 0 <= k < rest.len() && rest[k] == ts[i].prerequisites@[j]@;
        assert((rest + last)[k] == rest[k]);
    }
}

/// Ids in a set closed under prerequisites include everything a chain from
/// one of them reaches.
proof fn lemma_closed_chain(reg: &ContentRegistry, vis: Seq<Seq<char>>, path: Seq<Seq<char>>)
    requires
        prereq_chain(reg, path),
        vis.contains(path[0]),
        forall|k: int| 0 <= k < vis.len() ==> forall|c: int| 0 <= c < prereqs_of(reg, #[trigger] vis[k]).len()
            ==> vis.contains(prereqs_of(reg, vis[k])[c]),
    ensures
        vis.contains(path.last()),
    decreases path.len(),
{
    if path.len() > 1 {
        let front = path.drop_last();
        assert(prereq_chain(reg, front)) by {
            assert forall|i: int| 0 <= i < front.len() - 1 implies prereqs_of(reg, #[trigger] front[i]).contains(
                front[i + 1],
            ) by {
                assert(front[i] == path[i] && front[i + 1] == path[i + 1]);
            }
        }
        lemma_closed_chain(reg, vis, front);
        let x = path[path.len() - 2];
        assert(front.last() == x);
        let k = choose|k: int| 0 <= k < vis.len() && vis[k] == x;
        assert(prereqs_of(reg, x).contains(path.last()));
        let c = choose|c: int| 0 <= c < prereqs_of(reg, x).len() && prereqs_of(reg, x)[c] == path.last();
        assert(vis.contains(prereqs_of(reg, vis[k])[c]));
    }
}

/// Whether a list of strings holds `s`.
fn texts_contain(v: &Vec<String>, s: &str) -> (r: bool)
    ensures
        r == texts(v@).contains(s@),
{
    let mut i: usize = 0;
    while i < v.len()
        invariant
            i <= v.len(),
            forall|j: int| 0 <= j < i ==> texts(v@)[j] != s@,
        decreases v.len() - i,
    {
        if str_eq(v[i].as_str(), s) {
            assert(texts(v@)[i as int] == s@);
            return true;
        }
        i += 1;
    }
    false
}

/// `root` and every tech it needs, directly or through other prerequisites,
/// each once.
fn prereq_closure(reg: &ContentRegistry, root: &str) -> (r: Vec<String>)
    requires
        reg.wf(),
    ensures
        forall|id: Seq<char>| texts(r@).contains(id) <==> needs(reg, root@, id),
{
    let ghost universe = seq![root@] + all_prereqs(reg.techs@);
    let mut vis: Vec<String> = Vec::new();
    vis.push(String::from_str(root));
    let mut head: usize = 0;
    proof {
        assert(prereq_chain(reg, seq![root@]));
        assert(texts(vis@) =~= seq![root@]);
        assert(universe[0] == root@);
    }
    while head < vis.len()
        invariant
            reg.wf(),
            head <= vis.len(),
            texts(vis@).len() > 0,
            texts(vis@)[0] == root@,
            texts(vis@).no_duplicates(),
            forall|k: int| 0 <= k < vis.len() ==> universe.contains(#[trigger] texts(vis@)[k]),
            forall|k: int| 0 <= k < vis.len() ==> needs(reg, root@, #[trigger] texts(vis@)[k]),
            forall|k: int|
                0 <= k < head ==> forall|c: int|
                    0 <= c < prereqs_of(reg, #[trigger] texts(vis@)[k]).len() ==> texts(vis@).contains(
                        prereqs_of(reg, texts(vis@)[k])[c],
                    ),
            universe == seq![root@] + all_prereqs(reg.techs@),
        decreases universe.len() - head,
    {
        proof {
            let tv = texts(vis@);
            assert(tv.to_set().subset_of(universe.to_set())) by {
                assert forall|x: Seq<char>| tv.to_set().contains(x) implies universe.to_set().contains(x) by {
                    let k = choose|k: int| 0 <= k < tv.len() && tv[k] == x;
                    assert(universe.contains(tv[k]));
                }
            }
            tv.unique_seq_to_set();
            universe.lemma_cardinality_of_set();
            vstd::set_lib::lemma_len_subset(tv.to_set(), universe.to_set());
        }
        let x = vis[head].clone();
        let ghost xk = texts(vis@)[head as int];
        assert(x@ == xk);
        match reg.tech_by_str(x.as_str()) {
            Some(t) => {
                let ghost ti = choose|i: int| 0 <= i < reg.techs.len() && reg.techs[i] == *t;
                proof {
                    let c = choose|i: int| 0 <= i < reg.techs.len() && reg.techs[i].id@ == x@;
                    assert(reg.techs[ti].id@ == x@);
                    if c != ti {
                        if c < ti {
                            assert(reg.techs[c].id@ != reg.techs[ti].id@);
                        } else {
                            assert(reg.techs[ti].id@ != reg.techs[c].id@);
                        }
                    }
                    assert(prereqs_of(reg, x@) == texts(t.prerequisites@));
                }
                let mut j: usize = 0;
                while j < t.prerequisites.len()
                    invariant
                        reg.wf(),
                        head < vis.len(),
                        0 <= ti < reg.techs.len(),
                        reg.techs[ti] == *t,
                        prereqs_of(reg, x@) == texts(t.prerequisites@),
                        texts(vis@)[head as int] == x@,
                        j <= t.prerequisites.len(),
                        texts(vis@).len() > 0,
                        texts(vis@)[0] == root@,
                        texts(vis@).no_duplicates(),
                        forall|k: int| 0 <= k < vis.len() ==> universe.contains(#[trigger] texts(vis@)[k]),
                        forall|k: int| 0 <= k < vis.len() ==> needs(reg, root@, #[trigger] texts(vis@)[k]),
                        forall|k: int|
                            0 <= k < head ==> forall|c: int|
                                0 <= c < prereqs_of(reg, #[trigger] texts(vis@)[k]).len() ==> texts(
                                    vis@,
                                ).contains(prereqs_of(reg, texts(vis@)[k])[c]),
                        forall|c: int| 0 <= c < j ==> texts(vis@).contains(#[trigger] texts(t.prerequisites@)[c]),
                        universe == seq![root@] + all_prereqs(reg.techs@),
                    decreases t.prerequisites.len() - j,
                {
                    let p = &t.prerequisites[j];
                    if !texts_contain(&vis, p.as_str()) {
                        let ghost before = texts(vis@);
                        proof {
                            lemma_all_prereqs_has(reg.techs@, ti, j as int);
                            let a = all_prereqs(reg.techs@);
                            let q = choose|q: int| 0 <= q < a.len() && a[q] == p@;
                            assert(universe[q + 1] == a[q]);
                            let path = choose|path: Seq<Seq<char>>| #[trigger]
                                prereq_chain(reg, path) && path[0] == root@ && path.last() == x@;
                            let longer = path.push(p@);
                            assert(prereqs_of(reg, x@).contains(p@)) by {
                                assert(texts(t.prerequisites@)[j as int] == p@);
                            }
                            assert(prereq_chain(reg, longer)) by {
                                assert forall|i: int| 0 <= i < longer.len() - 1 implies prereqs_of(
                                    reg,
                                    #[trigger] longer[i],
                                ).contains(longer[i + 1]) by {
                                    if i < path.len() - 1 {
                                        assert(longer[i] == path[i] && longer[i + 1] == path[i + 1]);
                                    } else {
                                        assert(longer[i] == x@ && longer[i + 1] == p@);
                                    }
                                }
                            }
                            assert(needs(reg, root@, p@));
                        }
                        vis.push(p.clone());
                        proof {
                            let tv = texts(vis@);
                            assert(tv =~= before.push(p@));
                            assert forall|k: int|
                                0 <= k < head implies forall|c: int|
                                0 <= c < prereqs_of(reg, #[trigger] tv[k]).len() ==> tv.contains(
                                    prereqs_of(reg, tv[k])[c],
                                ) by {
                                assert(tv[k] == before[k]);
                                assert forall|c: int| 0 <= c < prereqs_of(reg, tv[k]).len() implies tv.contains(
                                    prereqs_of(reg, tv[k])[c],
                                ) by {
                                    let w = prereqs_of(reg, before[k])[c];
                                    assert(before.contains(w));
                                    let z = choose|z: int| 0 <= z < before.len() && before[z] == w;
                                    assert(tv[z] == w);
                                }
                            }
                            assert forall|c: int| 0 <= c < j + 1 implies tv.contains(
                                #[trigger] texts(t.prerequisites@)[c],
                            ) by {
                                if c < j {
                                    let w = texts(t.prerequisites@)[c];
                                    assert(before.contains(w));
                                    let z = choose|z: int| 0 <= z < before.len() && before[z] == w;
                                    assert(tv[z] == w);
                                } else {
                                    assert(tv[before.len() as int] == p@);
                                }
                            }
                            assert forall|a: int, b: int| 0 <= a < tv.len() && 0 <= b < tv.len() && a != b implies tv[a]
                                != tv[b] by {
                                if a < before.len() && b < before.len() {
                                    assert(tv[a] == before[a] && tv[b] == before[b]);
                                } else if a < before.len() {
                                    assert(tv[a] == before[a]);
                                } else if b < before.len() {
                                    assert(tv[b] == before[b]);
                                }
                            }
                        }
                    }
                    j += 1;
                }
                proof {
                    let tv = texts(vis@);
                    assert forall|k: int|
                        0 <= k < head + 1 implies forall|c: int|
                        0 <= c < prereqs_of(reg, #[trigger] tv[k]).len() ==> tv.contains(prereqs_of(reg, tv[k])[c]) by {
                        if k == head {
                            assert forall|c: int| 0 <= c < prereqs_of(reg, tv[k]).len() implies tv.contains(
                                prereqs_of(reg, tv[k])[c],
                            ) by {
                                assert(tv.contains(texts(t.prerequisites@)[c]));
                            }
                        }
                    }
                }
            },
            None => {
                proof {
                    assert(prereqs_of(reg, x@) =~= Seq::<Seq<char>>::empty());
                    let tv = texts(vis@);
                    assert forall|k: int|
                        0 <= k < head + 1 implies forall|c: int|
                        0 <= c < prereqs_of(reg, #[trigger] tv[k]).len() ==> tv.contains(prereqs_of(reg, tv[k])[c]) by {
                        if k == head {
                            assert(prereqs_of(reg, tv[k]).len() == 0);
                        }
                    }
                }
            },
        }
        head += 1;
    }
    proof {
        let tv = texts(vis@);
        assert forall|id: Seq<char>| tv.contains(id) <==> needs(reg, root@, id) by {
            if tv.contains(id) {
                let k = choose|k: int| 0 <= k < tv.len() && tv[k] == id;
                assert(needs(reg, root@, tv[k]));
            }
            if needs(reg, root@, id) {
                let path = choose|path: Seq<Seq<char>>| #[trigger]
                    prereq_chain(reg, path) && path[0] == root@ && path.last() == id;
                assert(tv.contains(path[0])) by {
                    assert(tv[0] == root@);
                }
                lemma_closed_chain(reg, tv, path);
            }
        }
    }
    vis
}

proof fn lemma_has_same(a: TechState, b: TechState)
    requires
        a.researched == b.researched,
    ensures
        forall|id: Seq<char>| a.has(id) == b.has(id),
{
    assert forall|id: Seq<char>| a.has(id) == b.has(id) by {
        if a.has(id) {
            let i = choose|i: int| 0 <= i < a.researched@.len() && a.researched@[i]@ == id;
            assert(b.researched@[i]@ == id);
        }
        if b.has(id) {
            let i = choose|i: int| 0 <= i < b.researched@.len() && b.researched@[i]@ == id;
            assert(a.researched@[i]@ == id);
        }
    }
}

impl TechState {
    pub open spec fn has(&self, id: Seq<char>) -> bool {
        exists|i: int| 0 <= i < self.researched@.len() && self.researched@[i]@ == id
    }

    /// Each researched tech is recorded once.
    pub open spec fn wf(&self) -> bool {
        forall|i: int, j: int|
            0 <= i < j < self.researched@.len() ==> #[trigger] self.researched@[i]@ != #[trigger] self.researched@[j]@
    }

    pub fn new() -> (r: Self)
        ensures
            forall|id: Seq<char>| r.has(id) <==> starter_techs().contains(id),
            r.active is None,
            !r.era2_unlocked,
            r.wf(),
    {
        let mut researched: Vec<String> = Vec::new();
        researched.push(String::from_str("era1_tech_basic_recovery"));
        researched.push(String::from_str("era1_tech_basic_extraction"));
        researched.push(String::from_str("era1_tech_material_processing"));
        researched.push(String::from_str("era1_tech_basic_metallurgy"));
        researched.push(String::from_str("era1_tech_fluid_engineering"));
        researched.push(String::from_str("era1_tech_research_infrastructure"));
        researched.push(String::from_str("era1_tech_industrial_automation"));
        researched.push(String::from_str("era1_tech_structural_engineering"));
        researched.push(String::from_str("era1_tech_waste_recovery"));
        let r = TechState { researched, active: None, era2_unlocked: false };
        proof {
            reveal_strlit("era1_tech_basic_recovery");
            reveal_strlit("era1_tech_basic_extraction");
            reveal_strlit("era1_tech_material_processing");
            reveal_strlit("era1_tech_basic_metallurgy");
            reveal_strlit("era1_tech_fluid_engineering");
            reveal_strlit("era1_tech_research_infrastructure");
            reveal_strlit("era1_tech_industrial_automation");
            reveal_strlit("era1_tech_structural_engineering");
            reveal_strlit("era1_tech_waste_recovery");
            assert forall|i: int, j: int| 0 <= i < j < r.researched@.len() implies r.researched@[i]@ != r.researched@[j]@ by {
                assert(r.researched@[i]@ == starter_techs()[i]);
                assert(r.researched@[j]@ == starter_techs()[j]);
                assert(starter_techs()[i][10] != starter_techs()[j][10] || starter_techs()[i][16] != starter_techs()[j][16]
                    || starter_techs()[i].len() != starter_techs()[j].len());
            }
        }
        assert forall|id: Seq<char>| r.has(id) <==> starter_techs().contains(id) by {
            if r.has(id) {
                let i = choose|i: int| 0 <= i < r.researched@.len() && r.researched@[i]@ == id;
                assert(starter_techs()[i] == id);
            }
            if starter_techs().contains(id) {
                let i = choose|i: int| 0 <= i < starter_techs().len() && starter_techs()[i] == id;
                assert(r.researched@[i]@ == id);
            }
        }
        r
    }

    pub fn is_researched(&self, tech_id: &str) -> (r: bool)
        ensures
            r == self.has(tech_id@),
    {
        let mut i: usize = 0;
        while i < self.researched.len()
            invariant
                i <= self.researched@.len(),
                forall|j: int| 0 <= j < i ==> self.researched@[j]@ != tech_id@,
            decreases self.researched@.len() - i,
        {
            if str_eq(self.researched[i].as_str(), tech_id) {
                return true;
            }
            i += 1;
        }
        false
    }

    pub open spec fn spec_unlocked(&self, tech_unlock: Seq<char>) -> bool {
        tech_unlock.len() == 0 || tech_unlock == "era1_tech_basic_recovery"@ || self.has(tech_unlock)
    }

    /// A recipe gated by `tech_unlock` is usable: no gate, the always-on
    /// first tech, or a researched tech.
    pub fn recipe_unlocked(&self, tech_unlock: &str) -> (r: bool)
        ensures
            r == self.spec_unlocked(tech_unlock@),
    {
        if tech_unlock.is_empty() || str_eq(tech_unlock, "era1_tech_basic_recovery") {
            return true;
        }
        self.is_researched(tech_unlock)
    }

    pub fn machine_unlocked(&self, tech_unlock: &str) -> (r: bool)
        ensures
            r == self.spec_unlocked(tech_unlock@),
    {
        self.recipe_unlocked(tech_unlock)
    }

    /// Research of `id` can begin: not yet researched, known to the registry,
    /// and every prerequisite researched.
    pub open spec fn spec_can_start(&self, reg: &ContentRegistry, id: Seq<char>) -> bool {
        &&& !self.has(id)
        &&& exists|i: int|
            0 <= i < reg.techs.len() && reg.techs[i].id@ == id && forall|p: int|
                0 <= p < reg.techs[i].prerequisites@.len() ==> self.has(
                    #[trigger] reg.techs[i].prerequisites@[p]@,
                )
    }

    pub fn can_start(&self, reg: &ContentRegistry, tech_id: &str) -> (r: bool)
        requires
            reg.wf(),
        ensures
            r == self.spec_can_start(reg, tech_id@),
    {
        if self.is_researched(tech_id) {
            return false;
        }
        let t = match reg.tech_by_str(tech_id) {
            Some(t) => t,
            None => {
                return false;
            },
        };
        let ghost ti = choose|i: int| 0 <= i < reg.techs.len() && reg.techs[i] == *t;
        let mut p: usize = 0;
        while p < t.prerequisites.len()
            invariant
                reg.wf(),
                0 <= ti < reg.techs.len(),
                reg.techs[ti] == *t,
                t.id@ == tech_id@,
                !self.has(tech_id@),
                p <= t.prerequisites@.len(),
                forall|q: int| 0 <= q < p ==> self.has(#[trigger] t.prerequisites@[q]@),
            decreases t.prerequisites@.len() - p,
        {
            if !self.is_researched(t.prerequisites[p].as_str()) {
                assert forall|i: int|
                    0 <= i < reg.techs.len() && reg.techs[i].id@ == tech_id@ implies !(forall|q: int|
                    0 <= q < reg.techs[i].prerequisites@.len() ==> self.has(
                        #[trigger] reg.techs[i].prerequisites@[q]@,
                    )) by {
                    if i != ti {
                        if i < ti {
                            assert(reg.techs[i].id@ != reg.techs[ti].id@);
                        } else {
                            assert(reg.techs[ti].id@ != reg.techs[i].id@);
                        }
                    }
                    assert(!self.has(reg.techs[i].prerequisites@[p as int]@));
                }
                return false;
            }
            p += 1;
        }
        true
    }

    /// Make `tech_id` the active research if it can start.
    pub fn start_research(&mut self, reg: &ContentRegistry, tech_id: &str) -> (r: bool)
        requires
            reg.wf(),
        ensures
            r == old(self).spec_can_start(reg, tech_id@),
            r ==> (final(self).active matches Some(a) && a@ == tech_id@),
            !r ==> final(self).active == old(self).active,
            final(self).researched == old(self).researched,
            final(self).era2_unlocked == old(self).era2_unlocked,
    {
        if !self.can_start(reg, tech_id) {
            return false;
        }
        self.active = Some(String::from_str(tech_id));
        true
    }

    /// Record `tech_id` as researched (once).
    fn insert(&mut self, tech_id: &str)
        ensures
            forall|id: Seq<char>| final(self).has(id) <==> (old(self).has(id) || id == tech_id@),
            final(self).active == old(self).active,
            final(self).era2_unlocked == old(self).era2_unlocked,
            old(self).wf() ==> final(self).wf(),
    {
        if !self.is_researched(tech_id) {
            let ghost before = self.researched@;
            self.researched.push(String::from_str(tech_id));
            assert forall|i: int, j: int| old(self).wf() && 0 <= i < j < self.researched@.len()
                implies self.researched@[i]@ != self.researched@[j]@ by {
                if j == before.len() {
                    assert(before[i]@ != tech_id@);
                } else {
                    assert(before[i]@ != before[j]@);
                }
            }
            assert forall|id: Seq<char>| self.has(id) <==> (old(self).has(id) || id == tech_id@) by {
                if self.has(id) {
                    let i = choose|i: int| 0 <= i < self.researched@.len() && self.researched@[i]@ == id;
                    if i < before.len() {
                        assert(before[i]@ == id);
                    }
                }
                if old(self).has(id) {
                    let i = choose|i: int| 0 <= i < before.len() && before[i]@ == id;
                    assert(self.researched@[i]@ == id);
                }
                if id == tech_id@ {
                    assert(self.researched@[before.len() as int]@ == id);
                }
            }
        }
    }

    fn on_researched(&mut self, tech_id: &str)
        ensures
            final(self).era2_unlocked == (old(self).era2_unlocked || tech_id@ == ERA_TRANSITION()),
            final(self).researched == old(self).researched,
            final(self).active == old(self).active,
    {
        if str_eq(tech_id, "era1_tech_era_transition") {
            self.era2_unlocked = true;
        }
    }

    /// The active research finished: record it, clear the active slot and
    /// report which tech it was.
    pub fn finish_active(&mut self) -> (r: Option<String>)
        ensures
            r == old(self).active,
            final(self).active is None,
            old(self).active matches Some(a) ==> (forall|id: Seq<char>| final(self).has(id) <==> (old(self).has(id) || id == a@))
                && final(self).era2_unlocked == (old(self).era2_unlocked || a@ == ERA_TRANSITION()),
            old(self).active is None ==> final(self).researched == old(self).researched
                && final(self).era2_unlocked == old(self).era2_unlocked,
            old(self).wf() ==> final(self).wf(),
    {
        let done = self.active.take();
        let ghost mid = *self;
        assert(mid.researched == old(self).researched);
        if let Some(t) = &done {
            self.insert(t.as_str());
            let ghost after_insert = *self;
            self.on_researched(t.as_str());
            assert forall|id: Seq<char>| self.has(id) <==> (old(self).has(id) || id == t@) by {
                assert(self.has(id) == after_insert.has(id));
                assert(mid.has(id) == old(self).has(id));
            }
        }
        done
    }

    /// Unlock a technology with everything it needs, directly or through
    /// other prerequisites (a debug shortcut); unlocking the era-transition
    /// tech this way opens Era 2.
    pub fn debug_unlock(&mut self, reg: &ContentRegistry, tech_id: &str)
        requires
            reg.wf(),
        ensures
            forall|id: Seq<char>| final(self).has(id) <==> (old(self).has(id) || needs(reg, tech_id@, id)),
            final(self).era2_unlocked == (old(self).era2_unlocked || needs(reg, tech_id@, ERA_TRANSITION())),
            final(self).active == old(self).active,
            old(self).wf() ==> final(self).wf(),
    {
        let all = prereq_closure(reg, tech_id);
        let ghost tv = texts(all@);
        let mut k: usize = 0;
        while k < all.len()
            invariant
                k <= all.len(),
                tv == texts(all@),
                self.active == old(self).active,
                old(self).wf() ==> self.wf(),
                forall|id: Seq<char>| self.has(id) <==> (old(self).has(id) || tv.take(k as int).contains(id)),
                self.era2_unlocked == (old(self).era2_unlocked || tv.take(k as int).contains(ERA_TRANSITION())),
            decreases all.len() - k,
        {
            let ghost before_take = tv.take(k as int);
            proof {
                assert(tv.take(k + 1) =~= before_take.push(all@[k as int]@));
            }
            self.insert(all[k].as_str());
            let ghost mid = *self;
            self.on_researched(all[k].as_str());
            proof {
                lemma_has_same(mid, *self);
                let now = tv.take(k + 1);
                assert forall|id: Seq<char>| now.contains(id) <==> (before_take.contains(id) || id == all@[k as int]@) by {
                    if now.contains(id) {
                        let z = choose|z: int| 0 <= z < now.len() && now[z] == id;
                        if z < k {
                            assert(before_take[z] == id);
                        }
                    }
                    if before_take.contains(id) {
                        let z = choose|z: int| 0 <= z < before_take.len() && before_take[z] == id;
                        assert(now[z] == id);
                    }
                    if id == all@[k as int]@ {
                        assert(now[k as int] == id);
                    }
                }
            }
            k += 1;
        }
        assert(tv.take(all.len() as int) =~= tv);
    }

    /// Unlock every technology in the registry, and Era 2.
    pub fn debug_unlock_all(&mut self, reg: &ContentRegistry)
        ensures
            forall|id: Seq<char>| final(self).has(id) <==> (old(self).has(id) || reg.has_tech_id(id)),
            final(self).era2_unlocked,
            final(self).active == old(self).active,
            old(self).wf() ==> final(self).wf(),
    {
        let mut k: usize = 0;
        while k < reg.techs.len()
            invariant
                k <= reg.techs.len(),
                self.active == old(self).active,
                old(self).wf() ==> self.wf(),
                forall|id: Seq<char>| self.has(id) <==> (old(self).has(id) || exists|j: int| 0 <= j < k && reg.techs[j].id@ == id),
            decreases reg.techs.len() - k,
        {
            self.insert(reg.techs[k].id.as_str());
            assert forall|id: Seq<char>| self.has(id) <==> (old(self).has(id) || exists|j: int| 0 <= j < k + 1 && reg.techs[j].id@ == id) by {
                if id == reg.techs[k as int].id@ {
                    assert(exists|j: int| 0 <= j < k + 1 && reg.techs[j].id@ == id);
                }
            }
            k += 1;
        }
        let ghost pre = *self;
        self.era2_unlocked = true;
        assert forall|id: Seq<char>| self.has(id) <==> (old(self).has(id) || reg.has_tech_id(id)) by {
            if self.has(id) {
                let i = choose|i: int| 0 <= i < self.researched@.len() && self.researched@[i]@ == id;
                assert(pre.researched@[i]@ == id);
            }
            if pre.has(id) {
                let i = choose|i: int| 0 <= i < pre.researched@.len() && pre.researched@[i]@ == id;
                assert(self.researched@[i]@ == id);
            }
            if reg.has_tech_id(id) {
                let j = choose|j: int| 0 <= j < reg.techs.len() && reg.techs[j].id@ == id;
                assert(exists|j: int| 0 <= j < k && reg.techs[j].id@ == id);
            }
            if exists|j: int| 0 <= j < k && reg.techs[j].id@ == id {
                let j = choose|j: int| 0 <= j < k && reg.techs[j].id@ == id;
                assert(reg.has_tech_id(id));
            }
        }
    }
}

impl Default for TechState {
    fn default() -> (r: Self)
        ensures
            forall|id: Seq<char>| r.has(id) <==> starter_techs().contains(id),
            r.active is None,
            !r.era2_unlocked,
            r.wf(),
    {
        Self::new()
    }
}

} // verus!
