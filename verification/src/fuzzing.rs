//! The fuzzing engine: named payload templates and an on/off switch.

use vstd::prelude::*;

verus! {

/// The payload recorded for each name in a list of (name, payload) pairs
/// whose names are distinct.
pub open spec fn template_map(entries: Seq<(String, Vec<u8>)>) -> Map<Seq<char>, Seq<u8>> {
    Map::new(
        |k: Seq<char>| exists|i: int| 0 <= i < entries.len() && entries[i].0@ == k,
        |k: Seq<char>| entries[choose|i: int| 0 <= i < entries.len() && entries[i].0@ == k].1@,
    )
}

/// No name occurs twice.
pub open spec fn distinct_names(entries: Seq<(String, Vec<u8>)>) -> bool {
    forall|i: int, j: int|
        0 <= i < entries.len() && 0 <= j < entries.len() && i != j ==> entries[i].0@
            != entries[j].0@
}

/// The names of a list of templates form a finite set.
proof fn lemma_template_names_finite(entries: Seq<(String, Vec<u8>)>)
    ensures
        template_map(entries).dom().finite(),
{
    let names = entries.map_values(|e: (String, Vec<u8>)| e.0@);
    vstd::seq_lib::seq_to_set_is_finite(names);
    assert(template_map(entries).dom() =~= names.to_set()) by {
        assert forall|k: Seq<char>| template_map(entries).dom().contains(k) implies names.contains(
            k,
        ) by {
            let i = choose|i: int| 0 <= i < entries.len() && entries[i].0@ == k;
            assert(names[i] == k);
        }
        assert forall|k: Seq<char>| names.contains(k) implies template_map(
            entries,
        ).dom().contains(k) by {
            let i = choose|i: int| 0 <= i < names.len() && names[i] == k;
            assert(entries[i].0@ == k);
        }
    }
}

/// Reading a template back after adding it gives the added payload, and
/// adding a template leaves the templates of other names as they were.
pub proof fn law_template_read_after_write(
    templates: Map<Seq<char>, Seq<u8>>,
    name: Seq<char>,
    data: Seq<u8>,
    other: Seq<char>,
)
    ensures
        templates.insert(name, data).dom().contains(name),
        templates.insert(name, data)[name] == data,
        other != name ==> (templates.insert(name, data).dom().contains(other) == templates.dom().contains(
            other,
        )),
        other != name && templates.dom().contains(other) ==> templates.insert(name, data)[other]
            == templates[other],
{
}

/// The fuzzing engine.
pub struct Fuzzer {
    templates: Vec<(String, Vec<u8>)>,
    active: bool,
}

impl Fuzzer {
    /// The payload templates, by name.
    pub closed spec fn templates(&self) -> Map<Seq<char>, Seq<u8>> {
        template_map(self.templates@)
    }

    /// Whether the engine is running.
    pub closed spec fn active(&self) -> bool {
        self.active
    }

    #[verifier::type_invariant]
    closed spec fn wf(&self) -> bool {
        distinct_names(self.templates@)
    }

    /// A stopped engine without templates.
    pub fn new() -> (r: Self)
        ensures
            r.templates() == Map::<Seq<char>, Seq<u8>>::empty(),
            r.templates().dom().finite(),
            r.templates().len() == 0,
            !r.active(),
    {
        let r = Fuzzer { templates: Vec::new(), active: false };
        assert(r.templates() =~= Map::<Seq<char>, Seq<u8>>::empty());
        r
    }

    /// Starts the engine.
    pub fn start(&mut self)
        ensures
            final(self).active(),
            final(self).templates() == old(self).templates(),
    {
        proof {
            use_type_invariant(&*self);
        }
        self.active = true;
    }

    /// Stops the engine.
    pub fn stop(&mut self)
        ensures
            !final(self).active(),
            final(self).templates() == old(self).templates(),
    {
        proof {
            use_type_invariant(&*self);
        }
        self.active = false;
    }

    /// Whether the engine is running.
    pub fn is_active(&self) -> (r: bool)
        ensures
            r == self.active(),
    {
        self.active
    }

    /// Adds a payload template under `name`, replacing any template of that
    /// name.
    pub fn add_template(&mut self, name: &str, data: Vec<u8>)
        ensures
            final(self).templates() == old(self).templates().insert(name@, data@),
            final(self).templates().dom().finite(),
            final(self).templates().len() == old(self).templates().len() + (if old(
                self,
            ).templates().dom().contains(name@) {
                0int
            } else {
                1int
            }),
            final(self).active() == old(self).active(),
    {
        proof {
            use_type_invariant(&*self);
        }
        let key = String::from_str(name);
        let ghost old_entries = self.templates@;
        let ghost dv = data@;
        let mut i: usize = 0;
        while i < self.templates.len() && self.templates[i].0 != key
            invariant
                i <= self.templates@.len(),
                self.templates@ == old_entries,
                key@ == name@,
                forall|k: int| 0 <= k < i ==> old_entries[k].0@ != name@,
            decreases self.templates.len() - i,
        {
            i = i + 1;
        }
        let mut entries: Vec<(String, Vec<u8>)> = Vec::new();
        std::mem::swap(&mut entries, &mut self.templates);
        if i < entries.len() {
            entries.set(i, (key, data));
        } else {
            entries.push((key, data));
        }
        let ghost new_entries = entries@;
        assert(new_entries[i as int].0@ == name@);
        assert(distinct_names(new_entries));
        assert forall|k: Seq<char>| #[trigger] template_map(new_entries).dom().contains(k)
            == template_map(old_entries).insert(name@, dv).dom().contains(k) by {
            if k != name@ {
                if template_map(old_entries).dom().contains(k) {
                    let j = choose|j: int| 0 <= j < old_entries.len() && old_entries[j].0@ == k;
                    assert(new_entries[j].0@ == k);
                }
            }
        }
        assert forall|k: Seq<char>| #[trigger] template_map(new_entries).dom().contains(k)
            implies template_map(new_entries)[k] == template_map(old_entries).insert(name@, dv)[k]
            by {
            let j = choose|j: int| 0 <= j < new_entries.len() && new_entries[j].0@ == k;
            if k == name@ {
                assert(j == i);
            } else {
                let j2 = choose|j: int| 0 <= j < old_entries.len() && old_entries[j].0@ == k;
                assert(new_entries[j2].0@ == k);
                assert(j == j2);
            }
        }
        assert(template_map(new_entries) =~= template_map(old_entries).insert(name@, dv));
        proof {
            lemma_template_names_finite(old_entries);
            lemma_template_names_finite(new_entries);
            vstd::set::axiom_set_insert_len(template_map(old_entries).dom(), name@);
            assert(template_map(new_entries).dom() =~= template_map(old_entries).dom().insert(
                name@,
            ));
        }
        self.templates = entries;
    }

    /// The template registered under `name`, if any.
    pub fn template(&self, name: &str) -> (r: Option<&Vec<u8>>)
        ensures
            match r {
                Some(v) => self.templates().dom().contains(name@) && self.templates()[name@]
                    == v@,
                None => !self.templates().dom().contains(name@),
            },
    {
        proof {
            use_type_invariant(self);
        }
        let key = String::from_str(name);
        let mut i: usize = 0;
        while i < self.templates.len()
            invariant
                i <= self.templates@.len(),
                key@ == name@,
                distinct_names(self.templates@),
                forall|k: int| 0 <= k < i ==> self.templates@[k].0@ != name@,
            decreases self.templates.len() - i,
        {
            if self.templates[i].0 == key {
                proof {
                    let e = self.templates@;
                    assert(e[i as int].0@ == name@);
                    let j = choose|j: int| 0 <= j < e.len() && e[j].0@ == name@;
                    assert(j == i);
                }
                return Some(&self.templates[i].1);
            }
            i = i + 1;
        }
        None
    }
}

} // verus!
