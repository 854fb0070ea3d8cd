use vstd::prelude::*;

verus! {

/// Where an attribute entry applies.
#[derive(Debug, Clone, PartialEq)]
pub enum Scope {
    /// On every tag.
    Global,
    /// Only on the tag it names.
    Specific(String),
}

/// A recognized tag name and its optional namespace.
#[derive(Debug, Clone, PartialEq)]
pub struct ElementEntry {
    pub name: String,
    pub namespace: Option<String>,
}

/// One entry of the attribute table. A name may have several, one per scope.
#[derive(Debug, Clone, PartialEq)]
pub struct AttributeEntry {
    pub name: String,
    pub scope: Scope,
    pub output_name: String,
    pub namespace: Option<String>,
    pub rename_to: Option<String>,
}

/// The element table and the attribute table.
#[derive(Debug, Clone, PartialEq)]
pub struct Schema {
    pub elements: Vec<ElementEntry>,
    pub attributes: Vec<AttributeEntry>,
}

pub open spec fn scope_is(s: Scope, tag: Seq<char>) -> bool {
    match s {
        Scope::Global => false,
        Scope::Specific(t) => t@ == tag,
    }
}

impl Schema {
    pub open spec fn has_element(&self, name: Seq<char>) -> bool {
        exists|i: int| 0 <= i < self.elements@.len() && (#[trigger] self.elements@[i]).name@ == name
    }

    pub open spec fn has_attribute(&self, name: Seq<char>) -> bool {
        exists|i: int| 0 <= i < self.attributes@.len() && (#[trigger] self.attributes@[i]).name@ == name
    }

    /// Entry `i` is for attribute `name` and scoped to `tag`.
    pub open spec fn specific_match(&self, i: int, name: Seq<char>, tag: Seq<char>) -> bool {
        self.attributes@[i].name@ == name && scope_is(self.attributes@[i].scope, tag)
    }

    /// Entry `i` is for attribute `name` and global.
    pub open spec fn global_match(&self, i: int, name: Seq<char>) -> bool {
        self.attributes@[i].name@ == name && self.attributes@[i].scope is Global
    }

    /// The entry that attribute `name` resolves to on `tag`: the first one scoped to
    /// `tag`, else the first global one, else none.
    pub open spec fn resolution(&self, name: Seq<char>, tag: Seq<char>) -> Option<int> {
        let n = self.attributes@.len() as int;
        if exists|i: int| 0 <= i < n && self.specific_match(i, name, tag) {
            Some(choose|i: int| 0 <= i < n && self.specific_match(i, name, tag)
                && forall|j: int| 0 <= j < i ==> !self.specific_match(j, name, tag))
        } else if exists|i: int| 0 <= i < n && self.global_match(i, name) {
            Some(choose|i: int| 0 <= i < n && self.global_match(i, name)
                && forall|j: int| 0 <= j < i ==> !self.global_match(j, name))
        } else {
            None
        }
    }

    pub fn new() -> (r: Schema)
        ensures
            r.elements@.len() == 0,
            r.attributes@.len() == 0,
    {
        Schema { elements: Vec::new(), attributes: Vec::new() }
    }

    /// Whether `name` is in the element table.
    pub fn is_element(&self, name: &String) -> (r: bool)
        ensures
            r == self.has_element(name@),
    {
        let mut i: usize = 0;
        while i < self.elements.len()
            invariant
                i <= self.elements@.len(),
                forall|k: int| 0 <= k < i ==> (#[trigger] self.elements@[k]).name@ != name@,
            decreases self.elements@.len() - i,
        {
            if self.elements[i].name == *name {
                return true;
            }
            i = i + 1;
        }
        false
    }

    /// Whether `name` is in the attribute table, under any scope.
    pub fn is_attribute(&self, name: &String) -> (r: bool)
        ensures
            r == self.has_attribute(name@),
    {
        let mut i: usize = 0;
        while i < self.attributes.len()
            invariant
                i <= self.attributes@.len(),
                forall|k: int| 0 <= k < i ==> (#[trigger] self.attributes@[k]).name@ != name@,
            decreases self.attributes@.len() - i,
        {
            if self.attributes[i].name == *name {
                return true;
            }
            i = i + 1;
        }
        false
    }

    /// The index of the entry that attribute `name` resolves to on `tag`.
    pub fn resolve(&self, name: &String, tag: &String) -> (r: Option<usize>)
        ensures
            r == (match self.resolution(name@, tag@) {
                Some(i) => Some(i as usize),
                None => None::<usize>,
            }),
            r matches Some(i) ==> i < self.attributes@.len() && self.resolution(name@, tag@) == Some(i as int),
            r is None ==> self.resolution(name@, tag@) is None,
    {
        let n = self.attributes.len();
        let mut global: Option<usize> = None;
        let mut i: usize = 0;
        while i < n
            invariant
                n == self.attributes@.len(),
                i <= n,
                forall|j: int| 0 <= j < i ==> !self.specific_match(j, name@, tag@),
                match global {
                    Some(g) => g < i && self.global_match(g as int, name@)
                        && forall|j: int| 0 <= j < g ==> !self.global_match(j, name@),
                    None => forall|j: int| 0 <= j < i ==> !self.global_match(j, name@),
                },
            decreases n - i,
        {
            let e = &self.attributes[i];
            if e.name == *name {
                match &e.scope {
                    Scope::Specific(t) => {
                        if *t == *tag {
                            let ghost k = i as int;
                            assert(self.specific_match(k, name@, tag@));
                            assert forall|c: int| 0 <= c < n && self.specific_match(c, name@, tag@)
                                && (forall|j: int| 0 <= j < c ==> !self.specific_match(j, name@, tag@))
                                implies c == k by {
                                if c < k {
                                } else if c > k {
                                    assert(!self.specific_match(k, name@, tag@));
                                }
                            };
                            return Some(i);
                        }
                    },
                    Scope::Global => {
                        if global.is_none() {
                            global = Some(i);
                        }
                    },
                }
            }
            i = i + 1;
        }
        match global {
            Some(g) => {
                let ghost k = g as int;
                assert forall|c: int| 0 <= c < n && self.global_match(c, name@)
                    && (forall|j: int| 0 <= j < c ==> !self.global_match(j, name@))
                    implies c == k by {
                    if c > k {
                        assert(!self.global_match(k, name@));
                    }
                };
            },
            None => {},
        }
        global
    }
}

} // verus!

verus! {

proof fn lemma_least(p: spec_fn(int) -> bool, i: int)
    requires
        0 <= i,
        p(i),
    ensures
        exists|k: int| 0 <= k <= i && #[trigger] p(k) && forall|j: int| 0 <= j < k ==> !#[trigger] p(j),
    decreases i,
{
    if exists|j: int| 0 <= j < i && #[trigger] p(j) {
        let j = choose|j: int| 0 <= j < i && #[trigger] p(j);
        lemma_least(p, j);
    } else {
        assert(forall|j: int| 0 <= j < i ==> !#[trigger] p(j));
    }
}

/// An attribute resolves only to an entry of its own name that is global or scoped to
/// the element's own tag, so an entry scoped to another tag never applies; and an
/// attribute with a global entry resolves on every tag.
pub proof fn lemma_resolution_respects_scope(schema: Schema, name: Seq<char>, tag: Seq<char>)
    ensures
        schema.resolution(name, tag) matches Some(i) ==> 0 <= i < schema.attributes@.len()
            && schema.attributes@[i].name@ == name
            && (schema.attributes@[i].scope is Global || scope_is(schema.attributes@[i].scope, tag)),
        (exists|i: int| 0 <= i < schema.attributes@.len() && schema.global_match(i, name))
            ==> schema.resolution(name, tag) is Some,
{
    let n = schema.attributes@.len() as int;
    if exists|i: int| 0 <= i < n && schema.specific_match(i, name, tag) {
        let i = choose|i: int| 0 <= i < n && schema.specific_match(i, name, tag);
        let p = |k: int| 0 <= k < n && schema.specific_match(k, name, tag);
        lemma_least(p, i);
        let k = choose|k: int| 0 <= k <= i && #[trigger] p(k) && forall|j: int| 0 <= j < k ==> !#[trigger] p(j);
        assert(0 <= k < n && schema.specific_match(k, name, tag)
            && forall|j: int| 0 <= j < k ==> !schema.specific_match(j, name, tag)) by {
            assert forall|j: int| 0 <= j < k implies !schema.specific_match(j, name, tag) by {
                assert(!p(j));
            };
        };
        let c = schema.resolution(name, tag)->Some_0;
        assert(0 <= c < n && schema.specific_match(c, name, tag));
    } else if exists|i: int| 0 <= i < n && schema.global_match(i, name) {
        let i = choose|i: int| 0 <= i < n && schema.global_match(i, name);
        let p = |k: int| 0 <= k < n && schema.global_match(k, name);
        lemma_least(p, i);
        let k = choose|k: int| 0 <= k <= i && #[trigger] p(k) && forall|j: int| 0 <= j < k ==> !#[trigger] p(j);
        assert(0 <= k < n && schema.global_match(k, name)
            && forall|j: int| 0 <= j < k ==> !schema.global_match(j, name)) by {
            assert forall|j: int| 0 <= j < k implies !schema.global_match(j, name) by {
                assert(!p(j));
            };
        };
        let c = schema.resolution(name, tag)->Some_0;
        assert(0 <= c < n && schema.global_match(c, name));
    }
}

} // verus!
