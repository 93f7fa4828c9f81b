//! The tag namespace manager: owns the mapping from `pluginName@localKey`
//! claims to queue entries and enforces claim exclusivity. A tag is both a
//! claim and an address: it is the only mechanism by which a process call is
//! later routed to the plugin that created it.

use vstd::prelude::*;

verus! {

broadcast use vstd::seq_lib::group_seq_properties;

/// The abstract name of a tag: the plugin namespace and the local key.
pub type TagName = (Seq<char>, Seq<char>);

/// A namespaced claim key, rendered as `pluginName@localKey`. Binds to exactly
/// one live operation id at a time.
#[derive(Debug, PartialEq, Eq)]
pub struct Tag {
    pub plugin: String,
    pub key: String,
}

impl Tag {
    /// Well-formed: the plugin name must not contain `@`, so that the rendered
    /// form splits unambiguously at the first `@`.
    pub open spec fn wf(self) -> bool {
        !self.plugin@.contains('@')
    }

    /// The mathematical name of this tag.
    pub open spec fn abs(self) -> TagName {
        (self.plugin@, self.key@)
    }

    /// The plugin namespace this tag belongs to; process calls for the tagged
    /// operation are routed to this plugin.
    pub fn owner(&self) -> (r: &String)
        ensures
            r@ == self.plugin@,
    {
        &self.plugin
    }
}

impl Clone for Tag {
    fn clone(&self) -> (r: Tag)
        ensures
            r == *self,
    {
        Tag { plugin: self.plugin.clone(), key: self.key.clone() }
    }
}

/// Rejection of a claim: the tag is already bound to a different operation, or
/// the operation already carries a different tag.
#[derive(Debug, Clone, Copy, PartialEq, Eq, Structural)]
pub enum TagError {
    TagConflict,
}

/// True when some tag in `m` is bound to `id`.
pub open spec fn map_has_id(m: Map<TagName, u64>, id: u64) -> bool {
    exists|k: TagName| #[trigger] m.contains_key(k) && m[k] == id
}

/// No two tags are bound to the same operation id.
pub open spec fn map_injective(m: Map<TagName, u64>) -> bool {
    forall|k1: TagName, k2: TagName|
        #![trigger m[k1], m[k2]]
        m.contains_key(k1) && m.contains_key(k2) && m[k1] == m[k2] ==> k1 == k2
}

/// What one claim attempt does: binding a fresh tag to an unclaimed operation
/// succeeds; re-binding the same tag to the same operation is an idempotent
/// no-op success; anything else is rejected and leaves the map unchanged.
pub open spec fn spec_claim(m: Map<TagName, u64>, k: TagName, id: u64) -> (Map<TagName, u64>, bool) {
    if m.contains_key(k) {
        (m, m[k] == id)
    } else if map_has_id(m, id) {
        (m, false)
    } else {
        (m.insert(k, id), true)
    }
}

/// All bindings of `id` dropped from `m`.
pub open spec fn map_release_id(m: Map<TagName, u64>, id: u64) -> Map<TagName, u64> {
    Map::new(|k: TagName| m.contains_key(k) && m[k] != id, |k: TagName| m[k])
}

/// The live tag bindings of the whole queue.
pub struct TagManager {
    bindings: Vec<(Tag, u64)>,
}

impl View for TagManager {
    type V = Map<TagName, u64>;

    closed spec fn view(&self) -> Map<TagName, u64> {
        TagManager::map_of(self.bindings@)
    }
}

impl TagManager {
    pub closed spec fn map_of(s: Seq<(Tag, u64)>) -> Map<TagName, u64>
        decreases s.len(),
    {
        if s.len() == 0 {
            Map::empty()
        } else {
            Self::map_of(s.drop_last()).insert(s.last().0.abs(), s.last().1)
        }
    }

    spec fn names_distinct(s: Seq<(Tag, u64)>) -> bool {
        forall|i: int, j: int|
            #![trigger s[i], s[j]]
            0 <= i < j < s.len() ==> s[i].0.abs() != s[j].0.abs()
    }

    spec fn ids_distinct(s: Seq<(Tag, u64)>) -> bool {
        forall|i: int, j: int|
            #![trigger s[i], s[j]]
            0 <= i < j < s.len() ==> s[i].1 != s[j].1
    }

    /// Internal invariant: tags unique, bound ids unique, every stored tag
    /// well-formed.
    pub closed spec fn wf(self) -> bool {
        &&& Self::names_distinct(self.bindings@)
        &&& Self::ids_distinct(self.bindings@)
        &&& forall|i: int| 0 <= i < self.bindings@.len() ==> (#[trigger] self.bindings@[i]).0.wf()
    }

    proof fn lemma_map_of_props(s: Seq<(Tag, u64)>)
        requires
            Self::names_distinct(s),
        ensures
            forall|k: TagName| #[trigger]
                Self::map_of(s).contains_key(k) ==> exists|i: int|
                    0 <= i < s.len() && (#[trigger] s[i]).0.abs() == k,
            forall|i: int|
                0 <= i < s.len() ==> Self::map_of(s).contains_key((#[trigger] s[i]).0.abs())
                    && Self::map_of(s)[s[i].0.abs()] == s[i].1,
        decreases s.len(),
    {
        if s.len() > 0 {
            let dl = s.drop_last();
            let n = s.len() - 1;
            let kl = s[n].0.abs();
            let m = Self::map_of(s);
            let md = Self::map_of(dl);
            assert(m == md.insert(kl, s[n].1));
            assert forall|i: int, j: int| 0 <= i < j < dl.len() implies (#[trigger] dl[i]).0.abs()
                != (#[trigger] dl[j]).0.abs() by {
                assert(dl[i] == s[i]);
                assert(dl[j] == s[j]);
            }
            Self::lemma_map_of_props(dl);
            assert forall|i: int| 0 <= i < s.len() implies m.contains_key(
                (#[trigger] s[i]).0.abs(),
            ) && m[s[i].0.abs()] == s[i].1 by {
                if i < n {
                    assert(dl[i] == s[i]);
                    assert(md.contains_key(dl[i].0.abs()) && md[dl[i].0.abs()] == dl[i].1);
                    assert(s[i].0.abs() != kl);
                } else {
                    assert(m.contains_key(kl) && m[kl] == s[n].1);
                }
            }
            assert forall|k: TagName| #[trigger] m.contains_key(k) implies exists|i: int|
                0 <= i < s.len() && (#[trigger] s[i]).0.abs() == k by {
                if k == kl {
                    assert(s[n].0.abs() == k);
                } else {
                    assert(md.contains_key(k));
                    let i = choose|i: int|
                        0 <= i < dl.len() && (#[trigger] dl[i]).0.abs() == k;
                    assert(dl[i] == s[i]);
                    assert(s[i].0.abs() == k);
                }
            }
        }
    }

    proof fn lemma_map_of_remove(s: Seq<(Tag, u64)>, i: int)
        requires
            Self::names_distinct(s),
            0 <= i < s.len(),
        ensures
            Self::map_of(s.remove(i)) == Self::map_of(s).remove(s[i].0.abs()),
        decreases s.len(),
    {
        let k = s[i].0.abs();
        let dl = s.drop_last();
        assert(forall|j: int| 0 <= j < dl.len() ==> #[trigger] dl[j] == s[j]);
        Self::lemma_map_of_props(s);
        if i == s.len() - 1 {
            assert(s.remove(i) =~= dl);
            Self::lemma_map_of_props(dl);
            assert(!Self::map_of(dl).contains_key(k));
            assert(Self::map_of(dl).insert(k, s[i].1).remove(k) =~= Self::map_of(dl));
        } else {
            let r = s.remove(i);
            assert(r.drop_last() =~= dl.remove(i));
            assert(r.last() == s.last());
            Self::lemma_map_of_remove(dl, i);
            assert(Self::map_of(r) == Self::map_of(dl).remove(k).insert(s.last().0.abs(), s.last().1));
            assert(k != s.last().0.abs());
            assert(Self::map_of(dl).remove(k).insert(s.last().0.abs(), s.last().1) =~= Self::map_of(
                dl,
            ).insert(s.last().0.abs(), s.last().1).remove(k));
        }
    }

    /// No binding means an empty namespace.
    pub fn new() -> (r: TagManager)
        ensures
            r.wf(),
            r@ == Map::<TagName, u64>::empty(),
    {
        TagManager { bindings: Vec::new() }
    }

    fn find_name(&self, tag: &Tag) -> (r: Option<usize>)
        ensures
            match r {
                Some(j) => j < self.bindings@.len() && self.bindings@[j as int].0.abs()
                    == tag.abs(),
                None => forall|j: int|
                    0 <= j < self.bindings@.len() ==> (#[trigger] self.bindings@[j]).0.abs()
                        != tag.abs(),
            },
    {
        let mut i: usize = 0;
        while i < self.bindings.len()
            invariant
                i <= self.bindings@.len(),
                forall|j: int|
                    0 <= j < i ==> (#[trigger] self.bindings@[j]).0.abs() != tag.abs(),
            decreases self.bindings@.len() - i,
        {
            let b = &self.bindings[i];
            if b.0.plugin == tag.plugin && b.0.key == tag.key {
                return Some(i);
            }
            i += 1;
        }
        None
    }

    fn find_id(&self, id: u64) -> (r: Option<usize>)
        ensures
            match r {
                Some(j) => j < self.bindings@.len() && self.bindings@[j as int].1 == id,
                None => forall|j: int|
                    0 <= j < self.bindings@.len() ==> (#[trigger] self.bindings@[j]).1 != id,
            },
    {
        let mut i: usize = 0;
        while i < self.bindings.len()
            invariant
                i <= self.bindings@.len(),
                forall|j: int| 0 <= j < i ==> (#[trigger] self.bindings@[j]).1 != id,
            decreases self.bindings@.len() - i,
        {
            if self.bindings[i].1 == id {
                return Some(i);
            }
            i += 1;
        }
        None
    }

    /// Whether `tag` is currently bound (to any operation).
    pub fn contains_name(&self, tag: &Tag) -> (r: bool)
        requires
            self.wf(),
        ensures
            r == self@.contains_key(tag.abs()),
    {
        proof {
            Self::lemma_map_of_props(self.bindings@);
        }
        let r = self.find_name(tag);
        proof {
            if r is None && self@.contains_key(tag.abs()) {
                let i = choose|i: int|
                    0 <= i < self.bindings@.len() && (#[trigger] self.bindings@[i]).0.abs()
                        == tag.abs();
                assert(false);
            }
        }
        r.is_some()
    }

    /// Whether `id` currently carries any tag.
    pub fn is_tagged(&self, id: u64) -> (r: bool)
        requires
            self.wf(),
        ensures
            r == map_has_id(self@, id),
    {
        proof {
            Self::lemma_map_of_props(self.bindings@);
        }
        match self.find_id(id) {
            Some(j) => {
                proof {
                    assert(self@.contains_key(self.bindings@[j as int].0.abs()));
                }
                true
            },
            None => {
                proof {
                    if map_has_id(self@, id) {
                        let k = choose|k: TagName| #[trigger] self@.contains_key(k) && self@[k] == id;
                        let i = choose|i: int|
                            0 <= i < self.bindings@.len() && (#[trigger] self.bindings@[i]).0.abs()
                                == k;
                        assert(false);
                    }
                }
                false
            },
        }
    }

    /// Attach `tag` to `id`. Fails with `TagConflict` when the tag is bound to
    /// a different operation or the operation already carries a different tag;
    /// re-claiming the same operation under the same tag is an idempotent
    /// success, required because a plugin may legitimately re-claim across
    /// retried calls.
    pub fn claim(&mut self, tag: Tag, id: u64) -> (r: Result<(), TagError>)
        requires
            old(self).wf(),
            tag.wf(),
        ensures
            final(self).wf(),
            ({
                let (m2, ok) = spec_claim(old(self)@, tag.abs(), id);
                final(self)@ == m2 && (r is Ok <==> ok)
            }),
    {
        proof {
            Self::lemma_map_of_props(self.bindings@);
        }
        match self.find_name(&tag) {
            Some(j) => {
                if self.bindings[j].1 == id {
                    Ok(())
                } else {
                    Err(TagError::TagConflict)
                }
            },
            None => {
                proof {
                    if self@.contains_key(tag.abs()) {
                        let i = choose|i: int|
                            0 <= i < self.bindings@.len() && (#[trigger] self.bindings@[i]).0.abs()
                                == tag.abs();
                        assert(false);
                    }
                }
                match self.find_id(id) {
                    Some(j) => {
                        proof {
                            assert(self@.contains_key(self.bindings@[j as int].0.abs()));
                        }
                        Err(TagError::TagConflict)
                    },
                    None => {
                        proof {
                            if map_has_id(self@, id) {
                                let k = choose|k: TagName| #[trigger]
                                    self@.contains_key(k) && self@[k] == id;
                                let i = choose|i: int|
                                    0 <= i < self.bindings@.len() && (#[trigger] self.bindings@[i]).0.abs()
                                        == k;
                                assert(false);
                            }
                        }
                        let ghost s0 = self.bindings@;
                        self.bindings.push((tag, id));
                        proof {
                            assert(self.bindings@.drop_last() =~= s0);
                            assert(self@ == Self::map_of(s0).insert(tag.abs(), id));
                            assert(forall|i: int|
                                0 <= i < s0.len() ==> #[trigger] self.bindings@[i] == s0[i]);
                        }
                        Ok(())
                    },
                }
            },
        }
    }

    /// Remove the binding of `tag`, if any; used when the operation under a
    /// tag reaches a terminal state.
    pub fn release(&mut self, tag: &Tag)
        requires
            old(self).wf(),
        ensures
            final(self).wf(),
            final(self)@ == old(self)@.remove(tag.abs()),
    {
        proof {
            Self::lemma_map_of_props(self.bindings@);
        }
        match self.find_name(tag) {
            Some(j) => {
                let ghost s0 = self.bindings@;
                self.bindings.remove(j);
                proof {
                    Self::lemma_map_of_remove(s0, j as int);
                    assert(forall|a: int, b: int|
                        0 <= a < b < self.bindings@.len() ==> (#[trigger] self.bindings@[a], #[trigger] self.bindings@[b])
                            == (s0[if a < j { a } else { a + 1 }], s0[if b < j { b } else { b + 1 }]));
                }
            },
            None => {
                proof {
                    if self@.contains_key(tag.abs()) {
                        let i = choose|i: int|
                            0 <= i < self.bindings@.len() && (#[trigger] self.bindings@[i]).0.abs()
                                == tag.abs();
                        assert(false);
                    }
                    assert(self@.remove(tag.abs()) =~= self@);
                }
            },
        }
    }

    /// Drop whatever tag `id` carries; used when an operation is requeued or
    /// reaches a terminal state.
    pub fn release_id(&mut self, id: u64)
        requires
            old(self).wf(),
        ensures
            final(self).wf(),
            final(self)@ == map_release_id(old(self)@, id),
    {
        proof {
            Self::lemma_map_of_props(self.bindings@);
        }
        match self.find_id(id) {
            Some(j) => {
                let ghost s0 = self.bindings@;
                let ghost k = s0[j as int].0.abs();
                self.bindings.remove(j);
                proof {
                    Self::lemma_map_of_remove(s0, j as int);
                    assert(forall|a: int, b: int|
                        0 <= a < b < self.bindings@.len() ==> (#[trigger] self.bindings@[a], #[trigger] self.bindings@[b])
                            == (s0[if a < j { a } else { a + 1 }], s0[if b < j { b } else { b + 1 }]));
                    assert forall|k2: TagName|
                        Self::map_of(s0).remove(k).contains_key(k2)
                            == (#[trigger] map_release_id(Self::map_of(s0), id).contains_key(
                            k2,
                        )) by {
                        if Self::map_of(s0).contains_key(k2) && k2 != k {
                            let i = choose|i: int|
                                0 <= i < s0.len() && (#[trigger] s0[i]).0.abs() == k2;
                            assert(Self::map_of(s0)[k2] == s0[i].1);
                            if i != j {
                                assert(s0[i].1 != s0[j as int].1);
                            }
                        }
                    }
                    assert(Self::map_of(s0).remove(k) =~= map_release_id(Self::map_of(s0), id));
                }
            },
            None => {
                proof {
                    assert forall|k2: TagName|
                        self@.contains_key(k2) == (#[trigger] map_release_id(self@, id).contains_key(
                            k2,
                        )) by {
                        if self@.contains_key(k2) {
                            let i = choose|i: int|
                                0 <= i < self.bindings@.len() && (#[trigger] self.bindings@[i]).0.abs()
                                    == k2;
                            assert(self@[k2] == self.bindings@[i].1);
                        }
                    }
                    assert(map_release_id(self@, id) =~= self@);
                }
            },
        }
    }

    /// Reverse lookup: the tag of `id`, if any. A dispatched operation with no
    /// tag is fresh (eligible for filter); a tagged one is owned (eligible
    /// only for the owner's process call).
    pub fn resolve(&self, id: u64) -> (r: Option<&Tag>)
        requires
            self.wf(),
        ensures
            match r {
                Some(t) => t.wf() && self@.contains_key(t.abs()) && self@[t.abs()] == id,
                None => !map_has_id(self@, id),
            },
    {
        proof {
            Self::lemma_map_of_props(self.bindings@);
        }
        match self.find_id(id) {
            Some(j) => Some(&self.bindings[j].0),
            None => {
                proof {
                    if map_has_id(self@, id) {
                        let k = choose|k: TagName| #[trigger] self@.contains_key(k) && self@[k] == id;
                        let i = choose|i: int|
                            0 <= i < self.bindings@.len() && (#[trigger] self.bindings@[i]).0.abs()
                                == k;
                        assert(false);
                    }
                }
                None
            },
        }
    }

    /// The operations currently claimed under `plugin`'s namespace; these and
    /// only these are dispatched to that plugin's process call.
    pub fn ids_owned_by(&self, plugin: &String) -> (r: Vec<u64>)
        requires
            self.wf(),
        ensures
            r@.no_duplicates(),
            forall|id: u64| #[trigger]
                r@.contains(id) == (exists|k: TagName|
                    #[trigger] self@.contains_key(k) && k.0 == plugin@ && self@[k] == id),
    {
        proof {
            Self::lemma_map_of_props(self.bindings@);
        }
        let mut r: Vec<u64> = Vec::new();
        let mut i: usize = 0;
        while i < self.bindings.len()
            invariant
                self.wf(),
                i <= self.bindings@.len(),
                r@.no_duplicates(),
                forall|id: u64| #[trigger]
                    r@.contains(id) ==> exists|j: int|
                        0 <= j < i && (#[trigger] self.bindings@[j]).0.plugin@ == plugin@
                            && self.bindings@[j].1 == id,
                forall|j: int|
                    0 <= j < i && (#[trigger] self.bindings@[j]).0.plugin@ == plugin@
                        ==> r@.contains(self.bindings@[j].1),
            decreases self.bindings@.len() - i,
        {
            let b = &self.bindings[i];
            let ghost r_pre = r@;
            if b.0.plugin == *plugin {
                proof {
                    if r@.contains(b.1) {
                        let j = choose|j: int|
                            0 <= j < i && (#[trigger] self.bindings@[j]).0.plugin@ == plugin@
                                && self.bindings@[j].1 == b.1;
                        assert(self.bindings@[j].1 != self.bindings@[i as int].1);
                        assert(false);
                    }
                }
                r.push(b.1);
                proof {
                    assert forall|id: u64| #[trigger] r@.contains(id) implies exists|j: int|
                        0 <= j < i + 1 && (#[trigger] self.bindings@[j]).0.plugin@ == plugin@
                            && self.bindings@[j].1 == id by {
                        if id == self.bindings@[i as int].1 {
                            assert(self.bindings@[i as int].0.plugin@ == plugin@);
                        } else {
                            assert(r_pre.contains(id));
                        }
                    }
                    assert forall|j: int|
                        0 <= j < i + 1 && (#[trigger] self.bindings@[j]).0.plugin@
                            == plugin@ implies r@.contains(self.bindings@[j].1) by {
                        if j < i {
                            assert(r_pre.contains(self.bindings@[j].1));
                        }
                        assert(r@.contains(self.bindings@[i as int].1));
                    }
                }
            } else {
                proof {
                    assert(self.bindings@[i as int].0.plugin@ != plugin@);
                }
            }
            i += 1;
        }
        proof {
            assert forall|id: u64| #[trigger]
                r@.contains(id) == (exists|k: TagName|
                    #[trigger] self@.contains_key(k) && k.0 == plugin@ && self@[k] == id) by {
                if r@.contains(id) {
                    let j = choose|j: int|
                        0 <= j < self.bindings@.len() && (#[trigger] self.bindings@[j]).0.plugin@
                            == plugin@ && self.bindings@[j].1 == id;
                    assert(self@.contains_key(self.bindings@[j].0.abs()));
                    assert(self@[self.bindings@[j].0.abs()] == id);
                    assert(self.bindings@[j].0.abs().0 == plugin@);
                }
                if exists|k: TagName|
                    #[trigger] self@.contains_key(k) && k.0 == plugin@ && self@[k] == id {
                    let k = choose|k: TagName|
                        #[trigger] self@.contains_key(k) && k.0 == plugin@ && self@[k] == id;
                    let j = choose|j: int|
                        0 <= j < self.bindings@.len() && (#[trigger] self.bindings@[j]).0.abs()
                            == k;
                    assert(self@[self.bindings@[j].0.abs()] == self.bindings@[j].1);
                    assert(self.bindings@[j].0.plugin@ == plugin@);
                    assert(r@.contains(self.bindings@[j].1));
                }
            }
        }
        r
    }

    /// No two tags are ever bound to the same operation.
    pub proof fn lemma_injective(&self)
        requires
            self.wf(),
        ensures
            map_injective(self@),
    {
        Self::lemma_map_of_props(self.bindings@);
        assert forall|k1: TagName, k2: TagName|
            self@.contains_key(k1) && self@.contains_key(k2) && #[trigger] self@[k1]
                == #[trigger] self@[k2] implies k1 == k2 by {
            let i1 = choose|i: int|
                0 <= i < self.bindings@.len() && (#[trigger] self.bindings@[i]).0.abs() == k1;
            let i2 = choose|i: int|
                0 <= i < self.bindings@.len() && (#[trigger] self.bindings@[i]).0.abs() == k2;
            if i1 != i2 {
                assert(self.bindings@[i1].1 != self.bindings@[i2].1);
            }
        }
    }
}

/// Repeated claim attempts against one map, in deterministic order.
pub open spec fn claim_all(m: Map<TagName, u64>, k: TagName, ids: Seq<u64>) -> Map<TagName, u64>
    decreases ids.len(),
{
    if ids.len() == 0 {
        m
    } else {
        claim_all(spec_claim(m, k, ids[0]).0, k, ids.drop_first())
    }
}

proof fn lemma_claim_all_stable(m: Map<TagName, u64>, k: TagName, ids: Seq<u64>)
    requires
        m.contains_key(k),
    ensures
        claim_all(m, k, ids) == m,
    decreases ids.len(),
{
    if ids.len() > 0 {
        lemma_claim_all_stable(m, k, ids.drop_first());
    }
}

/// Claim uniqueness: for any sequence of claim attempts on the same tag by
/// different plugins (replayed in deterministic order), the first attempt
/// succeeds, every later attempt for a different operation is rejected and
/// changes nothing, and the tag stays bound to the winner.
pub proof fn lemma_claim_uniqueness(m0: Map<TagName, u64>, k: TagName, ids: Seq<u64>)
    requires
        !m0.contains_key(k),
        ids.len() > 0,
        !map_has_id(m0, ids[0]),
    ensures
        spec_claim(m0, k, ids[0]).1,
        claim_all(m0, k, ids) == m0.insert(k, ids[0]),
        claim_all(m0, k, ids).contains_key(k) && claim_all(m0, k, ids)[k] == ids[0],
        forall|j: int|
            1 <= j < ids.len() && ids[j] != ids[0] ==> !spec_claim(claim_all(m0, k, ids), k, ids[j]).1
                && spec_claim(claim_all(m0, k, ids), k, ids[j]).0 == claim_all(m0, k, ids),
{
    let m1 = m0.insert(k, ids[0]);
    assert(spec_claim(m0, k, ids[0]).0 == m1);
    lemma_claim_all_stable(m1, k, ids.drop_first());
}

} // verus!
