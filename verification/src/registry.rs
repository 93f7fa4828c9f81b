//! The plugin registry: the live plugins, their declared capabilities, and
//! their endpoints. Registration order is the deterministic plugin ordering
//! used for claim arbitration, so outcomes under plugin races are
//! reproducible.

use vstd::prelude::*;

verus! {

broadcast use vstd::seq_lib::group_seq_properties;

/// One live plugin: its stable `@`-free name (the namespace prefix of every
/// tag it creates), where to reach it, and which of the two verbs it serves.
#[derive(Debug, PartialEq, Eq)]
pub struct PluginInfo {
    pub name: String,
    pub endpoint: String,
    pub filter_capable: bool,
    pub process_capable: bool,
}

/// Rejection of a registration.
#[derive(Debug, Clone, Copy, PartialEq, Eq, Structural)]
pub enum RegistryError {
    /// The declared name contains `@` and cannot serve as a tag namespace.
    InvalidName,
    /// Another live plugin already declared this name.
    DuplicateName,
}

/// The set of live plugins, in registration order.
pub struct PluginRegistry {
    plugins: Vec<PluginInfo>,
}

impl View for PluginRegistry {
    type V = Seq<PluginInfo>;

    closed spec fn view(&self) -> Seq<PluginInfo> {
        self.plugins@
    }
}

impl PluginRegistry {
    /// Every registered name is `@`-free and unique.
    pub open spec fn wf(self) -> bool {
        &&& forall|i: int| 0 <= i < self@.len() ==> !(#[trigger] self@[i]).name@.contains('@')
        &&& forall|i: int, j: int|
            #![trigger self@[i], self@[j]]
            0 <= i < j < self@.len() ==> self@[i].name@ != self@[j].name@
    }

    pub fn new() -> (r: PluginRegistry)
        ensures
            r.wf(),
            r@ == Seq::<PluginInfo>::empty(),
    {
        PluginRegistry { plugins: Vec::new() }
    }

    pub fn len(&self) -> (r: usize)
        ensures
            r == self@.len(),
    {
        self.plugins.len()
    }

    pub fn get(&self, i: usize) -> (r: &PluginInfo)
        requires
            i < self@.len(),
        ensures
            *r == self@[i as int],
    {
        &self.plugins[i]
    }

    fn find_name(&self, name: &String) -> (r: Option<usize>)
        ensures
            match r {
                Some(j) => j < self@.len() && self@[j as int].name@ == name@,
                None => forall|j: int|
                    0 <= j < self@.len() ==> (#[trigger] self@[j]).name@ != name@,
            },
    {
        let mut i: usize = 0;
        while i < self.plugins.len()
            invariant
                i <= self@.len(),
                forall|j: int| 0 <= j < i ==> (#[trigger] self@[j]).name@ != name@,
            decreases self@.len() - i,
        {
            if self.plugins[i].name == *name {
                return Some(i);
            }
            i += 1;
        }
        None
    }

    /// Register a plugin. The declared name must be usable as a tag
    /// namespace (`@`-free) and not yet taken.
    pub fn register(&mut self, info: PluginInfo) -> (r: Result<(), RegistryError>)
        requires
            old(self).wf(),
        ensures
            final(self).wf(),
            r == Err::<(), RegistryError>(RegistryError::InvalidName) <==> info.name@.contains(
                '@',
            ),
            r == Err::<(), RegistryError>(RegistryError::DuplicateName) <==> (!info.name@.contains(
                '@',
            ) && (exists|j: int| 0 <= j < old(self)@.len() && (#[trigger] old(self)@[j]).name@
                == info.name@)),
            r is Ok ==> final(self)@ == old(self)@.push(info),
            r is Err ==> final(self)@ == old(self)@,
    {
        let has_at = name_has_at(&info.name);
        if has_at {
            return Err(RegistryError::InvalidName);
        }
        match self.find_name(&info.name) {
            Some(_) => Err(RegistryError::DuplicateName),
            None => {
                self.plugins.push(info);
                Ok(())
            },
        }
    }

    /// The endpoint a name resolves to, if that plugin is live.
    pub fn endpoint_of(&self, name: &String) -> (r: Option<&String>)
        requires
            self.wf(),
        ensures
            match r {
                Some(e) => exists|j: int|
                    0 <= j < self@.len() && (#[trigger] self@[j]).name@ == name@ && self@[j].endpoint@
                        == e@,
                None => forall|j: int|
                    0 <= j < self@.len() ==> (#[trigger] self@[j]).name@ != name@,
            },
    {
        match self.find_name(name) {
            Some(j) => Some(&self.plugins[j].endpoint),
            None => None,
        }
    }
}

fn name_has_at(s: &String) -> (b: bool)
    ensures
        b == s@.contains('@'),
{
    let t = s.as_str();
    let n = t.unicode_len();
    let mut i: usize = 0;
    while i < n
        invariant
            n == s@.len(),
            t@ == s@,
            i <= n,
            forall|j: int| 0 <= j < i ==> s@[j] != '@',
        decreases n - i,
    {
        if t.get_char(i) == '@' {
            return true;
        }
        i += 1;
    }
    false
}

} // verus!
