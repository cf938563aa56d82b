//! Registries that map the names of externally defined attributes and
//! animation targets to the functions that decode them.
use vstd::prelude::*;

verus! {

/// A type-erased attribute: the payload of an externally registered
/// attribute type, with the identity of that type.
pub struct DynamicAttribute<V> {
    pub name: String,
    pub type_path: String,
    pub type_key: u64,
    pub data: V,
}

impl<V> DynamicAttribute<V> {
    pub fn new(name: String, type_path: String, type_key: u64, data: V) -> (r: Self)
        ensures
            r.name == name,
            r.type_path == type_path,
            r.type_key == type_key,
            r.data == data,
    {
        DynamicAttribute { name, type_path, type_key, data }
    }

    pub fn name(&self) -> (r: &String)
        ensures
            r == &self.name,
    {
        &self.name
    }

    pub fn attribute_type_id(&self) -> (r: u64)
        ensures
            r == self.type_key,
    {
        self.type_key
    }

    pub fn attribute_type_path(&self) -> (r: &String)
        ensures
            r == &self.type_path,
    {
        &self.type_path
    }
}

/// One registered name and its decoder.
pub struct Registration<F> {
    pub name: String,
    pub decode: F,
}

/// How a name found in an asset resolves.
#[derive(Clone, Copy, Debug, PartialEq, Eq, Structural)]
pub enum Resolved {
    /// Registered under this key; its decoder is `decoder(key)`.
    Registered(usize),
    /// Not registered: the raw data is kept and has no effect.
    Unregistered,
}

/// Why a name could not be resolved.
#[derive(Clone, Copy, Debug, PartialEq, Eq, Structural)]
pub enum RegistryError {
    UnknownName,
}

/// The position of the registration named `name`.
pub open spec fn index_of<F>(entries: Seq<Registration<F>>, name: Seq<char>) -> Option<int> {
    if exists|i: int| 0 <= i < entries.len() && (#[trigger] entries[i]).name@ == name {
        Some(choose|i: int| 0 <= i < entries.len() && (#[trigger] entries[i]).name@ == name)
    } else {
        None
    }
}

/// Names registered with their decoders, each name once.
pub struct Registry<F> {
    entries: Vec<Registration<F>>,
    ignore_unknown: bool,
}

impl<F> Registry<F> {
    pub closed spec fn view(&self) -> Seq<Registration<F>> {
        self.entries@
    }

    pub closed spec fn spec_ignore_unknown(&self) -> bool {
        self.ignore_unknown
    }

    pub open spec fn well_formed(&self) -> bool {
        forall|i: int, j: int|
            0 <= i < j < self@.len() ==> (#[trigger] self@[i]).name@ != (#[trigger] self@[j]).name@
    }

    /// An empty registry; with `ignore_unknown`, unknown names pass through
    /// instead of failing.
    pub fn new(ignore_unknown: bool) -> (r: Self)
        ensures
            r@.len() == 0,
            r.spec_ignore_unknown() == ignore_unknown,
            r.well_formed(),
    {
        Registry { entries: Vec::new(), ignore_unknown }
    }

    fn find(&self, name: &String) -> (r: Option<usize>)
        requires
            self.well_formed(),
        ensures
            r matches Some(i) ==> index_of(self@, name@) == Some(i as int),
            r is None ==> index_of(self@, name@) is None,
    {
        let mut i: usize = 0;
        while i < self.entries.len()
            invariant
                self.well_formed(),
                i <= self.entries@.len(),
                forall|j: int| 0 <= j < i ==> (#[trigger] self.entries@[j]).name@ != name@,
            decreases self.entries@.len() - i,
        {
            if self.entries[i].name == *name {
                proof {
                    let c = choose|c: int| 0 <= c < self@.len() && (#[trigger] self@[c]).name@ == name@;
                    if c < i as int {
                        assert(self@[c].name@ != self@[i as int].name@);
                    } else if c > i as int {
                        assert(self@[i as int].name@ != self@[c].name@);
                    }
                }
                return Some(i);
            }
            i = i + 1;
        }
        None
    }

    /// Registers `decode` under `name`, replacing an earlier registration of
    /// the name, and returns the name's key.
    pub fn register(&mut self, name: String, decode: F) -> (key: usize)
        requires
            old(self).well_formed(),
            old(self)@.len() < usize::MAX,
        ensures
            final(self).well_formed(),
            final(self).spec_ignore_unknown() == old(self).spec_ignore_unknown(),
            match index_of(old(self)@, name@) {
                Some(i) => key == i && final(self)@ == old(self)@.update(i, Registration { name, decode }),
                None => key == old(self)@.len() && final(self)@ == old(self)@.push(Registration { name, decode }),
            },
    {
        match self.find(&name) {
            Some(i) => {
                let ghost before = self.entries@;
                let ghost reg = Registration { name, decode };
                self.entries.set(i, Registration { name, decode });
                assert forall|a: int, b: int| 0 <= a < b < self@.len() implies
                    (#[trigger] self@[a]).name@ != (#[trigger] self@[b]).name@ by {
                    if a != i && b != i {
                        assert(before[a].name@ != before[b].name@);
                    } else if a == i {
                        assert(before[a].name@ != before[b].name@);
                    } else {
                        assert(before[a].name@ != before[b].name@);
                    }
                };
                i
            },
            None => {
                let key = self.entries.len();
                self.entries.push(Registration { name, decode });
                assert forall|a: int, b: int| 0 <= a < b < self@.len() implies
                    (#[trigger] self@[a]).name@ != (#[trigger] self@[b]).name@ by {
                    if b == key {
                        if self@[a].name@ == self@[b].name@ {
                            assert(exists|c: int| 0 <= c < old(self)@.len() && (#[trigger] old(self)@[c]).name@ == name@)
                                by { assert(old(self)@[a].name@ == name@); };
                        }
                    } else {
                        assert(old(self)@[a].name@ != old(self)@[b].name@);
                    }
                };
                key
            },
        }
    }

    /// How `name` resolves: to its key when registered; otherwise to a
    /// pass-through when unknown names are tolerated, or to an error.
    pub fn resolve(&self, name: &str) -> (r: Result<Resolved, RegistryError>)
        requires
            self.well_formed(),
        ensures
            r == match index_of(self@, name@) {
                Some(i) => Ok(Resolved::Registered(i as usize)),
                None => if self.spec_ignore_unknown() {
                    Ok(Resolved::Unregistered)
                } else {
                    Err(RegistryError::UnknownName)
                },
            },
    {
        let key = name.to_owned();
        match self.find(&key) {
            Some(i) => Ok(Resolved::Registered(i)),
            None => if self.ignore_unknown {
                Ok(Resolved::Unregistered)
            } else {
                Err(RegistryError::UnknownName)
            },
        }
    }

    /// The decoder registered under `key`.
    pub fn decoder(&self, key: usize) -> (r: &F)
        requires
            key < self@.len(),
        ensures
            *r == self@[key as int].decode,
    {
        &self.entries[key].decode
    }

    pub fn len(&self) -> (r: usize)
        ensures
            r == self@.len(),
    {
        self.entries.len()
    }
}

/// The registries of attributes and of animation targets.
pub struct LayoutRegistry<A, T> {
    pub attributes: Registry<A>,
    pub animations: Registry<T>,
}

impl<A, T> LayoutRegistry<A, T> {
    pub fn new(ignore_unknown_registry_data: bool) -> (r: Self)
        ensures
            r.attributes@.len() == 0,
            r.animations@.len() == 0,
            r.attributes.well_formed(),
            r.animations.well_formed(),
            r.attributes.spec_ignore_unknown() == ignore_unknown_registry_data,
            r.animations.spec_ignore_unknown() == ignore_unknown_registry_data,
    {
        LayoutRegistry {
            attributes: Registry::new(ignore_unknown_registry_data),
            animations: Registry::new(ignore_unknown_registry_data),
        }
    }

    /// Registers an attribute decoder under `name`.
    pub fn register_attribute(&mut self, name: String, decode: A) -> (key: usize)
        requires
            old(self).attributes.well_formed(),
            old(self).attributes@.len() < usize::MAX,
        ensures
            final(self).attributes.well_formed(),
            final(self).animations == old(self).animations,
            final(self).attributes.spec_ignore_unknown() == old(self).attributes.spec_ignore_unknown(),
            match index_of(old(self).attributes@, name@) {
                Some(i) => key == i && final(self).attributes@ == old(self).attributes@.update(
                    i,
                    Registration { name, decode },
                ),
                None => key == old(self).attributes@.len() && final(self).attributes@
                    == old(self).attributes@.push(Registration { name, decode }),
            },
    {
        self.attributes.register(name, decode)
    }

    /// Registers an animation target decoder under `name`.
    pub fn register_animation(&mut self, name: String, decode: T) -> (key: usize)
        requires
            old(self).animations.well_formed(),
            old(self).animations@.len() < usize::MAX,
        ensures
            final(self).animations.well_formed(),
            final(self).attributes == old(self).attributes,
            final(self).animations.spec_ignore_unknown() == old(self).animations.spec_ignore_unknown(),
            match index_of(old(self).animations@, name@) {
                Some(i) => key == i && final(self).animations@ == old(self).animations@.update(
                    i,
                    Registration { name, decode },
                ),
                None => key == old(self).animations@.len() && final(self).animations@
                    == old(self).animations@.push(Registration { name, decode }),
            },
    {
        self.animations.register(name, decode)
    }
}

} // verus!
