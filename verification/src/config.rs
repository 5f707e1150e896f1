//! The durable configuration record: the base folder under which every
//! managed world's data lives, and the ordered list of managed world names.

use vstd::prelude::*;

verus! {

/// Mathematical model of the configuration record.
#[verifier::ext_equal]
pub ghost struct ConfigModel {
    /// Root directory under which every managed world's data folder lives.
    pub world_folder: Seq<char>,
    /// Unique world names currently tracked, in insertion order.
    pub managed_worlds: Seq<Seq<char>>,
}

/// No two entries of `names` are equal.
pub open spec fn distinct_names(names: Seq<Seq<char>>) -> bool {
    forall|i: int, j: int| 0 <= i < j < names.len() ==> names[i] != names[j]
}

impl ConfigModel {
    /// Whether `name` is one of the managed world names.
    pub open spec fn contains_world(self, name: Seq<char>) -> bool {
        self.managed_worlds.contains(name)
    }

    /// The managed list never holds the same name twice (no duplicates).
    pub open spec fn wf(self) -> bool {
        distinct_names(self.managed_worlds)
    }
}

/// The configuration as it lives in memory; its model is a `ConfigModel`.
pub struct MyPlugin {
    pub world_folder: String,
    pub managed_worlds: Vec<String>,
}

/// The models (character sequences) of a vector of names, in order.
pub open spec fn name_models(names: Seq<String>) -> Seq<Seq<char>> {
    Seq::new(names.len(), |i: int| names[i]@)
}

impl View for MyPlugin {
    type V = ConfigModel;

    open spec fn view(&self) -> ConfigModel {
        ConfigModel {
            world_folder: self.world_folder@,
            managed_worlds: name_models(self.managed_worlds@),
        }
    }
}

impl MyPlugin {
    /// A fresh configuration: base folder "worlds", no managed worlds.
    pub fn new() -> (r: MyPlugin)
        ensures
            r@.world_folder == "worlds"@,
            r@.managed_worlds == Seq::<Seq<char>>::empty(),
            r@.wf(),
    {
        let r = MyPlugin { world_folder: "worlds".to_owned(), managed_worlds: Vec::new() };
        proof {
            assert(r@.managed_worlds =~= Seq::<Seq<char>>::empty());
        }
        r
    }
}

impl Default for MyPlugin {
    fn default() -> (r: MyPlugin)
        ensures
            r@.world_folder == "worlds"@,
            r@.managed_worlds == Seq::<Seq<char>>::empty(),
            r@.wf(),
    {
        MyPlugin::new()
    }
}

/// Whether `name` occurs in `names`; exact, case-sensitive comparison.
pub fn contains_name(names: &Vec<String>, name: &String) -> (r: bool)
    ensures
        r == name_models(names@).contains(name@),
{
    let mut i: usize = 0;
    while i < names.len()
        invariant
            i <= names@.len(),
            forall|k: int| 0 <= k < i ==> name_models(names@)[k] != name@,
        decreases names@.len() - i,
    {
        if names[i] == *name {
            proof {
                assert(name_models(names@)[i as int] == name@);
            }
            return true;
        }
        i += 1;
    }
    proof {
        assert forall|k: int| 0 <= k < names@.len() implies name_models(names@)[k] != name@ by {}
        if name_models(names@).contains(name@) {
            let k = choose|k: int|
                0 <= k < name_models(names@).len() && name_models(names@)[k] == name@;
        }
    }
    false
}

} // verus!
