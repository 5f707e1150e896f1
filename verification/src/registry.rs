//! The world-registry adapter: a model of the host's world collection and
//! the operations this core performs on it — look a world up by name,
//! append a new entry, remove every entry with a given name, and replay
//! the managed list at startup.

use vstd::prelude::*;
use crate::config::MyPlugin;

verus! {

/// Mathematical model of one entry of the host's world collection.
#[verifier::ext_equal]
pub ghost struct WorldModel {
    /// The world's unique name inside the host's collection.
    pub level_name: Seq<char>,
    /// The directory holding the world's data.
    pub folder: Seq<char>,
}

/// One entry of the host's world collection, as far as this core reads it:
/// its level name and the data folder it was created with.
pub struct WorldEntry {
    pub level_name: String,
    pub folder: String,
}

impl View for WorldEntry {
    type V = WorldModel;

    open spec fn view(&self) -> WorldModel {
        WorldModel { level_name: self.level_name@, folder: self.folder@ }
    }
}

/// The models of every entry of the collection, in order.
pub open spec fn world_models(ws: Seq<WorldEntry>) -> Seq<WorldModel> {
    Seq::new(ws.len(), |i: int| ws[i]@)
}

/// Whether some entry named `name` is present.
pub open spec fn has_world(ws: Seq<WorldModel>, name: Seq<char>) -> bool {
    exists|i: int| 0 <= i < ws.len() && ws[i].level_name == name
}

/// The data folder of a world: the base folder, a separator, the name.
pub open spec fn joined_path(base: Seq<char>, name: Seq<char>) -> Seq<char> {
    base + seq!['/'] + name
}

/// Builds the data-folder path for a world.
pub fn join_path(base: &str, name: &str) -> (r: String)
    ensures
        r@ == joined_path(base@, name@),
{
    let mut r = base.to_owned();
    r.append("/");
    r.append(name);
    proof {
        reveal_strlit("/");
        assert(r@ =~= joined_path(base@, name@));
    }
    r
}

/// Builds the entry that `create` appends for `name` under `base`.
pub fn make_entry(base: &str, name: &str) -> (r: WorldEntry)
    ensures
        r@ == (WorldModel { level_name: name@, folder: joined_path(base@, name@) }),
{
    let folder = join_path(base, name);
    WorldEntry { level_name: name.to_owned(), folder }
}

/// Whether a world named `name` is present in the host's collection.
pub fn exists_world(worlds: &Vec<WorldEntry>, name: &String) -> (r: bool)
    ensures
        r == has_world(world_models(worlds@), name@),
{
    let mut i: usize = 0;
    while i < worlds.len()
        invariant
            i <= worlds@.len(),
            forall|k: int| 0 <= k < i ==> world_models(worlds@)[k].level_name != name@,
        decreases worlds@.len() - i,
    {
        if worlds[i].level_name == *name {
            proof {
                assert(world_models(worlds@)[i as int].level_name == name@);
            }
            return true;
        }
        i += 1;
    }
    false
}

/// Finds the first entry named `name`, if any.
pub fn find_world(worlds: &Vec<WorldEntry>, name: &String) -> (r: Option<usize>)
    ensures
        match r {
            Some(i) => {
                &&& i < worlds@.len()
                &&& world_models(worlds@)[i as int].level_name == name@
                &&& forall|k: int| 0 <= k < i ==> world_models(worlds@)[k].level_name != name@
            },
            None => !has_world(world_models(worlds@), name@),
        },
{
    let mut i: usize = 0;
    while i < worlds.len()
        invariant
            i <= worlds@.len(),
            forall|k: int| 0 <= k < i ==> world_models(worlds@)[k].level_name != name@,
        decreases worlds@.len() - i,
    {
        if worlds[i].level_name == *name {
            proof {
                assert(world_models(worlds@)[i as int].level_name == name@);
            }
            return Some(i);
        }
        i += 1;
    }
    None
}

/// Pushing an entry pushes its model.
pub proof fn lemma_world_models_push(ws: Seq<WorldEntry>, e: WorldEntry)
    ensures
        world_models(ws.push(e)) == world_models(ws).push(e@),
{
    assert(world_models(ws.push(e)) =~= world_models(ws).push(e@));
}

/// A sequence filtered after a push: the pushed element stays iff it
/// satisfies the predicate.
pub proof fn lemma_filter_push<A>(s: Seq<A>, x: A, pred: spec_fn(A) -> bool)
    ensures
        s.push(x).filter(pred) == (if pred(x) {
            s.filter(pred).push(x)
        } else {
            s.filter(pred)
        }),
{
    reveal(Seq::filter);
    assert(s.push(x).drop_last() =~= s);
    assert(s.push(x).last() == x);
}

/// The predicate under which a name other than `name` is kept.
pub open spec fn keeps_name(name: Seq<char>) -> spec_fn(Seq<char>) -> bool {
    |n: Seq<char>| n != name
}

/// The predicate under which an entry not named `name` is kept.
pub open spec fn keeps_world(name: Seq<char>) -> spec_fn(WorldModel) -> bool {
    |m: WorldModel| m.level_name != name
}

/// Every element of a filtered sequence occurs in the original.
pub proof fn lemma_filter_sub<A>(s: Seq<A>, pred: spec_fn(A) -> bool, i: int)
    requires
        0 <= i < s.filter(pred).len(),
    ensures
        s.contains(s.filter(pred)[i]),
    decreases s.len(),
{
    reveal(Seq::filter);
    if s.len() > 0 {
        let f = s.drop_last().filter(pred);
        if pred(s.last()) && i == f.len() {
            assert(s[s.len() - 1] == s.filter(pred)[i]);
        } else {
            lemma_filter_sub(s.drop_last(), pred, i);
            let j = choose|j: int|
                0 <= j < s.drop_last().len() && s.drop_last()[j] == s.drop_last().filter(pred)[i];
            assert(s[j] == s.filter(pred)[i]);
        }
    }
}

/// Removes every entry whose level name equals `name`; the rest keep
/// their order. No-op when none matches.
pub fn remove_worlds(worlds: &mut Vec<WorldEntry>, name: &String)
    ensures
        world_models(final(worlds)@) == world_models(old(worlds)@).filter(keeps_world(name@)),
{
    let ghost pred = keeps_world(name@);
    let mut kept: Vec<WorldEntry> = Vec::new();
    let mut i: usize = 0;
    proof {
        assert(world_models(old(worlds)@.subrange(0, 0)) =~= Seq::<WorldModel>::empty());
        reveal(Seq::filter);
    }
    while i < worlds.len()
        invariant
            i <= worlds@.len(),
            worlds@ == old(worlds)@,
            world_models(kept@) == world_models(worlds@.subrange(0, i as int)).filter(pred),
            pred == keeps_world(name@),
        decreases worlds@.len() - i,
    {
        proof {
            assert(worlds@.subrange(0, i + 1) =~= worlds@.subrange(0, i as int).push(
                worlds@[i as int],
            ));
            lemma_world_models_push(worlds@.subrange(0, i as int), worlds@[i as int]);
            lemma_filter_push(
                world_models(worlds@.subrange(0, i as int)),
                worlds@[i as int]@,
                pred,
            );
        }
        if worlds[i].level_name != *name {
            let e = WorldEntry {
                level_name: worlds[i].level_name.clone(),
                folder: worlds[i].folder.clone(),
            };
            proof {
                assert(e@ == worlds@[i as int]@);
                lemma_world_models_push(kept@, e);
            }
            kept.push(e);
        }
        i += 1;
    }
    proof {
        assert(worlds@.subrange(0, worlds@.len() as int) =~= worlds@);
    }
    *worlds = kept;
}

/// What the startup replay leaves in the collection: each managed name in
/// list order gets one fresh entry under `base`, unless an entry of that
/// name is already present, which is then kept as it is.
pub open spec fn spec_replay(ws: Seq<WorldModel>, managed: Seq<Seq<char>>, base: Seq<char>) -> Seq<
    WorldModel,
>
    decreases managed.len(),
{
    if managed.len() == 0 {
        ws
    } else {
        let next = if has_world(ws, managed[0]) {
            ws
        } else {
            ws.push(WorldModel { level_name: managed[0], folder: joined_path(base, managed[0]) })
        };
        spec_replay(next, managed.drop_first(), base)
    }
}

/// Presence of a name survives a push.
pub proof fn lemma_has_world_push(ws: Seq<WorldModel>, e: WorldModel, name: Seq<char>)
    requires
        has_world(ws, name) || e.level_name == name,
    ensures
        has_world(ws.push(e), name),
{
    if has_world(ws, name) {
        let i = choose|i: int| 0 <= i < ws.len() && ws[i].level_name == name;
        assert(ws.push(e)[i].level_name == name);
    } else {
        assert(ws.push(e)[ws.len() as int].level_name == name);
    }
}

/// After the replay, a name is present iff it was already present or is
/// one of the managed names (invariant I1's world-list side).
pub proof fn lemma_replay_covers(
    ws: Seq<WorldModel>,
    managed: Seq<Seq<char>>,
    base: Seq<char>,
    name: Seq<char>,
)
    ensures
        has_world(spec_replay(ws, managed, base), name) <==> (has_world(ws, name)
            || managed.contains(name)),
    decreases managed.len(),
{
    if managed.len() == 0 {
        assert(!managed.contains(name));
    } else {
        let e = WorldModel { level_name: managed[0], folder: joined_path(base, managed[0]) };
        let next = if has_world(ws, managed[0]) {
            ws
        } else {
            ws.push(e)
        };
        lemma_replay_covers(next, managed.drop_first(), base, name);
        assert(managed.contains(name) <==> (managed[0] == name || managed.drop_first().contains(
            name,
        ))) by {
            if managed.contains(name) {
                let i = choose|i: int| 0 <= i < managed.len() && managed[i] == name;
                if i > 0 {
                    assert(managed.drop_first()[i - 1] == name);
                }
            }
            if managed.drop_first().contains(name) {
                let i = choose|i: int|
                    0 <= i < managed.drop_first().len() && managed.drop_first()[i] == name;
                assert(managed[i + 1] == name);
            }
        }
        if !has_world(ws, managed[0]) {
            assert(has_world(next, name) <==> (has_world(ws, name) || managed[0] == name)) by {
                if has_world(ws, name) || managed[0] == name {
                    lemma_has_world_push(ws, e, name);
                }
                if has_world(next, name) && !has_world(ws, name) {
                    let i = choose|i: int| 0 <= i < next.len() && next[i].level_name == name;
                    assert(i == ws.len());
                }
            }
        }
    }
}

/// Replaying names none of which the collection holds appends one entry
/// per name, in list order, and touches nothing else.
pub proof fn lemma_replay_appends_fresh(
    ws: Seq<WorldModel>,
    managed: Seq<Seq<char>>,
    base: Seq<char>,
)
    requires
        crate::config::distinct_names(managed),
        forall|k: int| 0 <= k < managed.len() ==> !has_world(ws, managed[k]),
    ensures
        spec_replay(ws, managed, base).len() == ws.len() + managed.len(),
        forall|i: int| 0 <= i < ws.len() ==> spec_replay(ws, managed, base)[i] == ws[i],
        forall|i: int|
            0 <= i < managed.len() ==> spec_replay(ws, managed, base)[ws.len() + i] == (WorldModel {
                level_name: managed[i],
                folder: joined_path(base, managed[i]),
            }),
    decreases managed.len(),
{
    if managed.len() > 0 {
        let e = WorldModel { level_name: managed[0], folder: joined_path(base, managed[0]) };
        assert(!has_world(ws, managed[0]));
        let next = ws.push(e);
        assert(crate::config::distinct_names(managed.drop_first())) by {
            assert forall|i: int, j: int|
                0 <= i < j < managed.drop_first().len() implies managed.drop_first()[i]
                != managed.drop_first()[j] by {
                assert(managed[i + 1] != managed[j + 1]);
            }
        }
        assert forall|k: int| 0 <= k < managed.drop_first().len() implies !has_world(
            next,
            managed.drop_first()[k],
        ) by {
            assert(managed.drop_first()[k] == managed[k + 1]);
            assert(managed[k + 1] != managed[0]);
            if has_world(next, managed[k + 1]) {
                let t = choose|t: int|
                    0 <= t < next.len() && next[t].level_name == managed[k + 1];
                if t < ws.len() {
                    assert(has_world(ws, managed[k + 1]));
                } else {
                    assert(next[t] == e);
                }
            }
        }
        lemma_replay_appends_fresh(next, managed.drop_first(), base);
        assert forall|i: int| 0 <= i < ws.len() implies spec_replay(ws, managed, base)[i]
            == ws[i] by {
            assert(spec_replay(next, managed.drop_first(), base)[i] == next[i]);
            assert(next[i] == ws[i]);
        }
        assert forall|i: int| 0 <= i < managed.len() implies spec_replay(ws, managed, base)[ws.len()
            + i] == (WorldModel {
            level_name: managed[i],
            folder: joined_path(base, managed[i]),
        }) by {
            if i == 0 {
                assert(spec_replay(next, managed.drop_first(), base)[ws.len() as int] == next[ws.len() as int]);
                assert(next[ws.len() as int] == e);
            } else {
                assert(managed.drop_first()[i - 1] == managed[i]);
                assert(spec_replay(next, managed.drop_first(), base)[next.len() + (i - 1)] == (
                WorldModel {
                    level_name: managed.drop_first()[i - 1],
                    folder: joined_path(base, managed.drop_first()[i - 1]),
                }));
            }
        }
    }
}

/// Replaying into an empty collection reconstructs it in lockstep with a
/// duplicate-free managed list: the i-th entry carries the i-th name.
pub proof fn lemma_replay_reconstructs(managed: Seq<Seq<char>>, base: Seq<char>)
    requires
        crate::config::distinct_names(managed),
    ensures
        spec_replay(Seq::<WorldModel>::empty(), managed, base).len() == managed.len(),
        forall|i: int|
            0 <= i < managed.len() ==> spec_replay(Seq::<WorldModel>::empty(), managed, base)[i]
                == (WorldModel { level_name: managed[i], folder: joined_path(base, managed[i]) }),
{
    let ws = Seq::<WorldModel>::empty();
    assert forall|k: int| 0 <= k < managed.len() implies !has_world(ws, managed[k]) by {}
    lemma_replay_appends_fresh(ws, managed, base);
}

/// Replays the managed list into the host's collection: appends one entry
/// per managed name, in list order, skipping names the host already holds.
pub fn replay_worlds(config: &MyPlugin, worlds: &mut Vec<WorldEntry>)
    ensures
        world_models(final(worlds)@) == spec_replay(
            world_models(old(worlds)@),
            config@.managed_worlds,
            config@.world_folder,
        ),
        forall|k: int|
            0 <= k < config@.managed_worlds.len() ==> has_world(
                world_models(final(worlds)@),
                config@.managed_worlds[k],
            ),
{
    let ghost managed = config@.managed_worlds;
    let ghost base = config@.world_folder;
    let ghost start = world_models(worlds@);
    proof {
        assert(managed.skip(0) =~= managed);
    }
    let mut i: usize = 0;
    while i < config.managed_worlds.len()
        invariant
            i <= managed.len(),
            managed == config@.managed_worlds,
            base == config@.world_folder,
            spec_replay(start, managed, base) == spec_replay(
                world_models(worlds@),
                managed.skip(i as int),
                base,
            ),
        decreases managed.len() - i,
    {
        let name = &config.managed_worlds[i];
        proof {
            assert(managed.skip(i as int).len() == managed.len() - i);
            assert(managed.skip(i as int)[0] == managed[i as int]);
            assert(managed[i as int] == name@);
            assert(managed.skip(i as int).drop_first() =~= managed.skip(i + 1));
        }
        if !exists_world(worlds, name) {
            let e = make_entry(config.world_folder.as_str(), name.as_str());
            proof {
                lemma_world_models_push(worlds@, e);
            }
            worlds.push(e);
        }
        i += 1;
    }
    proof {
        assert(managed.skip(managed.len() as int) =~= Seq::<Seq<char>>::empty());
        assert forall|k: int| 0 <= k < managed.len() implies has_world(
            world_models(worlds@),
            managed[k],
        ) by {
            lemma_replay_covers(start, managed, base, managed[k]);
            assert(managed.contains(managed[k]));
        }
    }
}

} // verus!
