//! The four command handlers — create, list, delete, teleport — as
//! verified transitions on the configuration record and the (modeled)
//! host world collection, together with the user-facing message texts
//! and the laws the handlers obey.

use vstd::prelude::*;
use crate::config::{ConfigModel, MyPlugin, contains_name, distinct_names};
use crate::registry::{
    WorldEntry, WorldModel, find_world, has_world, joined_path, keeps_name, keeps_world,
    lemma_filter_push, lemma_world_models_push, make_entry, remove_worlds, world_models,
};

verus! {

/// What the create handler did.
pub enum CreateOutcome {
    AlreadyExists,
    Created,
}

/// What the delete handler did.
pub enum DeleteOutcome {
    DoesNotExist,
    Deleted,
}

/// What the teleport handler decided; the host performs the movement.
pub enum TeleportPlan {
    /// No world of that name is present in the host's collection.
    WorldNotFound,
    /// Teleport the named targets into the world at this index.
    TeleportTargets { world_index: usize },
    /// No targets were given; teleport the issuing player into the world
    /// at this index.
    TeleportSender { world_index: usize },
    /// No targets were given and the issuer is not a player.
    NoPlayerSpecified,
}

/// The create transition on the models: when `name` is already managed,
/// nothing changes; otherwise `name` is appended to the managed list and
/// one fresh entry is appended to the collection.
pub open spec fn spec_create(c: ConfigModel, w: Seq<WorldModel>, name: Seq<char>) -> (
    ConfigModel,
    Seq<WorldModel>,
    bool,
) {
    if c.contains_world(name) {
        (c, w, false)
    } else {
        (
            ConfigModel { world_folder: c.world_folder, managed_worlds: c.managed_worlds.push(name) },
            w.push(WorldModel { level_name: name, folder: joined_path(c.world_folder, name) }),
            true,
        )
    }
}

/// The delete transition on the models: when `name` is not managed,
/// nothing changes; otherwise `name` leaves the managed list and every
/// entry of that name leaves the collection.
pub open spec fn spec_delete(c: ConfigModel, w: Seq<WorldModel>, name: Seq<char>) -> (
    ConfigModel,
    Seq<WorldModel>,
    bool,
) {
    if !c.contains_world(name) {
        (c, w, false)
    } else {
        (
            ConfigModel {
                world_folder: c.world_folder,
                managed_worlds: c.managed_worlds.filter(keeps_name(name)),
            },
            w.filter(keeps_world(name)),
            true,
        )
    }
}

/// Creates a managed world: appends it to the managed list and to the
/// host's collection, unless the name is already managed.
pub fn create_world(config: &mut MyPlugin, worlds: &mut Vec<WorldEntry>, name: &String) -> (r:
    CreateOutcome)
    ensures
        final(config)@ == spec_create(old(config)@, world_models(old(worlds)@), name@).0,
        world_models(final(worlds)@) == spec_create(
            old(config)@,
            world_models(old(worlds)@),
            name@,
        ).1,
        (r is Created) == spec_create(old(config)@, world_models(old(worlds)@), name@).2,
        old(config)@.wf() ==> final(config)@.wf(),
{
    if contains_name(&config.managed_worlds, name) {
        proof {
            assert(old(config)@.contains_world(name@));
        }
        return CreateOutcome::AlreadyExists;
    }
    proof {
        assert(!old(config)@.contains_world(name@));
    }
    let e = make_entry(config.world_folder.as_str(), name.as_str());
    proof {
        lemma_world_models_push(worlds@, e);
    }
    worlds.push(e);
    config.managed_worlds.push(name.clone());
    proof {
        assert(config@.managed_worlds =~= old(config)@.managed_worlds.push(name@));
        assert(config@ =~= spec_create(old(config)@, world_models(old(worlds)@), name@).0);
        if old(config)@.wf() {
            lemma_create_preserves_wf(old(config)@, world_models(old(worlds)@), name@);
        }
    }
    CreateOutcome::Created
}

/// Deletes a managed world: removes it from the managed list and every
/// entry of its name from the collection, unless it is not managed.
pub fn delete_world(config: &mut MyPlugin, worlds: &mut Vec<WorldEntry>, name: &String) -> (r:
    DeleteOutcome)
    ensures
        final(config)@ == spec_delete(old(config)@, world_models(old(worlds)@), name@).0,
        world_models(final(worlds)@) == spec_delete(
            old(config)@,
            world_models(old(worlds)@),
            name@,
        ).1,
        (r is Deleted) == spec_delete(old(config)@, world_models(old(worlds)@), name@).2,
        old(config)@.wf() ==> final(config)@.wf(),
{
    if !contains_name(&config.managed_worlds, name) {
        proof {
            assert(!old(config)@.contains_world(name@));
        }
        return DeleteOutcome::DoesNotExist;
    }
    proof {
        assert(old(config)@.contains_world(name@));
    }
    remove_names(&mut config.managed_worlds, name);
    remove_worlds(worlds, name);
    proof {
        assert(config@ =~= spec_delete(old(config)@, world_models(old(worlds)@), name@).0);
        if old(config)@.wf() {
            lemma_delete_preserves_wf(old(config)@, world_models(old(worlds)@), name@);
        }
    }
    DeleteOutcome::Deleted
}

/// Removes every name equal to `name` from the list; the rest keep order.
fn remove_names(names: &mut Vec<String>, name: &String)
    ensures
        crate::config::name_models(final(names)@) == crate::config::name_models(
            old(names)@,
        ).filter(keeps_name(name@)),
{
    let ghost pred = keeps_name(name@);
    let mut kept: Vec<String> = Vec::new();
    let mut i: usize = 0;
    proof {
        assert(crate::config::name_models(old(names)@.subrange(0, 0)) =~= Seq::<
            Seq<char>,
        >::empty());
        reveal(Seq::filter);
    }
    while i < names.len()
        invariant
            i <= names@.len(),
            names@ == old(names)@,
            crate::config::name_models(kept@) == crate::config::name_models(
                names@.subrange(0, i as int),
            ).filter(pred),
            pred == keeps_name(name@),
        decreases names@.len() - i,
    {
        proof {
            assert(names@.subrange(0, i + 1) =~= names@.subrange(0, i as int).push(
                names@[i as int],
            ));
            assert(crate::config::name_models(names@.subrange(0, i as int).push(names@[i as int]))
                =~= crate::config::name_models(names@.subrange(0, i as int)).push(
                names@[i as int]@,
            ));
            lemma_filter_push(
                crate::config::name_models(names@.subrange(0, i as int)),
                names@[i as int]@,
                pred,
            );
        }
        if names[i] != *name {
            let s = names[i].clone();
            proof {
                assert(crate::config::name_models(kept@.push(s)) =~= crate::config::name_models(
                    kept@,
                ).push(s@));
            }
            kept.push(s);
        }
        i += 1;
    }
    proof {
        assert(names@.subrange(0, names@.len() as int) =~= names@);
    }
    *names = kept;
}

/// One line of the list report: a world's name and whether it is managed.
pub struct ListLine {
    pub name: String,
    pub managed: bool,
}

/// Lists every world of the host's collection, in the collection's order,
/// each labeled managed iff its name is in the managed list.
pub fn list_worlds(config: &MyPlugin, worlds: &Vec<WorldEntry>) -> (r: Vec<ListLine>)
    ensures
        r@.len() == worlds@.len(),
        forall|i: int|
            0 <= i < r@.len() ==> r@[i].name@ == world_models(worlds@)[i].level_name
                && r@[i].managed == config@.contains_world(world_models(worlds@)[i].level_name),
{
    let mut r: Vec<ListLine> = Vec::new();
    let mut i: usize = 0;
    while i < worlds.len()
        invariant
            i <= worlds@.len(),
            r@.len() == i,
            forall|k: int|
                0 <= k < i ==> r@[k].name@ == world_models(worlds@)[k].level_name && r@[k].managed
                    == config@.contains_world(world_models(worlds@)[k].level_name),
        decreases worlds@.len() - i,
    {
        let name = worlds[i].level_name.clone();
        let managed = contains_name(&config.managed_worlds, &name);
        proof {
            assert(managed == config@.contains_world(world_models(worlds@)[i as int].level_name));
        }
        r.push(ListLine { name, managed });
        i += 1;
    }
    r
}

/// Decides what the teleport command does: the world is looked up by name
/// alone — managed or not — and a missing world is reported without
/// any movement; with no targets given, only a player issuer can be
/// moved.
pub fn plan_teleport(
    worlds: &Vec<WorldEntry>,
    name: &String,
    has_targets: bool,
    sender_is_player: bool,
) -> (r: TeleportPlan)
    ensures
        (r is WorldNotFound) <==> !has_world(world_models(worlds@), name@),
        r matches TeleportPlan::TeleportTargets { world_index } ==> has_targets && world_index
            < worlds@.len() && world_models(worlds@)[world_index as int].level_name == name@ && (
        forall|k: int| 0 <= k < world_index ==> world_models(worlds@)[k].level_name != name@),
        r matches TeleportPlan::TeleportSender { world_index } ==> !has_targets
            && sender_is_player && world_index < worlds@.len() && world_models(
            worlds@,
        )[world_index as int].level_name == name@ && (forall|k: int|
            0 <= k < world_index ==> world_models(worlds@)[k].level_name != name@),
        has_world(world_models(worlds@), name@) && has_targets ==> r is TeleportTargets,
        has_world(world_models(worlds@), name@) && !has_targets && sender_is_player
            ==> r is TeleportSender,
        (r is NoPlayerSpecified) <==> has_world(world_models(worlds@), name@) && !has_targets
            && !sender_is_player,
{
    match find_world(worlds, name) {
        Some(world_index) => {
            if has_targets {
                TeleportPlan::TeleportTargets { world_index }
            } else if sender_is_player {
                TeleportPlan::TeleportSender { world_index }
            } else {
                TeleportPlan::NoPlayerSpecified
            }
        },
        None => TeleportPlan::WorldNotFound,
    }
}

/// The status message for a create request on a name already managed.
pub fn message_already_exists(name: &str) -> (r: String)
    ensures
        r@ == "World \""@ + name@ + "\" already exists."@,
{
    let mut r = "World \"".to_owned();
    r.append(name);
    r.append("\" already exists.");
    r
}

/// The status message sent while a world is being created.
pub fn message_creating(name: &str) -> (r: String)
    ensures
        r@ == "Creating new world \""@ + name@ + "\"..."@,
{
    let mut r = "Creating new world \"".to_owned();
    r.append(name);
    r.append("\"...");
    r
}

/// The status message for a completed create.
pub fn message_created(name: &str) -> (r: String)
    ensures
        r@ == "World \""@ + name@ + "\" created."@,
{
    let mut r = "World \"".to_owned();
    r.append(name);
    r.append("\" created.");
    r
}

/// The status message for a completed delete.
pub fn message_deleted(name: &str) -> (r: String)
    ensures
        r@ == "World \""@ + name@ + "\" deleted."@,
{
    let mut r = "World \"".to_owned();
    r.append(name);
    r.append("\" deleted.");
    r
}

/// The status message for a world that is not there: a delete of an
/// unmanaged name, or a teleport to an unknown world.
pub fn message_does_not_exist(name: &str) -> (r: String)
    ensures
        r@ == "World \""@ + name@ + "\" does not exist."@,
{
    let mut r = "World \"".to_owned();
    r.append(name);
    r.append("\" does not exist.");
    r
}

/// The status message for a teleport issued without targets by a
/// non-player.
pub fn message_must_specify_player() -> (r: String)
    ensures
        r@ == "You must specify a player to teleport."@,
{
    "You must specify a player to teleport.".to_owned()
}

/// One rendered line of the list report.
pub fn format_list_line(line: &ListLine) -> (r: String)
    ensures
        line.managed ==> r@ == "\n - "@ + line.name@ + " (Managed)"@,
        !line.managed ==> r@ == "\n - "@ + line.name@ + " (unmanaged)"@,
{
    let mut r = "\n - ".to_owned();
    r.append(line.name.as_str());
    if line.managed {
        r.append(" (Managed)");
    } else {
        r.append(" (unmanaged)");
    }
    r
}

/// The text of one report line: the name, then its label.
pub open spec fn spec_list_line(name: Seq<char>, managed: bool) -> Seq<char> {
    "\n - "@ + name + (if managed {
        " (Managed)"@
    } else {
        " (unmanaged)"@
    })
}

/// The text of the report lines from position `i` on.
pub open spec fn spec_report_from(lines: Seq<ListLine>, i: int) -> Seq<char>
    decreases lines.len() - i,
{
    if i < 0 || i >= lines.len() {
        Seq::empty()
    } else {
        spec_list_line(lines[i].name@, lines[i].managed) + spec_report_from(lines, i + 1)
    }
}

/// The whole list report: the header, then one line per world.
pub fn render_list_report(lines: &Vec<ListLine>) -> (r: String)
    ensures
        r@ == "Worlds: "@ + spec_report_from(lines@, 0),
{
    let mut out = "Worlds: ".to_owned();
    let mut i: usize = 0;
    while i < lines.len()
        invariant
            i <= lines@.len(),
            out@ + spec_report_from(lines@, i as int) == "Worlds: "@ + spec_report_from(
                lines@,
                0,
            ),
        decreases lines@.len() - i,
    {
        let ghost prev = out@;
        let line = format_list_line(&lines[i]);
        out.append(line.as_str());
        proof {
            assert(line@ == spec_list_line(lines@[i as int].name@, lines@[i as int].managed));
            assert(out@ + spec_report_from(lines@, i + 1) =~= prev + (spec_list_line(
                lines@[i as int].name@,
                lines@[i as int].managed,
            ) + spec_report_from(lines@, i + 1)));
        }
        i += 1;
    }
    proof {
        assert(spec_report_from(lines@, lines@.len() as int) == Seq::<char>::empty());
        assert(out@ + Seq::<char>::empty() =~= out@);
    }
    out
}

/// The create transition keeps the managed list free of duplicates.
pub proof fn lemma_create_preserves_wf(c: ConfigModel, w: Seq<WorldModel>, name: Seq<char>)
    requires
        c.wf(),
    ensures
        spec_create(c, w, name).0.wf(),
{
    if !c.contains_world(name) {
        let m2 = c.managed_worlds.push(name);
        assert forall|i: int, j: int| 0 <= i < j < m2.len() implies m2[i] != m2[j] by {
            if j == m2.len() - 1 {
                assert(m2[i] == c.managed_worlds[i]);
            }
        }
    }
}

/// The delete transition keeps the managed list free of duplicates.
pub proof fn lemma_delete_preserves_wf(c: ConfigModel, w: Seq<WorldModel>, name: Seq<char>)
    requires
        c.wf(),
    ensures
        spec_delete(c, w, name).0.wf(),
{
    if c.contains_world(name) {
        lemma_filter_distinct(c.managed_worlds, keeps_name(name));
    }
}

/// How often `name` occurs in `names`.
pub open spec fn count_name(names: Seq<Seq<char>>, name: Seq<char>) -> nat
    decreases names.len(),
{
    if names.len() == 0 {
        0
    } else {
        (if names[0] == name {
            1nat
        } else {
            0nat
        }) + count_name(names.drop_first(), name)
    }
}

/// A name occurs at least once iff the list contains it.
pub proof fn lemma_count_contains(names: Seq<Seq<char>>, name: Seq<char>)
    ensures
        count_name(names, name) >= 1 <==> names.contains(name),
    decreases names.len(),
{
    if names.len() > 0 {
        lemma_count_contains(names.drop_first(), name);
        if names[0] == name {
            assert(names.contains(name));
        } else {
            if names.drop_first().contains(name) {
                let i = choose|i: int|
                    0 <= i < names.drop_first().len() && names.drop_first()[i] == name;
                assert(names[i + 1] == name);
            }
            if names.contains(name) {
                let i = choose|i: int| 0 <= i < names.len() && names[i] == name;
                assert(names.drop_first()[i - 1] == name);
            }
        }
    }
}

/// In a duplicate-free list no name occurs more than once.
pub proof fn lemma_count_distinct(names: Seq<Seq<char>>, name: Seq<char>)
    requires
        distinct_names(names),
    ensures
        count_name(names, name) <= 1,
    decreases names.len(),
{
    if names.len() > 0 {
        assert(distinct_names(names.drop_first())) by {
            assert forall|i: int, j: int|
                0 <= i < j < names.drop_first().len() implies names.drop_first()[i]
                != names.drop_first()[j] by {
                assert(names[i + 1] != names[j + 1]);
            }
        }
        lemma_count_distinct(names.drop_first(), name);
        if names[0] == name {
            assert forall|i: int| 0 <= i < names.drop_first().len() implies names.drop_first()[i]
                != name by {
                assert(names[i + 1] != names[0]);
            }
            lemma_count_contains(names.drop_first(), name);
            if names.drop_first().contains(name) {
                let i = choose|i: int|
                    0 <= i < names.drop_first().len() && names.drop_first()[i] == name;
            }
            assert(count_name(names.drop_first(), name) == 0) by {
                if count_name(names.drop_first(), name) >= 1 {
                    assert(names.drop_first().contains(name));
                }
            }
        }
    }
}

/// Appending one name raises its own count by one and no other's.
pub proof fn lemma_count_push(names: Seq<Seq<char>>, x: Seq<char>, name: Seq<char>)
    ensures
        count_name(names.push(x), name) == count_name(names, name) + (if x == name {
            1nat
        } else {
            0nat
        }),
    decreases names.len(),
{
    if names.len() == 0 {
        assert(names.push(x)[0] == x);
        assert(names.push(x).drop_first() =~= Seq::<Seq<char>>::empty());
        assert(count_name(names.push(x).drop_first(), name) == 0);
        assert(count_name(names, name) == 0);
    } else {
        assert(names.push(x).drop_first() =~= names.drop_first().push(x));
        lemma_count_push(names.drop_first(), x, name);
        assert(names.push(x)[0] == names[0]);
        assert(count_name(names.push(x), name) == (if names[0] == name {
            1nat
        } else {
            0nat
        }) + count_name(names.drop_first().push(x), name));
        assert(count_name(names, name) == (if names[0] == name {
            1nat
        } else {
            0nat
        }) + count_name(names.drop_first(), name));
    }
}

/// Law (idempotent create-guard): issuing create twice for the same name
/// leaves exactly one managed entry of that name; the second call reports
/// the world as existing and changes neither the registry nor the
/// collection.
pub proof fn lemma_create_idempotent(c: ConfigModel, w: Seq<WorldModel>, name: Seq<char>)
    requires
        c.wf(),
    ensures
        ({
            let first = spec_create(c, w, name);
            let second = spec_create(first.0, first.1, name);
            &&& !second.2
            &&& second.0 == first.0
            &&& second.1 == first.1
            &&& count_name(first.0.managed_worlds, name) == 1
        }),
{
    let first = spec_create(c, w, name);
    if c.contains_world(name) {
        lemma_count_contains(c.managed_worlds, name);
        lemma_count_distinct(c.managed_worlds, name);
    } else {
        lemma_count_contains(c.managed_worlds, name);
        lemma_count_push(c.managed_worlds, name, name);
        assert(first.0.managed_worlds[c.managed_worlds.len() as int] == name);
        assert(first.0.contains_world(name));
    }
}

/// One create or delete request, by the world name it carries.
pub ghost enum RegistryOp {
    Create { name: Seq<char> },
    Delete { name: Seq<char> },
}

/// The state after one operation.
pub open spec fn apply_op(c: ConfigModel, w: Seq<WorldModel>, op: RegistryOp) -> (
    ConfigModel,
    Seq<WorldModel>,
) {
    match op {
        RegistryOp::Create { name } => {
            let t = spec_create(c, w, name);
            (t.0, t.1)
        },
        RegistryOp::Delete { name } => {
            let t = spec_delete(c, w, name);
            (t.0, t.1)
        },
    }
}

/// The state after a sequence of operations, first to last.
pub open spec fn apply_ops(c: ConfigModel, w: Seq<WorldModel>, ops: Seq<RegistryOp>) -> (
    ConfigModel,
    Seq<WorldModel>,
)
    decreases ops.len(),
{
    if ops.len() == 0 {
        (c, w)
    } else {
        let t = apply_op(c, w, ops[0]);
        apply_ops(t.0, t.1, ops.drop_first())
    }
}

/// The level names of the collection's entries, in order.
pub open spec fn level_names(w: Seq<WorldModel>) -> Seq<Seq<char>> {
    Seq::new(w.len(), |i: int| w[i].level_name)
}

/// Registry and collection agree entry by entry: the i-th managed name is
/// the i-th entry's level name (invariant I1).
pub open spec fn consistent(c: ConfigModel, w: Seq<WorldModel>) -> bool {
    &&& w.len() == c.managed_worlds.len()
    &&& forall|i: int| 0 <= i < w.len() ==> w[i].level_name == c.managed_worlds[i]
}

/// Filtering two entry-by-entry matching lists by the same name keeps
/// them matching.
pub proof fn lemma_filter_parallel(ms: Seq<Seq<char>>, ws: Seq<WorldModel>, name: Seq<char>)
    requires
        ws.len() == ms.len(),
        forall|i: int| 0 <= i < ws.len() ==> ws[i].level_name == ms[i],
    ensures
        ({
            let fm = ms.filter(keeps_name(name));
            let fw = ws.filter(keeps_world(name));
            &&& fw.len() == fm.len()
            &&& forall|i: int| 0 <= i < fw.len() ==> fw[i].level_name == fm[i]
        }),
    decreases ms.len(),
{
    reveal(Seq::filter);
    if ms.len() > 0 {
        assert(ws.drop_last().len() == ms.drop_last().len());
        assert forall|i: int| 0 <= i < ws.drop_last().len() implies ws.drop_last()[i].level_name
            == ms.drop_last()[i] by {
            assert(ws[i].level_name == ms[i]);
        }
        lemma_filter_parallel(ms.drop_last(), ws.drop_last(), name);
        assert(ws.last().level_name == ms.last());
    }
}

/// One operation preserves consistency and the no-duplicates invariant.
pub proof fn lemma_op_preserves(c: ConfigModel, w: Seq<WorldModel>, op: RegistryOp)
    requires
        consistent(c, w),
        c.wf(),
    ensures
        consistent(apply_op(c, w, op).0, apply_op(c, w, op).1),
        apply_op(c, w, op).0.wf(),
{
    match op {
        RegistryOp::Create { name } => {
            lemma_create_preserves_wf(c, w, name);
            if !c.contains_world(name) {
                let t = spec_create(c, w, name);
                assert forall|i: int| 0 <= i < t.1.len() implies t.1[i].level_name
                    == t.0.managed_worlds[i] by {
                    if i < w.len() {
                        assert(w[i].level_name == c.managed_worlds[i]);
                    }
                }
            }
        },
        RegistryOp::Delete { name } => {
            lemma_delete_preserves_wf(c, w, name);
            if c.contains_world(name) {
                lemma_filter_parallel(c.managed_worlds, w, name);
            }
        },
    }
}

/// Law (registry/world-list consistency): from any consistent state —
/// the empty one included — any sequence of create and delete operations
/// leaves the managed names exactly the level names of the entries this
/// core put in the collection, in order, and the managed list free of
/// duplicates.
pub proof fn lemma_ops_keep_consistency(c: ConfigModel, w: Seq<WorldModel>, ops: Seq<RegistryOp>)
    requires
        consistent(c, w),
        c.wf(),
    ensures
        consistent(apply_ops(c, w, ops).0, apply_ops(c, w, ops).1),
        apply_ops(c, w, ops).0.wf(),
        level_names(apply_ops(c, w, ops).1) == apply_ops(c, w, ops).0.managed_worlds,
    decreases ops.len(),
{
    if ops.len() == 0 {
        assert(level_names(w) =~= c.managed_worlds);
    } else {
        lemma_op_preserves(c, w, ops[0]);
        let t = apply_op(c, w, ops[0]);
        lemma_ops_keep_consistency(t.0, t.1, ops.drop_first());
    }
}

/// Filtering keeps a duplicate-free list duplicate-free.
pub proof fn lemma_filter_distinct(names: Seq<Seq<char>>, pred: spec_fn(Seq<char>) -> bool)
    requires
        distinct_names(names),
    ensures
        distinct_names(names.filter(pred)),
    decreases names.len(),
{
    reveal(Seq::filter);
    if names.len() > 0 {
        assert(distinct_names(names.drop_last()));
        lemma_filter_distinct(names.drop_last(), pred);
        let f = names.drop_last().filter(pred);
        if pred(names.last()) {
            assert forall|i: int, j: int|
                0 <= i < j < f.push(names.last()).len() implies f.push(names.last())[i] != f.push(
                names.last(),
            )[j] by {
                if j == f.len() as int {
                    crate::registry::lemma_filter_sub(names.drop_last(), pred, i);
                    let k = choose|k: int|
                        0 <= k < names.drop_last().len() && names.drop_last()[k] == f[i];
                    assert(names[k] == f[i]);
                    assert(names[k] != names.last());
                } else {
                    assert(f[i] != f[j]);
                }
            }
        }
    }
}

} // verus!
