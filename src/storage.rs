use vstd::prelude::*;

use crate::world::{
    contained, in_world, is_item, is_storage, lemma_drop_keeps_wf, lemma_insert_keeps_wf, no_stray_items,
    stray, world_wf, Entity, EntityView, World, WorldView,
};

verus! {

/// Why a transfer was rejected. A rejected transfer changes nothing.
#[derive(Clone, Copy, PartialEq, Eq, Structural, Debug, Hash)]
pub enum TransferError {
    /// The item entity is not alive or is not an item.
    NotAnItem,
    /// The storage entity is not alive or cannot hold items.
    NotAStorage,
    /// Insert: the item is not standing in the world: a storage already
    /// holds it, or it is in neither state.
    ItemNotInWorld,
    /// Drop: the item's parent is not the given storage.
    ItemNotInStorage,
    /// Drop: the storage has no placement to put the item at.
    StorageNotPlaced,
}

/// Moves an item from the world into a storage.
#[derive(Clone, Copy, PartialEq, Eq, Structural, Debug, Hash)]
pub struct InsertItemCommand {
    pub storage: Entity,
    pub item: Entity,
}

/// Moves an item out of a storage, into the world at the storage's placement.
#[derive(Clone, Copy, PartialEq, Eq, Structural, Debug, Hash)]
pub struct DropItemCommand {
    pub storage: Entity,
    pub item: Entity,
}

/// A deferred transfer, queued until the next point where the world may change.
#[derive(Clone, Copy, PartialEq, Eq, Structural, Debug, Hash)]
pub enum TransferCommand {
    Insert(InsertItemCommand),
    Drop(DropItemCommand),
}

/// Whether an insert is accepted, and if not, why.
pub open spec fn insert_outcome<T, P>(w: WorldView<T, P>, c: InsertItemCommand) -> Result<
    (),
    TransferError,
> {
    if !is_item(w, c.item) {
        Err(TransferError::NotAnItem)
    } else if !is_storage(w, c.storage) {
        Err(TransferError::NotAStorage)
    } else if w[c.item.index as int].placement is None {
        Err(TransferError::ItemNotInWorld)
    } else {
        Ok(())
    }
}

/// An accepted insert: the item loses its placement, gets the storage as its
/// parent, and is appended to the storage's contents.
pub open spec fn after_insert<T, P>(w: WorldView<T, P>, c: InsertItemCommand) -> WorldView<T, P> {
    let it = w[c.item.index as int];
    let st = w[c.storage.index as int];
    w.update(
        c.item.index as int,
        EntityView { placement: None, parent: Some(c.storage), ..it },
    ).update(c.storage.index as int, EntityView { contents: st.contents.push(c.item), ..st })
}

/// Whether a drop is accepted, and if not, why.
pub open spec fn drop_outcome<T, P>(w: WorldView<T, P>, c: DropItemCommand) -> Result<
    (),
    TransferError,
> {
    if !is_item(w, c.item) {
        Err(TransferError::NotAnItem)
    } else if !is_storage(w, c.storage) {
        Err(TransferError::NotAStorage)
    } else if w[c.item.index as int].parent != Some(c.storage) {
        Err(TransferError::ItemNotInStorage)
    } else if w[c.storage.index as int].placement is None {
        Err(TransferError::StorageNotPlaced)
    } else {
        Ok(())
    }
}

/// An accepted drop: the item leaves the storage's contents, loses its parent
/// and takes the storage's current placement as its own.
pub open spec fn after_drop<T, P>(w: WorldView<T, P>, c: DropItemCommand) -> WorldView<T, P> {
    let it = w[c.item.index as int];
    let st = w[c.storage.index as int];
    w.update(
        c.item.index as int,
        EntityView { placement: st.placement, parent: None, ..it },
    ).update(
        c.storage.index as int,
        EntityView { contents: st.contents.remove(st.contents.index_of(c.item)), ..st },
    )
}


/// One command applied to a world: the world after it, and its outcome.
pub open spec fn step<T, P>(w: WorldView<T, P>, cmd: TransferCommand) -> (
    WorldView<T, P>,
    Result<(), TransferError>,
) {
    match cmd {
        TransferCommand::Insert(c) => {
            let r = insert_outcome(w, c);
            (if r is Ok { after_insert(w, c) } else { w }, r)
        },
        TransferCommand::Drop(c) => {
            let r = drop_outcome(w, c);
            (if r is Ok { after_drop(w, c) } else { w }, r)
        },
    }
}

/// The world after applying the commands in the order they were queued.
pub open spec fn run<T, P>(w: WorldView<T, P>, cmds: Seq<TransferCommand>) -> WorldView<T, P>
    decreases cmds.len(),
{
    if cmds.len() == 0 {
        w
    } else {
        run(step(w, cmds[0]).0, cmds.drop_first())
    }
}

/// The outcome of each command, in the order they were queued.
pub open spec fn run_outcomes<T, P>(w: WorldView<T, P>, cmds: Seq<TransferCommand>) -> Seq<
    Result<(), TransferError>,
>
    decreases cmds.len(),
{
    if cmds.len() == 0 {
        Seq::empty()
    } else {
        seq![step(w, cmds[0]).1] + run_outcomes(step(w, cmds[0]).0, cmds.drop_first())
    }
}

impl InsertItemCommand {
    /// Applies the insert to the world: see [`insert_outcome`] and
    /// [`after_insert`].
    pub fn apply<T: Copy, P: Copy>(self, world: &mut World<T, P>) -> (r: Result<
        (),
        TransferError,
    >)
        requires
            old(world).wf(),
        ensures
            (final(world)@, r) == step(old(world)@, TransferCommand::Insert(self)),
            final(world).wf(),
    {
        world.insert_item(self)
    }
}

impl DropItemCommand {
    /// Applies the drop to the world: see [`drop_outcome`] and [`after_drop`].
    pub fn apply<T: Copy, P: Copy>(self, world: &mut World<T, P>) -> (r: Result<
        (),
        TransferError,
    >)
        requires
            old(world).wf(),
        ensures
            (final(world)@, r) == step(old(world)@, TransferCommand::Drop(self)),
            final(world).wf(),
    {
        world.drop_item(self)
    }
}

impl TransferCommand {
    /// Applies the command to the world: see [`step`].
    pub fn apply<T: Copy, P: Copy>(self, world: &mut World<T, P>) -> (r: Result<
        (),
        TransferError,
    >)
        requires
            old(world).wf(),
        ensures
            (final(world)@, r) == step(old(world)@, self),
            final(world).wf(),
    {
        match self {
            TransferCommand::Insert(c) => c.apply(world),
            TransferCommand::Drop(c) => c.apply(world),
        }
    }
}

/// Transfers queued during a tick, applied together at the sync point.
pub struct CommandQueue {
    commands: Vec<TransferCommand>,
}

impl View for CommandQueue {
    type V = Seq<TransferCommand>;

    closed spec fn view(&self) -> Seq<TransferCommand> {
        self.commands@
    }
}

impl CommandQueue {
    pub fn new() -> (r: CommandQueue)
        ensures
            r@ == Seq::<TransferCommand>::empty(),
    {
        CommandQueue { commands: Vec::new() }
    }

    /// Queues a command behind those already queued.
    pub fn queue(&mut self, cmd: TransferCommand)
        ensures
            final(self)@ == old(self)@.push(cmd),
    {
        self.commands.push(cmd);
    }

    pub fn len(&self) -> (r: usize)
        ensures
            r == self@.len(),
    {
        self.commands.len()
    }

    /// Applies every queued command to the world in the order they were
    /// queued, and empties the queue. Returns each command's outcome.
    pub fn sync<T: Copy, P: Copy>(&mut self, world: &mut World<T, P>) -> (r: Vec<
        Result<(), TransferError>,
    >)
        requires
            old(world).wf(),
        ensures
            final(self)@ == Seq::<TransferCommand>::empty(),
            final(world)@ == run(old(world)@, old(self)@),
            r@ == run_outcomes(old(world)@, old(self)@),
            final(world).wf(),
    {
        let ghost w0 = world@;
        let ghost cmds = self@;
        let mut outcomes: Vec<Result<(), TransferError>> = Vec::new();
        let mut i: usize = 0;
        proof {
            assert(cmds.subrange(0, cmds.len() as int) =~= cmds);
            assert(outcomes@ + run_outcomes(w0, cmds) =~= run_outcomes(w0, cmds));
        }
        while i < self.commands.len()
            invariant
                self@ == cmds,
                0 <= i <= cmds.len(),
                world.wf(),
                run(w0, cmds) == run(world@, cmds.subrange(i as int, cmds.len() as int)),
                run_outcomes(w0, cmds) == outcomes@ + run_outcomes(
                    world@,
                    cmds.subrange(i as int, cmds.len() as int),
                ),
            decreases cmds.len() - i,
        {
            let ghost before = world@;
            let ghost rest = cmds.subrange(i as int, cmds.len() as int);
            let cmd = self.commands[i];
            let r = cmd.apply(world);
            proof {
                assert(rest[0] == cmd);
                assert(rest.drop_first() =~= cmds.subrange(i + 1, cmds.len() as int));
                assert(outcomes@.push(r) + run_outcomes(world@, rest.drop_first()) =~= outcomes@
                    + run_outcomes(before, rest));
            }
            outcomes.push(r);
            i = i + 1;
        }
        proof {
            let rest = cmds.subrange(i as int, cmds.len() as int);
            assert(rest.len() == 0);
            assert(outcomes@ + run_outcomes(world@, rest) =~= outcomes@);
        }
        self.commands = Vec::new();
        assert(self@ =~= Seq::<TransferCommand>::empty());
        outcomes
    }
}


/// A storage lists an entity exactly when that entity is an item whose parent
/// link points back at the storage.
pub proof fn lemma_containment_symmetry<T, P>(w: WorldView<T, P>, storage: Entity, item: Entity)
    requires
        world_wf(w),
        is_storage(w, storage),
    ensures
        w[storage.index as int].contents.contains(item) <==> (is_item(w, item)
            && w[item.index as int].parent == Some(storage)),
{
    assert(crate::world::record_wf(w, storage));
    if is_item(w, item) {
        assert(crate::world::record_wf(w, item));
    }
}

/// In a world without stray items, every item is in exactly one of the two
/// states: standing in the world, or contained.
pub proof fn lemma_item_state_exclusive<T, P>(w: WorldView<T, P>, item: Entity)
    requires
        no_stray_items(w),
        is_item(w, item),
    ensures
        in_world(w, item) != contained(w, item),
{
    assert(!stray(w, item));
}

/// One command, accepted or not, keeps the world consistent and creates no
/// stray item.
pub proof fn lemma_step_keeps_item_states<T, P>(w: WorldView<T, P>, cmd: TransferCommand)
    requires
        world_wf(w),
        no_stray_items(w),
    ensures
        world_wf(step(w, cmd).0),
        no_stray_items(step(w, cmd).0),
{
    let n = step(w, cmd).0;
    match cmd {
        TransferCommand::Insert(c) => {
            if insert_outcome(w, c) is Ok {
                lemma_insert_keeps_wf(w, c);
                assert forall|e: Entity| #[trigger] is_item(n, e) implies !stray(n, e) by {
                    assert(is_item(w, e));
                }
            }
        },
        TransferCommand::Drop(c) => {
            if drop_outcome(w, c) is Ok {
                lemma_drop_keeps_wf(w, c);
                assert forall|e: Entity| #[trigger] is_item(n, e) implies !stray(n, e) by {
                    assert(is_item(w, e));
                }
            }
        },
    }
}

/// Applying any queue of commands keeps the world consistent and leaves every
/// item either in the world or contained, never both and never neither.
pub proof fn lemma_sync_keeps_item_states<T, P>(w: WorldView<T, P>, cmds: Seq<TransferCommand>)
    requires
        world_wf(w),
        no_stray_items(w),
    ensures
        world_wf(run(w, cmds)),
        no_stray_items(run(w, cmds)),
        forall|e: Entity| #[trigger]
            is_item(run(w, cmds), e) ==> in_world(run(w, cmds), e) != contained(run(w, cmds), e),
    decreases cmds.len(),
{
    if cmds.len() > 0 {
        lemma_step_keeps_item_states(w, cmds[0]);
        lemma_sync_keeps_item_states(step(w, cmds[0]).0, cmds.drop_first());
    }
    let n = run(w, cmds);
    assert forall|e: Entity| #[trigger] is_item(n, e) implies in_world(n, e) != contained(n, e) by {
        lemma_item_state_exclusive(n, e);
    }
}

/// Inserting an item that is already contained is rejected and changes
/// nothing.
pub proof fn lemma_insert_contained_rejected<T, P>(w: WorldView<T, P>, c: InsertItemCommand)
    requires
        contained(w, c.item),
    ensures
        step(w, TransferCommand::Insert(c)).1 is Err,
        step(w, TransferCommand::Insert(c)).0 == w,
{
}

/// Dropping an item whose parent is not the given storage is rejected and
/// changes nothing.
pub proof fn lemma_drop_foreign_rejected<T, P>(w: WorldView<T, P>, c: DropItemCommand)
    requires
        c.item.index < w.len() ==> w[c.item.index as int].parent != Some(c.storage),
    ensures
        step(w, TransferCommand::Drop(c)).1 is Err,
        step(w, TransferCommand::Drop(c)).0 == w,
{
}

/// An accepted insert leaves the item contained, listed last by the storage.
pub proof fn lemma_insert_contains<T, P>(w: WorldView<T, P>, c: InsertItemCommand)
    requires
        insert_outcome(w, c) is Ok,
    ensures
        contained(after_insert(w, c), c.item),
        after_insert(w, c)[c.item.index as int].parent == Some(c.storage),
        after_insert(w, c)[c.storage.index as int].contents == w[c.storage.index
            as int].contents.push(c.item),
{
}

/// An accepted drop puts the item in the world exactly at the storage's
/// placement at the time of the drop.
pub proof fn lemma_drop_placement<T, P>(w: WorldView<T, P>, c: DropItemCommand)
    requires
        drop_outcome(w, c) is Ok,
    ensures
        in_world(after_drop(w, c), c.item),
        after_drop(w, c)[c.item.index as int].placement == w[c.storage.index as int].placement,
        after_drop(w, c)[c.item.index as int].parent is None,
{
}

/// Inserting an item and dropping it again from the same storage puts the
/// item at the storage's placement, not where it stood before, and leaves the
/// storage's contents as they were.
pub proof fn lemma_insert_then_drop<T, P>(w: WorldView<T, P>, storage: Entity, item: Entity)
    requires
        world_wf(w),
        insert_outcome(w, InsertItemCommand { storage, item }) is Ok,
        w[storage.index as int].placement is Some,
    ensures
        ({
            let w1 = after_insert(w, InsertItemCommand { storage, item });
            let d = DropItemCommand { storage, item };
            &&& drop_outcome(w1, d) is Ok
            &&& after_drop(w1, d)[item.index as int].placement == w[storage.index as int].placement
            &&& after_drop(w1, d)[storage.index as int].contents == w[storage.index as int].contents
        }),
{
    let ins = InsertItemCommand { storage, item };
    let w1 = after_insert(w, ins);
    let d = DropItemCommand { storage, item };
    lemma_insert_keeps_wf(w, ins);
    assert(crate::world::record_wf(w, storage));
    assert(crate::world::record_wf(w, item));
    let old_cs = w[storage.index as int].contents;
    assert(!old_cs.contains(item)) by {
        if old_cs.contains(item) {
            assert(w[item.index as int].parent == Some(storage));
        }
    }
    let cs = w1[storage.index as int].contents;
    assert(cs == old_cs.push(item));
    assert(crate::world::record_wf(w1, storage));
    let k = cs.index_of(item);
    assert(cs[old_cs.len() as int] == item);
    assert(k == old_cs.len());
    assert(cs.remove(k) =~= old_cs);
}

} // verus!
