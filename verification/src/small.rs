//! Short lists that live in place.
//!
//! The runtime keeps many lists that are almost always short: the chords of
//! a key binding, the commands that share a prefix, the components that have
//! the focus. They are held in vectors of the `smallvec` crate, which keep a
//! few items in place and move to the heap only when they grow beyond that.
//!
//! Verus cannot look into such a vector. Each list is therefore a type of
//! its own around one, with a name for the items that it holds and, for each
//! method of the vector that the library calls, a function whose contract
//! says what the method does to those items. These contracts are taken from
//! the source of the crate and are not proved.

use smallvec::SmallVec;
use vstd::prelude::*;
use vstd::slice::slice_subrange;

use crate::component::bindings::CommandId;
use crate::component::template::ComponentId;
use crate::terminal::Key;

verus! {

/// How many items a list may hold when another is pushed. A vector that
/// grows reserves room for the next power of two of its length, and gives
/// up where that room is more than the half of what can be addressed. With
/// items of at most sixteen bytes, as all items of these lists are, the
/// room can be asked for below this limit, and a list of this length is
/// within a factor of two of the longest that a vector can hold at all.
pub const LIST_LIMIT: usize = usize::MAX / 64;

/// A sequence of key chords.
#[verifier::external_body]
#[derive(Debug, PartialEq, Eq, Hash)]
pub struct KeySequence {
    keys: SmallVec<[Key; 8]>,
}

/// The chords that a sequence holds, in their order.
pub uninterp spec fn keys_in(sequence: KeySequence) -> Seq<Key>;

impl View for KeySequence {
    type V = Seq<Key>;

    open spec fn view(&self) -> Seq<Key> {
        keys_in(*self)
    }
}

/// `SmallVec::from_slice`, which copies the items of a slice into a new
/// vector: the vector holds the items of the slice, in their order.
#[verifier::external_body]
fn keys_from_slice(keys: &[Key]) -> (sequence: KeySequence)
    ensures
        keys_in(sequence) == keys@,
{
    KeySequence { keys: SmallVec::from_slice(keys) }
}

/// `SmallVec::as_slice`, which gives the items of the vector as a slice.
#[verifier::external_body]
fn keys_as_slice(sequence: &KeySequence) -> (keys: &[Key])
    ensures
        keys@ == keys_in(*sequence),
{
    sequence.keys.as_slice()
}

/// `SmallVec::push`, which appends an item to the vector. It panics where
/// the room for the grown vector cannot be asked for, which the limit on the
/// length rules out.
#[verifier::external_body]
fn keys_push(sequence: &mut KeySequence, key: Key)
    requires
        keys_in(*old(sequence)).len() < LIST_LIMIT,
    ensures
        keys_in(*final(sequence)) == keys_in(*old(sequence)).push(key),
{
    sequence.keys.push(key)
}

impl KeySequence {
    /// What a sequence holds after `key` was typed: the key after the
    /// others, or the key alone if the sequence was full.
    pub open spec fn typed(keys: Seq<Key>, key: Key) -> Seq<Key> {
        if keys.len() < LIST_LIMIT {
            keys.push(key)
        } else {
            seq![key]
        }
    }

    /// The empty sequence.
    pub fn new() -> (sequence: Self)
        ensures
            sequence@ == Seq::<Key>::empty(),
    {
        let nothing: Vec<Key> = Vec::new();
        keys_from_slice(nothing.as_slice())
    }

    /// The sequence of the given chords.
    pub fn from_slice(keys: &[Key]) -> (sequence: Self)
        ensures
            sequence@ == keys@,
    {
        keys_from_slice(keys)
    }

    /// The sequence of the first `len` of the given chords.
    pub fn from_prefix(keys: &[Key], len: usize) -> (sequence: Self)
        requires
            len <= keys@.len(),
        ensures
            sequence@ == keys@.take(len as int),
    {
        keys_from_slice(slice_subrange(keys, 0, len))
    }

    /// The chords of the sequence.
    pub fn as_slice(&self) -> (keys: &[Key])
        ensures
            keys@ == self@,
    {
        keys_as_slice(self)
    }

    /// How many chords the sequence holds.
    pub fn len(&self) -> (len: usize)
        ensures
            len == self@.len(),
    {
        keys_as_slice(self).len()
    }

    /// Adds a chord after the others. A sequence that is full, which no
    /// chord that was ever bound can be, is emptied first.
    pub fn push(&mut self, key: Key)
        ensures
            final(self)@ == Self::typed(old(self)@, key),
    {
        if self.len() >= LIST_LIMIT {
            self.clear();
        }
        keys_push(self, key);
        assert(Seq::<Key>::empty().push(key) =~= seq![key]);
    }

    /// Empties the sequence.
    pub fn clear(&mut self)
        ensures
            final(self)@ == Seq::<Key>::empty(),
    {
        *self = KeySequence::new();
    }
}

impl Clone for KeySequence {
    fn clone(&self) -> (copy: Self)
        ensures
            copy@ == self@,
    {
        keys_from_slice(keys_as_slice(self))
    }
}

/// A list of commands.
#[verifier::external_body]
#[derive(Debug, PartialEq, Eq)]
pub struct CommandList {
    commands: SmallVec<[CommandId; 4]>,
}

/// The commands that a list holds, in their order.
pub uninterp spec fn commands_in(list: CommandList) -> Seq<CommandId>;

impl View for CommandList {
    type V = Seq<CommandId>;

    open spec fn view(&self) -> Seq<CommandId> {
        commands_in(*self)
    }
}

/// `SmallVec::from_slice`, which copies the items of a slice into a new
/// vector: the vector holds the items of the slice, in their order.
#[verifier::external_body]
fn commands_from_slice(commands: &[CommandId]) -> (list: CommandList)
    ensures
        commands_in(list) == commands@,
{
    CommandList { commands: SmallVec::from_slice(commands) }
}

/// `SmallVec::as_slice`, which gives the items of the vector as a slice.
#[verifier::external_body]
fn commands_as_slice(list: &CommandList) -> (commands: &[CommandId])
    ensures
        commands@ == commands_in(*list),
{
    list.commands.as_slice()
}

impl CommandList {
    /// The list of the given commands.
    pub fn from_slice(commands: &[CommandId]) -> (list: Self)
        ensures
            list@ == commands@,
    {
        commands_from_slice(commands)
    }

    /// The commands of the list.
    pub fn as_slice(&self) -> (commands: &[CommandId])
        ensures
            commands@ == self@,
    {
        commands_as_slice(self)
    }

    /// The list with one more command after the others.
    pub fn with(&self, command: CommandId) -> (list: Self)
        ensures
            list@ == self@.push(command),
    {
        let held = commands_as_slice(self);
        let mut staged: Vec<CommandId> = Vec::new();
        let mut i: usize = 0;
        while i < held.len()
            invariant
                i <= held@.len(),
                staged@ == held@.take(i as int),
            decreases held@.len() - i,
        {
            staged.push(held[i]);
            assert(held@.take(i as int + 1) == held@.take(i as int).push(held@[i as int]));
            i = i + 1;
        }
        assert(held@.take(held@.len() as int) == held@);
        staged.push(command);
        commands_from_slice(staged.as_slice())
    }
}

impl Clone for CommandList {
    fn clone(&self) -> (copy: Self)
        ensures
            copy@ == self@,
    {
        commands_from_slice(commands_as_slice(self))
    }
}

/// A list of the identities of components.
#[verifier::external_body]
#[derive(Debug, PartialEq, Eq)]
pub struct IdList {
    ids: SmallVec<[ComponentId; 2]>,
}

/// The identities that a list holds, in their order.
pub uninterp spec fn ids_in(list: IdList) -> Seq<ComponentId>;

impl View for IdList {
    type V = Seq<ComponentId>;

    open spec fn view(&self) -> Seq<ComponentId> {
        ids_in(*self)
    }
}

/// `SmallVec::from_slice`, which copies the items of a slice into a new
/// vector: the vector holds the items of the slice, in their order.
#[verifier::external_body]
fn ids_from_slice(ids: &[ComponentId]) -> (list: IdList)
    ensures
        ids_in(list) == ids@,
{
    IdList { ids: SmallVec::from_slice(ids) }
}

/// `SmallVec::as_slice`, which gives the items of the vector as a slice.
#[verifier::external_body]
fn ids_as_slice(list: &IdList) -> (ids: &[ComponentId])
    ensures
        ids@ == ids_in(*list),
{
    list.ids.as_slice()
}

/// `SmallVec::push`, which appends an item to the vector. It panics where
/// the room for the grown vector cannot be asked for, which the limit on the
/// length rules out.
#[verifier::external_body]
fn ids_push(list: &mut IdList, id: ComponentId)
    requires
        ids_in(*old(list)).len() < LIST_LIMIT,
    ensures
        ids_in(*final(list)) == ids_in(*old(list)).push(id),
{
    list.ids.push(id)
}

impl IdList {
    /// What a list that holds no identity twice holds after `id` was noted:
    /// the identity after the others, unless the list holds it already or is
    /// full.
    pub open spec fn noted(ids: Seq<ComponentId>, id: ComponentId) -> Seq<ComponentId> {
        if ids.contains(id) || ids.len() >= LIST_LIMIT {
            ids
        } else {
            ids.push(id)
        }
    }

    /// The empty list.
    pub fn new() -> (list: Self)
        ensures
            list@ == Seq::<ComponentId>::empty(),
    {
        let nothing: Vec<ComponentId> = Vec::new();
        ids_from_slice(nothing.as_slice())
    }

    /// The identities of the list.
    pub fn as_slice(&self) -> (ids: &[ComponentId])
        ensures
            ids@ == self@,
    {
        ids_as_slice(self)
    }

    /// How many identities the list holds.
    pub fn len(&self) -> (len: usize)
        ensures
            len == self@.len(),
    {
        ids_as_slice(self).len()
    }

    /// Empties the list.
    pub fn clear(&mut self)
        ensures
            final(self)@ == Seq::<ComponentId>::empty(),
    {
        *self = IdList::new();
    }

    /// Notes an identity in a list that holds none twice.
    pub fn add_once(&mut self, id: ComponentId)
        requires
            old(self)@.no_duplicates(),
        ensures
            final(self)@.no_duplicates(),
            final(self)@ == Self::noted(old(self)@, id),
    {
        let held = ids_as_slice(self);
        let mut k: usize = 0;
        while k < held.len()
            invariant
                k <= held@.len(),
                held@ == old(self)@,
                held@ == self@,
                self@.no_duplicates(),
                forall|j: int| 0 <= j < k ==> held@[j] != id,
            decreases held@.len() - k,
        {
            if held[k] == id {
                assert(old(self)@[k as int] == id);
                return ;
            }
            k = k + 1;
        }
        if k >= LIST_LIMIT {
            return ;
        }
        ids_push(self, id);
        assert forall|i: int, j: int|
            0 <= i < self@.len() && 0 <= j < self@.len() && i != j implies self@[i] != self@[j] by {
            if i < old(self)@.len() && j < old(self)@.len() {
                assert(old(self)@[i] != old(self)@[j]);
            }
        }
    }
}

} // verus!
