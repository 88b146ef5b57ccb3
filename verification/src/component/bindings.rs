//! Key bindings: which chords run which command.
//!
//! A [`Keymap`] binds patterns of key chords to commands. Besides every
//! bound chord it records each strict prefix of it, so that a sequence typed
//! so far is told apart as a bound chord, the beginning of one, or neither.
//! Two bindings of which one begins the other could not be told apart, so
//! the keymap refuses the second of them when it is made.

use vstd::prelude::*;

use crate::component::Component;
use crate::small::{CommandList, KeySequence};
use crate::terminal::Key;
use crate::text::{decimal, push_char, push_decimal};

verus! {

/// A command of a keymap, by the place of its name.
#[derive(Clone, Copy, Debug, PartialEq, Eq, Hash, Structural)]
pub struct CommandId(pub usize);

impl CommandId {
    /// The place of the command's name in its keymap.
    pub open spec fn index(self) -> nat {
        self.0 as nat
    }

    /// The place of the command's name in its keymap.
    pub fn position(&self) -> (index: usize)
        ensures
            index == self.index(),
    {
        self.0
    }
}

/// Stands for any chord of one printable character.
#[derive(Debug, Clone, Copy, PartialEq, Eq, Hash, Structural)]
pub struct AnyCharacter;

/// Stands for any sequence of chords that ends with the given key.
#[derive(Debug, Clone, Copy, PartialEq, Eq, Hash, Structural)]
pub struct EndsWith(pub Key);

/// What a pattern is, with its chords as a sequence.
pub enum Pattern {
    AnyCharacter,
    EndsWith(Key),
    Keys(Seq<Key>),
}

impl Pattern {
    /// The chords that the pattern spells out, where it spells any.
    pub open spec fn chords(self) -> Option<Seq<Key>> {
        match self {
            Pattern::AnyCharacter => None,
            Pattern::EndsWith(key) => Some(seq![key]),
            Pattern::Keys(keys) => Some(keys),
        }
    }

    /// How many strict prefixes the chords of the pattern have.
    pub open spec fn prefixes(self) -> nat {
        match self.chords() {
            Some(keys) => keys.len(),
            None => 0,
        }
    }

    /// The pattern under which the first `len` chords of this one are
    /// recorded.
    pub open spec fn prefix(self, len: int) -> Pattern {
        match self.chords() {
            Some(keys) => Pattern::Keys(keys.take(len)),
            None => Pattern::Keys(Seq::empty()),
        }
    }

    /// Whether `other` is recorded as a strict prefix of this pattern.
    pub open spec fn begins_with(self, other: Pattern) -> bool {
        exists|len: int| 0 <= len < self.prefixes() && other == #[trigger] self.prefix(len)
    }
}

/// A pattern of key chords that a command is bound to.
#[derive(Debug, Clone, PartialEq, Eq, Hash)]
pub enum KeyPattern {
    /// Any chord of one printable character.
    AnyCharacter,
    /// Any sequence that ends with this key.
    EndsWith(Key),
    /// Exactly this sequence of chords.
    Keys(KeySequence),
}

impl View for KeyPattern {
    type V = Pattern;

    open spec fn view(&self) -> Pattern {
        match self {
            KeyPattern::AnyCharacter => Pattern::AnyCharacter,
            KeyPattern::EndsWith(key) => Pattern::EndsWith(*key),
            KeyPattern::Keys(keys) => Pattern::Keys(keys@),
        }
    }
}

impl From<AnyCharacter> for KeyPattern {
    fn from(marker: AnyCharacter) -> (pattern: Self) {
        KeyPattern::AnyCharacter
    }
}

impl vstd::std_specs::convert::FromSpecImpl<AnyCharacter> for KeyPattern {
    open spec fn obeys_from_spec() -> bool {
        true
    }

    open spec fn from_spec(marker: AnyCharacter) -> Self {
        KeyPattern::AnyCharacter
    }
}

impl From<EndsWith> for KeyPattern {
    fn from(ends_with: EndsWith) -> (pattern: Self) {
        KeyPattern::EndsWith(ends_with.0)
    }
}

impl vstd::std_specs::convert::FromSpecImpl<EndsWith> for KeyPattern {
    open spec fn obeys_from_spec() -> bool {
        true
    }

    open spec fn from_spec(ends_with: EndsWith) -> Self {
        KeyPattern::EndsWith(ends_with.0)
    }
}

/// Tells whether `keys` is, chord for chord, the first `len` of `other`.
pub fn keys_match(keys: &[Key], other: &[Key], len: usize) -> (same: bool)
    requires
        len <= other@.len(),
    ensures
        same == (keys@ == other@.take(len as int)),
{
    if keys.len() != len {
        return false;
    }
    let mut i: usize = 0;
    while i < len
        invariant
            i <= len <= other@.len(),
            keys@.len() == len,
            forall|j: int| 0 <= j < i ==> keys@[j] == other@[j],
        decreases len - i,
    {
        if keys[i] != other[i] {
            assert(keys@[i as int] != other@.take(len as int)[i as int]);
            return false;
        }
        i = i + 1;
    }
    assert(keys@ =~= other@.take(len as int));
    true
}

impl KeyPattern {
    /// The pattern that stands for exactly this sequence of chords.
    pub fn keys(keys: &[Key]) -> (pattern: Self)
        ensures
            pattern@ == Pattern::Keys(keys@),
    {
        KeyPattern::Keys(KeySequence::from_slice(keys))
    }

    /// The pattern that stands for any chord of one printable character.
    pub fn any_character(_marker: AnyCharacter) -> (pattern: Self)
        ensures
            pattern@ == Pattern::AnyCharacter,
    {
        KeyPattern::AnyCharacter
    }

    /// The pattern that stands for any sequence ending with a key.
    pub fn ends_with(ends_with: EndsWith) -> (pattern: Self)
        ensures
            pattern@ == Pattern::EndsWith(ends_with.0),
    {
        KeyPattern::EndsWith(ends_with.0)
    }

    /// A copy of the pattern.
    pub fn duplicate(&self) -> (copy: Self)
        ensures
            copy@ == self@,
    {
        match self {
            KeyPattern::AnyCharacter => KeyPattern::AnyCharacter,
            KeyPattern::EndsWith(key) => KeyPattern::EndsWith(*key),
            KeyPattern::Keys(keys) => KeyPattern::Keys(keys.clone()),
        }
    }

    /// Tells whether two patterns are the same.
    pub fn same_as(&self, other: &KeyPattern) -> (same: bool)
        ensures
            same == (self@ == other@),
    {
        match (self, other) {
            (KeyPattern::AnyCharacter, KeyPattern::AnyCharacter) => true,
            (KeyPattern::EndsWith(a), KeyPattern::EndsWith(b)) => *a == *b,
            (KeyPattern::Keys(a), KeyPattern::Keys(b)) => {
                let same = keys_match(a.as_slice(), b.as_slice(), b.len());
                assert(b@.take(b@.len() as int) == b@);
                same
            },
            _ => false,
        }
    }

    /// How many strict prefixes the chords of the pattern have.
    pub fn prefix_count(&self) -> (count: usize)
        ensures
            count == self@.prefixes(),
    {
        match self {
            KeyPattern::AnyCharacter => 0,
            KeyPattern::EndsWith(_) => {
                assert(seq![Key::Null].len() == 1);
                1
            },
            KeyPattern::Keys(keys) => keys.len(),
        }
    }

    /// The pattern under which the first `len` chords of this one are
    /// recorded.
    pub fn prefix_pattern(&self, len: usize) -> (prefix: KeyPattern)
        requires
            len < self@.prefixes(),
        ensures
            prefix@ == self@.prefix(len as int),
    {
        match self {
            KeyPattern::AnyCharacter => KeyPattern::Keys(KeySequence::new()),
            KeyPattern::EndsWith(key) => {
                assert(seq![*key].take(0) =~= Seq::<Key>::empty());
                KeyPattern::Keys(KeySequence::new())
            },
            KeyPattern::Keys(keys) => KeyPattern::Keys(
                KeySequence::from_prefix(keys.as_slice(), len),
            ),
        }
    }
}

/// What a keymap knows of a sequence of chords, with its commands as a
/// sequence.
pub enum Query {
    Match(CommandId),
    PrefixOf(Seq<CommandId>),
}

impl Query {
    /// The command that holds the pattern: the one it is bound to, or the
    /// first of those it is a prefix of.
    pub open spec fn holder(self) -> CommandId {
        match self {
            Query::Match(command) => command,
            Query::PrefixOf(commands) => commands[0],
        }
    }

    /// Whether the query is of `command` alone: the pattern is bound to it,
    /// or is a prefix of chords of no other command.
    pub open spec fn owned_by(self, command: CommandId) -> bool {
        match self {
            Query::Match(bound) => bound == command,
            Query::PrefixOf(commands) => forall|k: int|
                0 <= k < commands.len() ==> #[trigger] commands[k] == command,
        }
    }

    /// Whether `command` is the command that the pattern is bound to, or
    /// one of those that it is a prefix of.
    pub open spec fn names_command(self, command: CommandId) -> bool {
        match self {
            Query::Match(bound) => bound == command,
            Query::PrefixOf(commands) => commands.contains(command),
        }
    }

    /// Whether every command of the query is one of the first `count`.
    pub open spec fn within(self, count: nat) -> bool {
        match self {
            Query::Match(command) => command.index() < count,
            Query::PrefixOf(commands) => commands.len() > 0 && forall|k: int|
                0 <= k < commands.len() ==> (#[trigger] commands[k]).index() < count,
        }
    }
}

/// What a keymap knows of a sequence of chords.
#[derive(Clone, Debug, PartialEq, Eq)]
pub enum BindingQuery {
    /// The sequence is bound to this command.
    Match(CommandId),
    /// The sequence is a strict prefix of chords bound to these commands.
    PrefixOf(CommandList),
}

impl View for BindingQuery {
    type V = Query;

    open spec fn view(&self) -> Query {
        match self {
            BindingQuery::Match(command) => Query::Match(*command),
            BindingQuery::PrefixOf(commands) => Query::PrefixOf(commands@),
        }
    }
}

impl BindingQuery {
    /// The command that the sequence is bound to, if it is bound.
    pub fn matches(&self) -> (command: Option<CommandId>)
        ensures
            command == match self@ {
                Query::Match(id) => Some(id),
                Query::PrefixOf(_) => None,
            },
    {
        match self {
            BindingQuery::Match(command_id) => Some(*command_id),
            _ => None,
        }
    }

    /// The commands that the sequence begins a chord of, if it begins any.
    pub fn prefix_of(&self) -> (commands: Option<&[CommandId]>)
        ensures
            match self@ {
                Query::Match(_) => commands is None,
                Query::PrefixOf(ids) => commands is Some && commands->Some_0@ == ids,
            },
    {
        match self {
            BindingQuery::PrefixOf(commands) => Some(commands.as_slice()),
            _ => None,
        }
    }

    /// A copy of the query.
    pub fn duplicate(&self) -> (copy: Self)
        ensures
            copy@ == self@,
    {
        match self {
            BindingQuery::Match(command) => BindingQuery::Match(*command),
            BindingQuery::PrefixOf(commands) => BindingQuery::PrefixOf(commands.clone()),
        }
    }

    /// The query of a prefix that begins one more chord, that of `command`.
    fn joined_by(&self, command: CommandId) -> (joined: Self)
        requires
            self@ is PrefixOf,
        ensures
            joined@ == Query::PrefixOf(self@->PrefixOf_0.push(command)),
    {
        match self {
            BindingQuery::PrefixOf(commands) => BindingQuery::PrefixOf(commands.with(command)),
            BindingQuery::Match(other) => BindingQuery::Match(*other),
        }
    }
}

/// Why a binding was refused: it cannot be told apart from one that the
/// keymap already holds.
#[derive(Clone, Debug, PartialEq, Eq)]
pub struct BindingConflict {
    /// The command that was to be bound.
    pub command: CommandId,
    /// The pattern that it was to be bound to.
    pub pattern: KeyPattern,
    /// The command that holds the pattern in the way.
    pub existing_command: CommandId,
    /// The pattern in the way: a strict prefix of the new one that is bound
    /// to a command, or the new one itself.
    pub existing_pattern: KeyPattern,
}

/// Whether the strict prefix of `pattern` of the length `len` is itself
/// bound to a command.
pub open spec fn prefix_conflict(m: Map<Pattern, Query>, pattern: Pattern, len: int) -> bool {
    &&& 0 <= len < pattern.prefixes()
    &&& m.contains_key(pattern.prefix(len))
    &&& m[pattern.prefix(len)] is Match
}

/// Whether `pattern` overlaps with what the keymap holds: a strict prefix of
/// it is bound to a command, or the keymap holds the pattern already, bound
/// or as a prefix. Binding it is refused where the overlap is with another
/// command, see [`refused`].
pub open spec fn conflicts(m: Map<Pattern, Query>, pattern: Pattern) -> bool {
    m.contains_key(pattern) || exists|len: int| prefix_conflict(m, pattern, len)
}

/// Whether binding `pattern` to `command` is refused by its strict prefix of
/// the length `len`: the prefix is bound to another command.
pub open spec fn prefix_refusal(
    m: Map<Pattern, Query>,
    command: CommandId,
    pattern: Pattern,
    len: int,
) -> bool {
    prefix_conflict(m, pattern, len) && m[pattern.prefix(len)] != Query::Match(command)
}

/// Whether binding `pattern` to `command` is refused: a strict prefix of it
/// is bound to another command, or the keymap holds the pattern itself for
/// another command, bound or as a prefix. What overlaps with chords of the
/// same command only is not refused.
pub open spec fn refused(m: Map<Pattern, Query>, command: CommandId, pattern: Pattern) -> bool {
    ||| exists|len: int| prefix_refusal(m, command, pattern, len)
    ||| m.contains_key(pattern) && !m[pattern].owned_by(command)
}

/// Whether `existing_command`, with what the keymap holds for
/// `existing_pattern`, is a reason to refuse binding `pattern` to `command`:
/// it is another command, and the keymap holds the pattern itself for it, or
/// a strict prefix of the pattern as bound to it.
pub open spec fn refuses(
    m: Map<Pattern, Query>,
    command: CommandId,
    pattern: Pattern,
    existing_pattern: Pattern,
    existing_command: CommandId,
) -> bool {
    &&& existing_command != command
    &&& m.contains_key(existing_pattern)
    &&& m[existing_pattern].names_command(existing_command)
    &&& existing_pattern == pattern || exists|len: int|
        prefix_refusal(m, command, pattern, len) && existing_pattern == pattern.prefix(len)
}

/// The keymap once `pattern` is bound to `command`, where that is not
/// refused. Where nothing overlaps with the pattern, its strict prefixes
/// are recorded and the pattern is bound, see [`with_binding`]. Where the
/// pattern overlaps with chords of the same command, the pattern is held as
/// bound to the command and nothing else changes: the command is reached
/// either way.
pub open spec fn bound_to(m: Map<Pattern, Query>, command: CommandId, pattern: Pattern) -> Map<
    Pattern,
    Query,
> {
    if conflicts(m, pattern) {
        m.insert(pattern, Query::Match(command))
    } else {
        with_binding(m, command, pattern)
    }
}

/// The command that goes by `name`, or the next command to be added if none
/// does.
pub open spec fn named_command(names: Seq<Seq<char>>, name: Seq<char>) -> CommandId {
    if names.contains(name) {
        CommandId(names.index_of(name) as usize)
    } else {
        CommandId(names.len() as usize)
    }
}

/// What the keymap holds for `p` once the first `upto` strict prefixes of
/// `pattern` are recorded for `command`.
pub open spec fn recorded(
    m: Map<Pattern, Query>,
    command: CommandId,
    pattern: Pattern,
    upto: int,
    p: Pattern,
) -> Query {
    if exists|len: int| 0 <= len < upto && p == #[trigger] pattern.prefix(len) {
        if m.contains_key(p) && m[p] is PrefixOf {
            Query::PrefixOf(m[p]->PrefixOf_0.push(command))
        } else {
            Query::PrefixOf(seq![command])
        }
    } else {
        m[p]
    }
}

/// The keymap once the first `upto` strict prefixes of `pattern` are
/// recorded for `command`.
pub open spec fn with_prefixes(
    m: Map<Pattern, Query>,
    command: CommandId,
    pattern: Pattern,
    upto: int,
) -> Map<Pattern, Query> {
    Map::new(
        |p: Pattern|
            m.contains_key(p) || exists|len: int|
                0 <= len < upto && p == #[trigger] pattern.prefix(len),
        |p: Pattern| recorded(m, command, pattern, upto, p),
    )
}

/// The keymap once `pattern` is bound to `command`: every strict prefix of
/// the pattern is recorded as a prefix of the command, after those it had,
/// and the pattern itself as bound to it.
pub open spec fn with_binding(m: Map<Pattern, Query>, command: CommandId, pattern: Pattern)
    -> Map<Pattern, Query> {
    with_prefixes(m, command, pattern, pattern.prefixes() as int).insert(
        pattern,
        Query::Match(command),
    )
}

/// One pattern of a keymap with what is known of it.
#[derive(Debug)]
struct Binding {
    pattern: KeyPattern,
    query: BindingQuery,
}

/// The names of commands as sequences of characters.
spec fn names_of(names: Seq<String>) -> Seq<Seq<char>> {
    Seq::new(names.len(), |i: int| names[i]@)
}

/// Whether one of `entries` is for the pattern `p`.
spec fn holds_in(entries: Seq<Binding>, p: Pattern) -> bool {
    exists|i: int| 0 <= i < entries.len() && (#[trigger] entries[i]).pattern@ == p
}

spec fn slot_in(entries: Seq<Binding>, p: Pattern) -> int {
    choose|i: int| 0 <= i < entries.len() && (#[trigger] entries[i]).pattern@ == p
}

/// What `entries` hold, as a map from patterns.
spec fn bindings_of(entries: Seq<Binding>) -> Map<Pattern, Query> {
    Map::new(|p: Pattern| holds_in(entries, p), |p: Pattern| entries[slot_in(entries, p)].query@)
}

/// Whether names and entries make up a keymap: no name and no pattern occurs
/// twice, and every command that a pattern leads to has a name.
spec fn valid(names: Seq<String>, entries: Seq<Binding>) -> bool {
    &&& forall|i: int, j: int| 0 <= i < j < names.len() ==> names[i]@ != names[j]@
    &&& forall|i: int, j: int|
        0 <= i < j < entries.len() ==> (#[trigger] entries[i]).pattern@ != (
        #[trigger] entries[j]).pattern@
    &&& forall|i: int|
        0 <= i < entries.len() ==> (#[trigger] entries[i]).query@.within(names.len())
}

proof fn lemma_entry(names: Seq<String>, entries: Seq<Binding>, i: int)
    requires
        valid(names, entries),
        0 <= i < entries.len(),
    ensures
        bindings_of(entries).contains_key(entries[i].pattern@),
        bindings_of(entries)[entries[i].pattern@] == entries[i].query@,
        slot_in(entries, entries[i].pattern@) == i,
        entries[i].query@.within(names.len()),
{
    let p = entries[i].pattern@;
    assert(holds_in(entries, p));
    let j = slot_in(entries, p);
    if j < i {
        assert(entries[j].pattern@ != entries[i].pattern@);
    } else if i < j {
        assert(entries[i].pattern@ != entries[j].pattern@);
    }
}

proof fn lemma_after_push(names: Seq<String>, entries: Seq<Binding>, binding: Binding)
    requires
        valid(names, entries),
        !bindings_of(entries).contains_key(binding.pattern@),
        binding.query@.within(names.len()),
    ensures
        valid(names, entries.push(binding)),
        bindings_of(entries.push(binding)) == bindings_of(entries).insert(
            binding.pattern@,
            binding.query@,
        ),
{
    let grown = entries.push(binding);
    let last = entries.len() as int;
    assert forall|i: int| 0 <= i < last implies (#[trigger] entries[i]).pattern@
        != binding.pattern@ by {
        lemma_entry(names, entries, i);
    }
    assert forall|i: int| 0 <= i < grown.len() implies (#[trigger] grown[i]).query@.within(
        names.len(),
    ) by {
        if i < last {
            assert(entries[i].query@.within(names.len()));
        }
    }
    assert forall|i: int, j: int| 0 <= i < j < grown.len() implies (#[trigger] grown[i]).pattern@
        != (#[trigger] grown[j]).pattern@ by {
        if j < last {
            assert(entries[i].pattern@ != entries[j].pattern@);
        } else {
            assert(entries[i].pattern@ != binding.pattern@);
        }
    }
    assert(valid(names, grown));
    let expected = bindings_of(entries).insert(binding.pattern@, binding.query@);
    assert forall|p: Pattern| #[trigger] bindings_of(grown).contains_key(p)
        == expected.contains_key(p) by {
        if holds_in(grown, p) {
            let i = slot_in(grown, p);
            if i < last {
                assert(entries[i].pattern@ == p);
                assert(holds_in(entries, p));
            }
        }
        if holds_in(entries, p) {
            let i = slot_in(entries, p);
            assert(grown[i].pattern@ == p);
        }
        if p == binding.pattern@ {
            assert(grown[last].pattern@ == p);
        }
    }
    assert forall|p: Pattern| #[trigger] bindings_of(grown).contains_key(p) implies bindings_of(
        grown,
    )[p] == expected[p] by {
        let i = slot_in(grown, p);
        lemma_entry(names, grown, i);
        if i < last {
            lemma_entry(names, entries, i);
        }
    }
    assert(bindings_of(grown) =~= expected);
}

proof fn lemma_after_set(names: Seq<String>, entries: Seq<Binding>, i: int, binding: Binding)
    requires
        valid(names, entries),
        0 <= i < entries.len(),
        binding.pattern@ == entries[i].pattern@,
        binding.query@.within(names.len()),
    ensures
        valid(names, entries.update(i, binding)),
        bindings_of(entries.update(i, binding)) == bindings_of(entries).insert(
            binding.pattern@,
            binding.query@,
        ),
{
    let changed = entries.update(i, binding);
    assert forall|a: int, b: int| 0 <= a < b < changed.len() implies (
    #[trigger] changed[a]).pattern@ != (#[trigger] changed[b]).pattern@ by {
        assert(entries[a].pattern@ != entries[b].pattern@);
    }
    assert forall|k: int| 0 <= k < changed.len() implies (#[trigger] changed[k]).query@.within(
        names.len(),
    ) by {
        if k != i {
            assert(entries[k].query@.within(names.len()));
        }
    }
    assert(valid(names, changed));
    let expected = bindings_of(entries).insert(binding.pattern@, binding.query@);
    assert forall|p: Pattern| #[trigger] bindings_of(changed).contains_key(p)
        == expected.contains_key(p) by {
        if holds_in(changed, p) {
            let k = slot_in(changed, p);
            assert(entries[k].pattern@ == p);
            assert(holds_in(entries, p));
        }
        if holds_in(entries, p) {
            let k = slot_in(entries, p);
            assert(changed[k].pattern@ == p);
        }
        if p == binding.pattern@ {
            assert(changed[i].pattern@ == p);
        }
    }
    assert forall|p: Pattern| #[trigger] bindings_of(changed).contains_key(p) implies bindings_of(
        changed,
    )[p] == expected[p] by {
        let k = slot_in(changed, p);
        lemma_entry(names, changed, k);
        lemma_entry(names, entries, k);
    }
    assert(bindings_of(changed) =~= expected);
}

proof fn lemma_name_added(names: Seq<String>, entries: Seq<Binding>, name: String)
    requires
        valid(names, entries),
        !names_of(names).contains(name@),
    ensures
        valid(names.push(name), entries),
        names_of(names.push(name)) == names_of(names).push(name@),
{
    let grown = names.push(name);
    assert forall|i: int, j: int| 0 <= i < j < grown.len() implies grown[i]@ != grown[j]@ by {
        if j == names.len() {
            assert(names_of(names)[i] == names[i]@);
        }
    }
    assert forall|i: int| 0 <= i < entries.len() implies (#[trigger] entries[i]).query@.within(
        grown.len(),
    ) by {
        assert(entries[i].query@.within(names.len()));
    }
    assert(names_of(grown) =~= names_of(names).push(name@));
}

/// A command among `commands` that is another than `command`, if there is
/// one.
fn other_than(commands: &[CommandId], command: CommandId) -> (found: Option<CommandId>)
    ensures
        match found {
            Some(other) => other != command && commands@.contains(other),
            None => forall|j: int| 0 <= j < commands@.len() ==> commands@[j] == command,
        },
{
    let mut k: usize = 0;
    while k < commands.len()
        invariant
            k <= commands@.len(),
            forall|j: int| 0 <= j < k ==> commands@[j] == command,
        decreases commands@.len() - k,
    {
        if commands[k].position() != command.position() {
            assert(commands@.contains(commands@[k as int]));
            return Some(commands[k]);
        }
        k = k + 1;
    }
    None
}

/// Where `entries` hold `pattern`, if they do.
fn find(entries: &Vec<Binding>, pattern: &KeyPattern) -> (found: Option<usize>)
    ensures
        match found {
            Some(i) => i < entries@.len() && entries@[i as int].pattern@ == pattern@,
            None => !bindings_of(entries@).contains_key(pattern@),
        },
{
    let mut i: usize = 0;
    while i < entries.len()
        invariant
            i <= entries@.len(),
            forall|j: int| 0 <= j < i ==> (#[trigger] entries@[j]).pattern@ != pattern@,
        decreases entries@.len() - i,
    {
        if entries[i].pattern.same_as(pattern) {
            return Some(i);
        }
        i = i + 1;
    }
    None
}

/// Where `entries` hold exactly the sequence `keys`, if they do.
fn find_keys(entries: &Vec<Binding>, keys: &[Key]) -> (found: Option<usize>)
    ensures
        match found {
            Some(i) => i < entries@.len() && entries@[i as int].pattern@ == Pattern::Keys(keys@),
            None => !bindings_of(entries@).contains_key(Pattern::Keys(keys@)),
        },
{
    assert(keys@.take(keys@.len() as int) == keys@);
    let mut i: usize = 0;
    while i < entries.len()
        invariant
            i <= entries@.len(),
            keys@.take(keys@.len() as int) == keys@,
            forall|j: int| 0 <= j < i ==> (#[trigger] entries@[j]).pattern@ != Pattern::Keys(keys@),
        decreases entries@.len() - i,
    {
        match &entries[i].pattern {
            KeyPattern::Keys(bound) => {
                if keys_match(bound.as_slice(), keys, keys.len()) {
                    return Some(i);
                }
            },
            _ => {},
        }
        i = i + 1;
    }
    None
}

/// Whether `(existing_pattern, existing_command)` is what stands first in
/// the way of binding `pattern`: the shortest strict prefix of it that is
/// bound to a command, with that command; or, where no prefix is bound, the
/// pattern itself, with the command that holds it.
pub open spec fn stands_in_the_way(
    m: Map<Pattern, Query>,
    pattern: Pattern,
    existing_pattern: Pattern,
    existing_command: CommandId,
) -> bool {
    ||| exists|len: int|
        {
            &&& prefix_conflict(m, pattern, len)
            &&& forall|l: int| 0 <= l < len ==> !prefix_conflict(m, pattern, l)
            &&& existing_pattern == pattern.prefix(len)
            &&& existing_command == m[pattern.prefix(len)].holder()
        }
    ||| {
        &&& forall|l: int| !prefix_conflict(m, pattern, l)
        &&& m.contains_key(pattern)
        &&& existing_pattern == pattern
        &&& existing_command == m[pattern].holder()
    }
}

/// Two strict prefixes of a pattern are recorded under different patterns,
/// and none under the pattern itself.
pub proof fn lemma_prefixes_differ(pattern: Pattern, a: int, b: int)
    requires
        0 <= a < pattern.prefixes(),
        0 <= b < pattern.prefixes(),
    ensures
        pattern.prefix(a) != pattern,
        a != b ==> pattern.prefix(a) != pattern.prefix(b),
{
    let keys = pattern.chords()->Some_0;
    assert(keys.take(a).len() == a);
    assert(keys.take(b).len() == b);
}

/// Recording one more prefix changes the keymap at that prefix alone.
proof fn lemma_with_prefixes_step(
    m: Map<Pattern, Query>,
    command: CommandId,
    pattern: Pattern,
    upto: int,
)
    requires
        0 <= upto < pattern.prefixes(),
    ensures
        with_prefixes(m, command, pattern, upto + 1) == with_prefixes(
            m,
            command,
            pattern,
            upto,
        ).insert(
            pattern.prefix(upto),
            if m.contains_key(pattern.prefix(upto)) && m[pattern.prefix(upto)] is PrefixOf {
                Query::PrefixOf(m[pattern.prefix(upto)]->PrefixOf_0.push(command))
            } else {
                Query::PrefixOf(seq![command])
            },
        ),
        with_prefixes(m, command, pattern, upto).contains_key(pattern.prefix(upto))
            == m.contains_key(pattern.prefix(upto)),
        m.contains_key(pattern.prefix(upto)) ==> with_prefixes(m, command, pattern, upto)[
            pattern.prefix(upto)
        ] == m[pattern.prefix(upto)],
        !with_prefixes(m, command, pattern, upto).contains_key(pattern) ==> !with_prefixes(
            m,
            command,
            pattern,
            upto + 1,
        ).contains_key(pattern),
{
    let here = pattern.prefix(upto);
    let small = with_prefixes(m, command, pattern, upto);
    let large = with_prefixes(m, command, pattern, upto + 1);
    let value = if m.contains_key(here) && m[here] is PrefixOf {
        Query::PrefixOf(m[here]->PrefixOf_0.push(command))
    } else {
        Query::PrefixOf(seq![command])
    };
    assert forall|len: int| 0 <= len < upto implies here != #[trigger] pattern.prefix(len) by {
        lemma_prefixes_differ(pattern, upto, len);
    }
    lemma_prefixes_differ(pattern, upto, upto);
    assert forall|p: Pattern| #[trigger] large.contains_key(p) == small.insert(
        here,
        value,
    ).contains_key(p) by {
        if p == here {
            assert(p == pattern.prefix(upto));
        }
    }
    assert forall|p: Pattern| #[trigger] large.contains_key(p) implies large[p] == small.insert(
        here,
        value,
    )[p] by {
        if p == here {
            assert(p == pattern.prefix(upto));
        } else {
            if exists|len: int| 0 <= len < upto + 1 && p == #[trigger] pattern.prefix(len) {
                let len = choose|len: int| 0 <= len < upto + 1 && p == #[trigger] pattern.prefix(len);
                assert(len < upto);
            }
        }
    }
    assert(large =~= small.insert(here, value));
}

/// What a keymap holding `m` makes of a sequence of chords: what it holds
/// for exactly that sequence; failing that, for any one printable character,
/// if the sequence is one; failing that, for any sequence ending with the
/// last chord of this one.
pub open spec fn resolve(m: Map<Pattern, Query>, keys: Seq<Key>) -> Option<Query> {
    if m.contains_key(Pattern::Keys(keys)) {
        Some(m[Pattern::Keys(keys)])
    } else if keys.len() == 1 && keys[0].is_character() && m.contains_key(Pattern::AnyCharacter) {
        Some(m[Pattern::AnyCharacter])
    } else if keys.len() >= 1 && m.contains_key(Pattern::EndsWith(keys.last())) {
        Some(m[Pattern::EndsWith(keys.last())])
    } else {
        None
    }
}

/// The commands of a component and the chords that run them.
#[derive(Debug)]
pub struct Keymap {
    names: Vec<String>,
    entries: Vec<Binding>,
}

impl Default for Keymap {
    fn default() -> (keymap: Self)
        ensures
            keymap.names() == Seq::<Seq<char>>::empty(),
            keymap.bindings() == Map::<Pattern, Query>::empty(),
    {
        Keymap::new()
    }
}

impl Keymap {
    /// No name and no pattern occurs twice, and every command that a pattern
    /// leads to has a name.
    #[verifier::type_invariant]
    spec fn wf(self) -> bool {
        valid(self.names@, self.entries@)
    }

    /// The names of the commands, each at the place that its `CommandId`
    /// gives.
    pub closed spec fn names(self) -> Seq<Seq<char>> {
        names_of(self.names@)
    }

    /// What the keymap holds: for each bound pattern its command, for each
    /// strict prefix of one the commands that it begins a chord of.
    pub closed spec fn bindings(self) -> Map<Pattern, Query> {
        bindings_of(self.entries@)
    }

    /// A keymap without commands.
    pub fn new() -> (keymap: Self)
        ensures
            keymap.names() == Seq::<Seq<char>>::empty(),
            keymap.bindings() == Map::<Pattern, Query>::empty(),
    {
        let keymap = Keymap { names: Vec::new(), entries: Vec::new() };
        assert(keymap.names() =~= Seq::<Seq<char>>::empty());
        assert(keymap.bindings() =~= Map::<Pattern, Query>::empty());
        keymap
    }

    /// The name of a command.
    pub fn name(&self, command_id: &CommandId) -> (name: &str)
        requires
            command_id.index() < self.names().len(),
        ensures
            name@ == self.names()[command_id.index() as int],
    {
        self.names[command_id.0].as_str()
    }

    /// How many commands the keymap has.
    pub fn command_count(&self) -> (count: usize)
        ensures
            count == self.names().len(),
    {
        self.names.len()
    }

    /// Tells whether nothing is bound.
    pub fn is_empty(&self) -> (empty: bool)
        ensures
            empty == (self.bindings() == Map::<Pattern, Query>::empty()),
    {
        let empty = self.entries.len() == 0;
        proof {
            if empty {
                assert(self.bindings() =~= Map::<Pattern, Query>::empty());
            } else {
                assert(holds_in(self.entries@, self.entries@[0].pattern@));
                assert(self.bindings().contains_key(self.entries@[0].pattern@));
            }
        }
        empty
    }

    /// The command that goes by `name`, if there is one.
    pub fn command(&self, name: &str) -> (found: Option<CommandId>)
        ensures
            match found {
                Some(id) => id.index() < self.names().len() && self.names()[id.index() as int]
                    == name@,
                None => !self.names().contains(name@),
            },
    {
        let owned = String::from_str(name);
        let mut i: usize = 0;
        while i < self.names.len()
            invariant
                i <= self.names@.len(),
                owned@ == name@,
                forall|j: int| 0 <= j < i ==> self.names@[j]@ != name@,
            decreases self.names@.len() - i,
        {
            if self.names[i] == owned {
                return Some(CommandId(i));
            }
            i = i + 1;
        }
        assert forall|j: int| 0 <= j < self.names().len() implies self.names()[j] != name@ by {
            assert(self.names()[j] == self.names@[j]@);
        }
        None
    }

    /// The command that goes by `name`, or the one that is added next if
    /// none does.
    pub fn named(&self, name: &str) -> (id: CommandId)
        ensures
            id == named_command(self.names(), name@),
            id.index() <= self.names().len(),
            id.index() < self.names().len() <==> self.names().contains(name@),
            self.names().contains(name@) ==> self.names()[id.index() as int] == name@,
    {
        proof {
            use_type_invariant(self);
        }
        let candidate = match self.command(name) {
            Some(id) => id,
            None => CommandId(self.names.len()),
        };
        proof {
            let names = self.names();
            if names.contains(name@) {
                let at = names.index_of(name@);
                assert(names[at] == name@);
                assert(names[candidate.index() as int] == name@);
                if at < candidate.index() {
                    assert(self.names@[at]@ != self.names@[candidate.index() as int]@);
                } else if candidate.index() < at {
                    assert(self.names@[candidate.index() as int]@ != self.names@[at]@);
                }
            }
        }
        candidate
    }

    /// Gives the command that goes by `name`, after adding it if the keymap
    /// has none by that name, and tells whether it was added.
    pub fn add_command(&mut self, name: &str) -> (added: (CommandId, bool))
        ensures
            final(self).bindings() == old(self).bindings(),
            added.0 == named_command(old(self).names(), name@),
            added.1 == !old(self).names().contains(name@),
            added.1 ==> final(self).names() == old(self).names().push(name@) && added.0.index()
                == old(self).names().len(),
            !added.1 ==> final(self).names() == old(self).names() && added.0.index() < old(
                self,
            ).names().len() && old(self).names()[added.0.index() as int] == name@,
    {
        proof {
            use_type_invariant(&*self);
        }
        let named = self.named(name);
        match self.command(name) {
            Some(id) => {
                proof {
                    if id.index() < named.index() {
                        assert(self.names@[id.index() as int]@ != self.names@[named.index() as int]@);
                    } else if named.index() < id.index() {
                        assert(self.names@[named.index() as int]@ != self.names@[id.index() as int]@);
                    }
                }
                (id, false)
            },
            None => {
                let mut taken = Keymap::new();
                std::mem::swap(self, &mut taken);
                let Keymap { mut names, entries } = taken;
                let id = CommandId(names.len());
                let owned = String::from_str(name);
                proof {
                    lemma_name_added(names@, entries@, owned);
                }
                names.push(owned);
                *self = Keymap { names, entries };
                (id, true)
            },
        }
    }

    /// What the pattern overlaps with, if it overlaps with anything that the
    /// keymap holds, whatever the command.
    pub fn conflict(&self, command_id: CommandId, pattern: &KeyPattern) -> (found: Option<
        BindingConflict,
    >)
        ensures
            found is Some == conflicts(self.bindings(), pattern@),
            found matches Some(conflict) ==> {
                &&& conflict.command == command_id
                &&& conflict.pattern@ == pattern@
                &&& stands_in_the_way(
                    self.bindings(),
                    pattern@,
                    conflict.existing_pattern@,
                    conflict.existing_command,
                )
            },
    {
        proof {
            use_type_invariant(self);
        }
        let count = pattern.prefix_count();
        let mut len: usize = 0;
        while len < count
            invariant
                valid(self.names@, self.entries@),
                count == pattern@.prefixes(),
                len <= count,
                forall|l: int| 0 <= l < len ==> !prefix_conflict(self.bindings(), pattern@, l),
            decreases count - len,
        {
            let prefix = pattern.prefix_pattern(len);
            match find(&self.entries, &prefix) {
                Some(i) => {
                    proof {
                        lemma_entry(self.names@, self.entries@, i as int);
                    }
                    match &self.entries[i].query {
                        BindingQuery::Match(other) => {
                            assert(prefix_conflict(self.bindings(), pattern@, len as int));
                            return Some(
                                BindingConflict {
                                    command: command_id,
                                    pattern: pattern.duplicate(),
                                    existing_command: *other,
                                    existing_pattern: prefix,
                                },
                            );
                        },
                        BindingQuery::PrefixOf(_) => {},
                    }
                },
                None => {},
            }
            len = len + 1;
        }
        match find(&self.entries, pattern) {
            Some(i) => {
                proof {
                    lemma_entry(self.names@, self.entries@, i as int);
                }
                let existing_command = match &self.entries[i].query {
                    BindingQuery::Match(other) => *other,
                    BindingQuery::PrefixOf(commands) => commands.as_slice()[0],
                };
                Some(
                    BindingConflict {
                        command: command_id,
                        pattern: pattern.duplicate(),
                        existing_command,
                        existing_pattern: pattern.duplicate(),
                    },
                )
            },
            None => None,
        }
    }

    /// What refuses binding `pattern` to `command_id`, if anything does: a
    /// binding of another command.
    pub fn refusal(&self, command_id: CommandId, pattern: &KeyPattern) -> (found: Option<
        BindingConflict,
    >)
        ensures
            found is Some == refused(self.bindings(), command_id, pattern@),
            found matches Some(conflict) ==> {
                &&& conflict.command == command_id
                &&& conflict.pattern@ == pattern@
                &&& refuses(
                    self.bindings(),
                    command_id,
                    pattern@,
                    conflict.existing_pattern@,
                    conflict.existing_command,
                )
            },
    {
        proof {
            use_type_invariant(self);
        }
        let count = pattern.prefix_count();
        let mut len: usize = 0;
        while len < count
            invariant
                valid(self.names@, self.entries@),
                count == pattern@.prefixes(),
                len <= count,
                forall|l: int|
                    0 <= l < len ==> !prefix_refusal(self.bindings(), command_id, pattern@, l),
            decreases count - len,
        {
            let prefix = pattern.prefix_pattern(len);
            match find(&self.entries, &prefix) {
                Some(i) => {
                    proof {
                        lemma_entry(self.names@, self.entries@, i as int);
                    }
                    match &self.entries[i].query {
                        BindingQuery::Match(other) => {
                            if other.position() != command_id.position() {
                                assert(prefix_refusal(
                                    self.bindings(),
                                    command_id,
                                    pattern@,
                                    len as int,
                                ));
                                return Some(
                                    BindingConflict {
                                        command: command_id,
                                        pattern: pattern.duplicate(),
                                        existing_command: *other,
                                        existing_pattern: prefix,
                                    },
                                );
                            }
                        },
                        BindingQuery::PrefixOf(_) => {},
                    }
                },
                None => {},
            }
            len = len + 1;
        }
        match find(&self.entries, pattern) {
            Some(i) => {
                proof {
                    lemma_entry(self.names@, self.entries@, i as int);
                }
                match &self.entries[i].query {
                    BindingQuery::Match(other) => {
                        if other.position() != command_id.position() {
                            Some(
                                BindingConflict {
                                    command: command_id,
                                    pattern: pattern.duplicate(),
                                    existing_command: *other,
                                    existing_pattern: pattern.duplicate(),
                                },
                            )
                        } else {
                            None
                        }
                    },
                    BindingQuery::PrefixOf(commands) => {
                        match other_than(commands.as_slice(), command_id) {
                            Some(other) => {
                                proof {
                                    let held = self.bindings()[pattern@]->PrefixOf_0;
                                    let k = choose|k: int| 0 <= k < held.len() && held[k] == other;
                                    assert(held[k] != command_id);
                                }
                                Some(
                                    BindingConflict {
                                        command: command_id,
                                        pattern: pattern.duplicate(),
                                        existing_command: other,
                                        existing_pattern: pattern.duplicate(),
                                    },
                                )
                            },
                            None => None,
                        }
                    },
                }
            },
            None => None,
        }
    }

    /// Holds a pattern as bound to a command, whatever the keymap held for
    /// it.
    fn hold(&mut self, command_id: CommandId, pattern: KeyPattern)
        requires
            command_id.index() < old(self).names().len(),
        ensures
            final(self).names() == old(self).names(),
            final(self).bindings() == old(self).bindings().insert(
                pattern@,
                Query::Match(command_id),
            ),
    {
        proof {
            use_type_invariant(&*self);
        }
        let mut taken = Keymap::new();
        std::mem::swap(self, &mut taken);
        let Keymap { names, mut entries } = taken;
        match find(&entries, &pattern) {
            Some(i) => {
                let binding = Binding { pattern, query: BindingQuery::Match(command_id) };
                proof {
                    lemma_after_set(names@, entries@, i as int, binding);
                }
                entries.set(i, binding);
            },
            None => {
                let binding = Binding { pattern, query: BindingQuery::Match(command_id) };
                proof {
                    lemma_after_push(names@, entries@, binding);
                }
                entries.push(binding);
            },
        }
        *self = Keymap { names, entries };
    }

    /// Records a binding that overlaps with nothing.
    fn record(&mut self, command_id: CommandId, pattern: KeyPattern)
        requires
            command_id.index() < old(self).names().len(),
            !conflicts(old(self).bindings(), pattern@),
        ensures
            final(self).names() == old(self).names(),
            final(self).bindings() == with_binding(old(self).bindings(), command_id, pattern@),
    {
        proof {
            use_type_invariant(&*self);
        }
        let mut taken = Keymap::new();
        std::mem::swap(self, &mut taken);
        let Keymap { names, mut entries } = taken;
        let ghost before = bindings_of(entries@);
        let count = pattern.prefix_count();
        let mut len: usize = 0;
        while len < count
            invariant
                valid(names@, entries@),
                command_id.index() < names@.len(),
                count == pattern@.prefixes(),
                len <= count,
                !conflicts(before, pattern@),
                bindings_of(entries@) == with_prefixes(before, command_id, pattern@, len as int),
            decreases count - len,
        {
            let prefix = pattern.prefix_pattern(len);
            proof {
                lemma_with_prefixes_step(before, command_id, pattern@, len as int);
                assert(!prefix_conflict(before, pattern@, len as int));
            }
            match find(&entries, &prefix) {
                Some(i) => {
                    proof {
                        lemma_entry(names@, entries@, i as int);
                    }
                    let joined = entries[i].query.joined_by(command_id);
                    let binding = Binding { pattern: prefix, query: joined };
                    proof {
                        lemma_after_set(names@, entries@, i as int, binding);
                    }
                    entries.set(i, binding);
                },
                None => {
                    let mut single: Vec<CommandId> = Vec::new();
                    single.push(command_id);
                    assert(single@ =~= seq![command_id]);
                    let binding = Binding {
                        pattern: prefix,
                        query: BindingQuery::PrefixOf(CommandList::from_slice(single.as_slice())),
                    };
                    proof {
                        lemma_after_push(names@, entries@, binding);
                    }
                    entries.push(binding);
                },
            }
            len = len + 1;
        }
        let binding = Binding { pattern, query: BindingQuery::Match(command_id) };
        proof {
            assert(!before.contains_key(pattern@));
            assert forall|l: int| 0 <= l < count implies pattern@ != #[trigger] pattern@.prefix(
                l,
            ) by {
                lemma_prefixes_differ(pattern@, l, l);
            }
            assert(!bindings_of(entries@).contains_key(pattern@));
            lemma_after_push(names@, entries@, binding);
        }
        entries.push(binding);
        *self = Keymap { names, entries };
    }

    /// Binds a pattern to a command of the keymap.
    ///
    /// The binding is refused, and the keymap left as it was, where a strict
    /// prefix of the pattern is bound to another command or the keymap holds
    /// the pattern for another command. Otherwise the pattern is bound: see
    /// [`bound_to`].
    pub fn try_bind_command(&mut self, command_id: CommandId, pattern: KeyPattern) -> (bound: Result<
        (),
        BindingConflict,
    >)
        requires
            command_id.index() < old(self).names().len(),
        ensures
            final(self).names() == old(self).names(),
            bound is Err == refused(old(self).bindings(), command_id, pattern@),
            bound is Ok ==> final(self).bindings() == bound_to(
                old(self).bindings(),
                command_id,
                pattern@,
            ),
            bound matches Err(conflict) ==> {
                &&& final(self).bindings() == old(self).bindings()
                &&& conflict.command == command_id
                &&& conflict.pattern@ == pattern@
                &&& refuses(
                    old(self).bindings(),
                    command_id,
                    pattern@,
                    conflict.existing_pattern@,
                    conflict.existing_command,
                )
            },
    {
        match self.refusal(command_id, &pattern) {
            Some(conflict) => Err(conflict),
            None => {
                match self.conflict(command_id, &pattern) {
                    Some(_) => {
                        self.hold(command_id, pattern);
                    },
                    None => {
                        self.record(command_id, pattern);
                    },
                }
                Ok(())
            },
        }
    }

    /// Binds a pattern to a command of the keymap.
    ///
    /// The pattern must be one that the keymap does not refuse: to bind a
    /// pattern that cannot be told from the ones that are bound to other
    /// commands is a mistake in the program. [`Keymap::try_bind_command`]
    /// asks nothing and tells of a refusal.
    pub fn bind_command(&mut self, command_id: CommandId, pattern: KeyPattern)
        requires
            command_id.index() < old(self).names().len(),
            !refused(old(self).bindings(), command_id, pattern@),
        ensures
            final(self).names() == old(self).names(),
            final(self).bindings() == bound_to(old(self).bindings(), command_id, pattern@),
    {
        let _ = self.try_bind_command(command_id, pattern);
    }

    /// Binds a pattern to the command that goes by `name`, which is added if
    /// the keymap has none by that name.
    ///
    /// Where the binding is refused the keymap is left as it was, without
    /// the command if it was new.
    pub fn try_add(&mut self, name: &str, pattern: KeyPattern) -> (added: Result<
        CommandId,
        BindingConflict,
    >)
        ensures
            added is Err == refused(
                old(self).bindings(),
                named_command(old(self).names(), name@),
                pattern@,
            ),
            added matches Ok(id) ==> {
                &&& id == named_command(old(self).names(), name@)
                &&& final(self).bindings() == bound_to(old(self).bindings(), id, pattern@)
                &&& id.index() < final(self).names().len()
                &&& final(self).names()[id.index() as int] == name@
                &&& if old(self).names().contains(name@) {
                    final(self).names() == old(self).names()
                } else {
                    final(self).names() == old(self).names().push(name@)
                }
            },
            added matches Err(conflict) ==> {
                &&& final(self).bindings() == old(self).bindings()
                &&& final(self).names() == old(self).names()
                &&& conflict.pattern@ == pattern@
                &&& conflict.command == named_command(old(self).names(), name@)
                &&& refuses(
                    old(self).bindings(),
                    conflict.command,
                    pattern@,
                    conflict.existing_pattern@,
                    conflict.existing_command,
                )
            },
    {
        let candidate = self.named(name);
        match self.refusal(candidate, &pattern) {
            Some(conflict) => Err(conflict),
            None => {
                let (command_id, _) = self.add_command(name);
                match self.conflict(command_id, &pattern) {
                    Some(_) => {
                        self.hold(command_id, pattern);
                    },
                    None => {
                        self.record(command_id, pattern);
                    },
                }
                Ok(command_id)
            },
        }
    }

    /// Binds a pattern to the command that goes by `name`, which is added if
    /// the keymap has none by that name, and gives the command.
    ///
    /// The pattern must be one that the keymap does not refuse.
    /// [`Keymap::try_add`] asks nothing and tells of a refusal.
    pub fn add(&mut self, name: &str, pattern: KeyPattern) -> (id: CommandId)
        requires
            !refused(old(self).bindings(), named_command(old(self).names(), name@), pattern@),
        ensures
            id == named_command(old(self).names(), name@),
            final(self).bindings() == bound_to(old(self).bindings(), id, pattern@),
            id.index() < final(self).names().len(),
            final(self).names()[id.index() as int] == name@,
            if old(self).names().contains(name@) {
                final(self).names() == old(self).names()
            } else {
                final(self).names() == old(self).names().push(name@)
            },
    {
        match self.try_add(name, pattern) {
            Ok(id) => id,
            Err(conflict) => conflict.command,
        }
    }

    /// Tells what the keymap makes of a sequence of chords typed so far: a
    /// bound chord, the beginning of one or more, or, with `None`, neither.
    pub fn check_sequence(&self, keys: &[Key]) -> (query: Option<&BindingQuery>)
        ensures
            match query {
                Some(found) => resolve(self.bindings(), keys@) == Some(found@),
                None => resolve(self.bindings(), keys@) is None,
            },
            query matches Some(found) ==> found@.within(self.names().len()),
    {
        proof {
            use_type_invariant(self);
        }
        match find_keys(&self.entries, keys) {
            Some(i) => {
                proof {
                    lemma_entry(self.names@, self.entries@, i as int);
                }
                return Some(&self.entries[i].query);
            },
            None => {},
        }
        if keys.len() == 1 && keys[0].is_char() {
            match find(&self.entries, &KeyPattern::AnyCharacter) {
                Some(i) => {
                    proof {
                        lemma_entry(self.names@, self.entries@, i as int);
                    }
                    return Some(&self.entries[i].query);
                },
                None => {},
            }
        }
        if keys.len() >= 1 {
            let last = keys[keys.len() - 1];
            match find(&self.entries, &KeyPattern::EndsWith(last)) {
                Some(i) => {
                    proof {
                        lemma_entry(self.names@, self.entries@, i as int);
                    }
                    return Some(&self.entries[i].query);
                },
                None => {},
            }
        }
        None
    }
}

/// A binding is found again: once `pattern` is bound to `command`, the
/// keymap holds the pattern as bound to that command.
pub proof fn bound_pattern_matches(m: Map<Pattern, Query>, command: CommandId, pattern: Pattern)
    ensures
        with_binding(m, command, pattern).contains_key(pattern),
        with_binding(m, command, pattern)[pattern] == Query::Match(command),
{
}

/// Chords dispatch: once the sequence `chord` is bound to `command` in a
/// keymap where it overlaps with nothing, typing all of it resolves to the
/// command, and typing any strict prefix of it resolves to the commands that
/// the prefix begins, of which `command` is the last.
pub proof fn bound_chord_dispatches(
    m: Map<Pattern, Query>,
    command: CommandId,
    chord: Seq<Key>,
    typed: int,
)
    requires
        !conflicts(m, Pattern::Keys(chord)),
        0 <= typed < chord.len(),
    ensures
        resolve(with_binding(m, command, Pattern::Keys(chord)), chord) == Some(
            Query::Match(command),
        ),
        resolve(with_binding(m, command, Pattern::Keys(chord)), chord.take(typed))
            matches Some(Query::PrefixOf(commands)) && commands.len() > 0 && commands.last()
            == command,
{
    let pattern = Pattern::Keys(chord);
    let after = with_binding(m, command, pattern);
    let prefix = pattern.prefix(typed);
    lemma_prefixes_differ(pattern, typed, typed);
    assert(prefix == Pattern::Keys(chord.take(typed)));
    assert(!prefix_conflict(m, pattern, typed));
    assert(after.contains_key(prefix));
    assert(after[prefix] == recorded(m, command, pattern, pattern.prefixes() as int, prefix));
}

/// Binding leaves the rest of the keymap alone: a pattern that is neither
/// the bound one nor a strict prefix of it is held as before.
pub proof fn binding_is_local(
    m: Map<Pattern, Query>,
    command: CommandId,
    pattern: Pattern,
    other: Pattern,
)
    requires
        other != pattern,
        !pattern.begins_with(other),
    ensures
        with_binding(m, command, pattern).contains_key(other) == m.contains_key(other),
        m.contains_key(other) ==> with_binding(m, command, pattern)[other] == m[other],
{
    let count = pattern.prefixes() as int;
    assert forall|len: int| 0 <= len < count implies other != #[trigger] pattern.prefix(len) by {
        assert(pattern.begins_with(pattern.prefix(len)));
    }
}

/// What a new binding puts in the way of a later one. After `first` is
/// bound, `second` overlaps exactly where it overlapped before,
/// or the two are the same pattern, or `second` is a sequence of chords that
/// begins `first`, or `first` is a sequence of chords that begins `second`.
pub proof fn conflicts_after_binding(
    m: Map<Pattern, Query>,
    command: CommandId,
    first: Pattern,
    second: Pattern,
)
    requires
        !conflicts(m, first),
    ensures
        conflicts(with_binding(m, command, first), second) <==> {
            ||| conflicts(m, second)
            ||| second == first
            ||| first.begins_with(second)
            ||| (first is Keys && second.begins_with(first))
        },
{
    let after = with_binding(m, command, first);
    let count = first.prefixes() as int;
    assert forall|len: int| 0 <= len < count implies first != #[trigger] first.prefix(len) by {
        lemma_prefixes_differ(first, len, len);
    }
    // What the keymap holds after the binding, pattern by pattern.
    assert forall|p: Pattern| #[trigger] after.contains_key(p) <==> (m.contains_key(p) || p == first
        || first.begins_with(p)) by {
        if first.begins_with(p) {
            let len = choose|len: int| 0 <= len < first.prefixes() && p == #[trigger] first.prefix(len);
            assert(0 <= len < count && p == first.prefix(len));
        }
    }
    assert forall|p: Pattern| #[trigger] after.contains_key(p) implies (after[p] is Match <==> (p
        == first || (m.contains_key(p) && m[p] is Match && !first.begins_with(p)))) by {
        if p != first {
            if first.begins_with(p) {
                let len = choose|len: int|
                    0 <= len < first.prefixes() && p == #[trigger] first.prefix(len);
                assert(0 <= len < count && p == first.prefix(len));
                assert(after[p] == recorded(m, command, first, count, p));
            } else {
                binding_is_local(m, command, first, p);
            }
        }
    }
    if conflicts(after, second) {
        if !after.contains_key(second) {
            let len = choose|len: int| prefix_conflict(after, second, len);
            let p = second.prefix(len);
            assert(after.contains_key(p) && after[p] is Match);
            if p == first {
                assert(second.begins_with(first));
            } else {
                assert(prefix_conflict(m, second, len));
            }
        }
    }
    if conflicts(m, second) {
        if !m.contains_key(second) {
            let len = choose|len: int| prefix_conflict(m, second, len);
            let p = second.prefix(len);
            assert(after.contains_key(p));
            if first.begins_with(p) {
                // A strict prefix of `first` bound to a command would have
                // stood in the way of `first`.
                let at = choose|at: int| 0 <= at < first.prefixes() && p == #[trigger] first.prefix(at);
                assert(prefix_conflict(m, first, at));
            }
            assert(p != first);
            assert(prefix_conflict(after, second, len));
        }
    }
    if first is Keys && second.begins_with(first) {
        let len = choose|len: int| 0 <= len < second.prefixes() && first == #[trigger] second.prefix(len);
        assert(prefix_conflict(after, second, len));
    }
}

/// Patterns that do not begin one another bind together: in a keymap that
/// holds nothing yet, two different sequences of chords of which neither is
/// a strict prefix of the other can both be bound, in either order.
pub proof fn unrelated_chords_bind_together(first: CommandId, a: Seq<Key>, b: Seq<Key>)
    requires
        a != b,
        !Pattern::Keys(a).begins_with(Pattern::Keys(b)),
        !Pattern::Keys(b).begins_with(Pattern::Keys(a)),
    ensures
        !conflicts(Map::<Pattern, Query>::empty(), Pattern::Keys(a)),
        !conflicts(
            with_binding(Map::<Pattern, Query>::empty(), first, Pattern::Keys(a)),
            Pattern::Keys(b),
        ),
{
    let empty = Map::<Pattern, Query>::empty();
    assert(!conflicts(empty, Pattern::Keys(a)));
    assert(!conflicts(empty, Pattern::Keys(b)));
    conflicts_after_binding(empty, first, Pattern::Keys(a), Pattern::Keys(b));
}

/// A chord and a strict prefix of it never bind together: whichever of the
/// two is bound first, the other overlaps with it, whatever the commands
/// are.
pub proof fn prefix_of_chord_conflicts(
    m: Map<Pattern, Query>,
    command: CommandId,
    chord: Seq<Key>,
    len: int,
)
    requires
        0 <= len < chord.len(),
    ensures
        !conflicts(m, Pattern::Keys(chord)) ==> conflicts(
            with_binding(m, command, Pattern::Keys(chord)),
            Pattern::Keys(chord.take(len)),
        ),
        !conflicts(m, Pattern::Keys(chord.take(len))) ==> conflicts(
            with_binding(m, command, Pattern::Keys(chord.take(len))),
            Pattern::Keys(chord),
        ),
{
    let whole = Pattern::Keys(chord);
    let part = Pattern::Keys(chord.take(len));
    assert(part == whole.prefix(len));
    assert(whole.begins_with(part));
    if !conflicts(m, whole) {
        conflicts_after_binding(m, command, whole, part);
    }
    if !conflicts(m, part) {
        conflicts_after_binding(m, command, part, whole);
    }
}

/// What a keymap knows of a sequence of chords, with the names of the
/// commands in place of the commands.
#[derive(Clone, Debug, PartialEq, Eq)]
pub enum NamedBindingQuery {
    Match(String),
    PrefixOf(Vec<String>),
}

/// A named query, with its names as sequences of characters.
pub enum NamedQuery {
    Match(Seq<char>),
    PrefixOf(Seq<Seq<char>>),
}

impl View for NamedBindingQuery {
    type V = NamedQuery;

    open spec fn view(&self) -> NamedQuery {
        match self {
            NamedBindingQuery::Match(name) => NamedQuery::Match(name@),
            NamedBindingQuery::PrefixOf(names) => NamedQuery::PrefixOf(
                Seq::new(names@.len(), |i: int| names@[i]@),
            ),
        }
    }
}

/// What is refused overlaps: binding is refused only where the pattern
/// overlaps with what the keymap holds.
pub proof fn refusal_is_an_overlap(m: Map<Pattern, Query>, command: CommandId, pattern: Pattern)
    ensures
        refused(m, command, pattern) ==> conflicts(m, pattern),
        !conflicts(m, pattern) ==> bound_to(m, command, pattern) == with_binding(
            m,
            command,
            pattern,
        ),
{
    if exists|len: int| prefix_refusal(m, command, pattern, len) {
        let len = choose|len: int| prefix_refusal(m, command, pattern, len);
        assert(prefix_conflict(m, pattern, len));
    }
}

/// A chord and a strict prefix of it are never bound to different commands:
/// whichever of the two is bound first, binding the other to another
/// command is refused.
pub proof fn prefix_of_chord_is_refused(
    m: Map<Pattern, Query>,
    first: CommandId,
    second: CommandId,
    chord: Seq<Key>,
    len: int,
)
    requires
        first != second,
        0 <= len < chord.len(),
    ensures
        !conflicts(m, Pattern::Keys(chord)) ==> refused(
            with_binding(m, first, Pattern::Keys(chord)),
            second,
            Pattern::Keys(chord.take(len)),
        ),
        !conflicts(m, Pattern::Keys(chord.take(len))) ==> refused(
            with_binding(m, first, Pattern::Keys(chord.take(len))),
            second,
            Pattern::Keys(chord),
        ),
{
    let whole = Pattern::Keys(chord);
    let part = Pattern::Keys(chord.take(len));
    assert(part == whole.prefix(len));
    if !conflicts(m, whole) {
        let after = with_binding(m, first, whole);
        lemma_prefixes_differ(whole, len, len);
        assert(after.contains_key(part));
        assert(after[part] == recorded(m, first, whole, whole.prefixes() as int, part));
        let held = after[part]->PrefixOf_0;
        assert(held[held.len() - 1] == first);
        assert(!after[part].owned_by(second));
    }
    if !conflicts(m, part) {
        let after = with_binding(m, first, part);
        assert(after[part] == Query::Match(first));
        assert(prefix_conflict(after, whole, len));
        assert(prefix_refusal(after, second, whole, len));
    }
}

/// A refusal names the command in the way: in a keymap that holds one
/// chord of a command and nothing else, what refuses a binding of another
/// command is held for that command.
pub proof fn refusal_names_the_holder(
    holder: CommandId,
    chord: Seq<Key>,
    command: CommandId,
    pattern: Pattern,
    existing_pattern: Pattern,
    existing_command: CommandId,
)
    requires
        refuses(
            with_binding(Map::<Pattern, Query>::empty(), holder, Pattern::Keys(chord)),
            command,
            pattern,
            existing_pattern,
            existing_command,
        ),
    ensures
        existing_command == holder,
        command != holder,
{
    let empty = Map::<Pattern, Query>::empty();
    let whole = Pattern::Keys(chord);
    let m = with_binding(empty, holder, whole);
    if existing_pattern == whole {
        assert(m[whole] == Query::Match(holder));
    } else {
        assert(m.contains_key(existing_pattern));
        let len = choose|len: int|
            0 <= len < whole.prefixes() && existing_pattern == #[trigger] whole.prefix(len);
        lemma_prefixes_differ(whole, len, len);
        assert(m[existing_pattern] == recorded(
            empty,
            holder,
            whole,
            whole.prefixes() as int,
            existing_pattern,
        ));
        assert(m[existing_pattern] == Query::PrefixOf(seq![holder]));
        let held = seq![holder];
        let at = choose|at: int| 0 <= at < held.len() && held[at] == existing_command;
        assert(held[at] == holder);
    }
}

/// Chords of one command merge: in a keymap that holds one chord of a
/// command and nothing else, binding a strict prefix of the chord to the
/// same command is not refused, nor is binding the chord again.
pub proof fn own_chords_merge(command: CommandId, chord: Seq<Key>, len: int)
    requires
        0 <= len < chord.len(),
    ensures
        !refused(
            with_binding(Map::<Pattern, Query>::empty(), command, Pattern::Keys(chord)),
            command,
            Pattern::Keys(chord.take(len)),
        ),
        !refused(
            with_binding(Map::<Pattern, Query>::empty(), command, Pattern::Keys(chord)),
            command,
            Pattern::Keys(chord),
        ),
{
    let empty = Map::<Pattern, Query>::empty();
    let whole = Pattern::Keys(chord);
    let part = Pattern::Keys(chord.take(len));
    let after = with_binding(empty, command, whole);
    assert(part == whole.prefix(len));
    lemma_prefixes_differ(whole, len, len);
    assert forall|l: int| 0 <= l < whole.prefixes() implies #[trigger] after[whole.prefix(l)]
        == Query::PrefixOf(seq![command]) && after.contains_key(whole.prefix(l)) by {
        lemma_prefixes_differ(whole, l, l);
        assert(after[whole.prefix(l)] == recorded(
            empty,
            command,
            whole,
            whole.prefixes() as int,
            whole.prefix(l),
        ));
    }
    assert forall|l: int| !prefix_refusal(after, command, part, l) by {
        if prefix_conflict(after, part, l) {
            assert(part.prefix(l) == whole.prefix(l)) by {
                assert(chord.take(len).take(l) =~= chord.take(l));
            }
        }
    }
    assert forall|l: int| !prefix_refusal(after, command, whole, l) by {
        if prefix_conflict(after, whole, l) {
            assert(after[whole.prefix(l)] == Query::PrefixOf(seq![command]));
        }
    }
    assert(after[part] == Query::PrefixOf(seq![command]));
    assert(after[part].owned_by(command));
    assert(after[whole] == Query::Match(command));
}

/// The query `query` with each command replaced by its name among `names`.
pub open spec fn named(names: Seq<Seq<char>>, query: Query) -> NamedQuery {
    match query {
        Query::Match(command) => NamedQuery::Match(names[command.index() as int]),
        Query::PrefixOf(commands) => NamedQuery::PrefixOf(
            Seq::new(commands.len(), |i: int| names[commands[i].index() as int]),
        ),
    }
}

impl NamedBindingQuery {
    /// The query with the name of each command in place of the command.
    pub fn new(keymap: &Keymap, query: &BindingQuery) -> (named_query: Self)
        requires
            query@.within(keymap.names().len()),
        ensures
            named_query@ == named(keymap.names(), query@),
    {
        match query {
            BindingQuery::Match(command_id) => NamedBindingQuery::Match(
                String::from_str(keymap.name(command_id)),
            ),
            BindingQuery::PrefixOf(list) => {
                let commands = list.as_slice();
                let mut names: Vec<String> = Vec::new();
                let mut i: usize = 0;
                while i < commands.len()
                    invariant
                        i <= commands@.len(),
                        query@ == Query::PrefixOf(commands@),
                        query@.within(keymap.names().len()),
                        names@.len() == i,
                        forall|j: int|
                            0 <= j < i ==> names@[j]@ == keymap.names()[commands@[j].index() as int],
                    decreases commands@.len() - i,
                {
                    names.push(String::from_str(keymap.name(&commands[i])));
                    i = i + 1;
                }
                let named_query = NamedBindingQuery::PrefixOf(names);
                assert(named_query@->PrefixOf_0 =~= named(keymap.names(), query@)->PrefixOf_0);
                named_query
            },
        }
    }
}

/// What a command does when its chord is typed: it looks at its component
/// and at the chords, and may answer with a message for the component.
///
/// Closures of several shapes are commands; `VARIANT` tells the shapes
/// apart.
pub trait CommandFn<ComponentT: Component, const VARIANT: usize> {
    /// Whether the command may be run on `component` with `keys`.
    spec fn accepts(&self, component: &ComponentT, keys: Seq<Key>) -> bool;

    /// Whether the command may answer with `message` when it is run on
    /// `component` with `keys`.
    spec fn yields(
        &self,
        component: &ComponentT,
        keys: Seq<Key>,
        message: Option<ComponentT::Message>,
    ) -> bool;

    fn call(&self, component: &ComponentT, keys: &[Key]) -> (message: Option<
        ComponentT::Message,
    >)
        requires
            self.accepts(component, keys@),
        ensures
            self.yields(component, keys@, message),
    ;
}

/// A command that looks at its component and at the chords, and may answer
/// with a message.
impl<ComponentT: Component, FnT: Fn(&ComponentT, &[Key]) -> Option<ComponentT::Message>> CommandFn<
    ComponentT,
    0,
> for FnT {
    open spec fn accepts(&self, component: &ComponentT, keys: Seq<Key>) -> bool {
        forall|typed: &[Key]| typed@ == keys ==> call_requires(*self, (component, typed))
    }

    open spec fn yields(
        &self,
        component: &ComponentT,
        keys: Seq<Key>,
        message: Option<ComponentT::Message>,
    ) -> bool {
        exists|typed: &[Key]| typed@ == keys && call_ensures(*self, (component, typed), message)
    }

    fn call(&self, component: &ComponentT, keys: &[Key]) -> (message: Option<
        ComponentT::Message,
    >) {
        (self)(component, keys)
    }
}

/// A command that looks at its component, and may answer with a message.
impl<ComponentT: Component, FnT: Fn(&ComponentT) -> Option<ComponentT::Message>> CommandFn<
    ComponentT,
    1,
> for FnT {
    open spec fn accepts(&self, component: &ComponentT, keys: Seq<Key>) -> bool {
        call_requires(*self, (component,))
    }

    open spec fn yields(
        &self,
        component: &ComponentT,
        keys: Seq<Key>,
        message: Option<ComponentT::Message>,
    ) -> bool {
        call_ensures(*self, (component,), message)
    }

    #[inline]
    fn call(&self, component: &ComponentT, keys: &[Key]) -> (message: Option<
        ComponentT::Message,
    >) {
        (self)(component)
    }
}

/// A command that looks at the chords, and may answer with a message.
impl<ComponentT: Component, FnT: Fn(&[Key]) -> Option<ComponentT::Message>> CommandFn<
    ComponentT,
    2,
> for FnT {
    open spec fn accepts(&self, component: &ComponentT, keys: Seq<Key>) -> bool {
        forall|typed: &[Key]| typed@ == keys ==> call_requires(*self, (typed,))
    }

    open spec fn yields(
        &self,
        component: &ComponentT,
        keys: Seq<Key>,
        message: Option<ComponentT::Message>,
    ) -> bool {
        exists|typed: &[Key]| typed@ == keys && call_ensures(*self, (typed,), message)
    }

    #[inline]
    fn call(&self, component: &ComponentT, keys: &[Key]) -> (message: Option<
        ComponentT::Message,
    >) {
        (self)(keys)
    }
}

/// A command that looks at its component and at the chords, and answers
/// with no message.
impl<ComponentT: Component, FnT: Fn(&ComponentT, &[Key])> CommandFn<ComponentT, 3> for FnT {
    open spec fn accepts(&self, component: &ComponentT, keys: Seq<Key>) -> bool {
        forall|typed: &[Key]| typed@ == keys ==> call_requires(*self, (component, typed))
    }

    open spec fn yields(
        &self,
        component: &ComponentT,
        keys: Seq<Key>,
        message: Option<ComponentT::Message>,
    ) -> bool {
        message is None && exists|typed: &[Key]|
            typed@ == keys && call_ensures(*self, (component, typed), ())
    }

    #[inline]
    fn call(&self, component: &ComponentT, keys: &[Key]) -> (message: Option<
        ComponentT::Message,
    >) {
        (self)(component, keys);
        None
    }
}

/// A command that looks at its component, and answers with no message.
impl<ComponentT: Component, FnT: Fn(&ComponentT)> CommandFn<ComponentT, 4> for FnT {
    open spec fn accepts(&self, component: &ComponentT, keys: Seq<Key>) -> bool {
        call_requires(*self, (component,))
    }

    open spec fn yields(
        &self,
        component: &ComponentT,
        keys: Seq<Key>,
        message: Option<ComponentT::Message>,
    ) -> bool {
        message is None && call_ensures(*self, (component,), ())
    }

    #[inline]
    fn call(&self, component: &ComponentT, keys: &[Key]) -> (message: Option<
        ComponentT::Message,
    >) {
        (self)(component);
        None
    }
}

/// A command that looks at nothing, and answers with a message.
impl<ComponentT: Component, FnT: Fn() -> ComponentT::Message> CommandFn<ComponentT, 5> for FnT {
    open spec fn accepts(&self, component: &ComponentT, keys: Seq<Key>) -> bool {
        call_requires(*self, ())
    }

    open spec fn yields(
        &self,
        component: &ComponentT,
        keys: Seq<Key>,
        message: Option<ComponentT::Message>,
    ) -> bool {
        message matches Some(answer) && call_ensures(*self, (), answer)
    }

    #[inline]
    fn call(&self, component: &ComponentT, keys: &[Key]) -> (message: Option<
        ComponentT::Message,
    >) {
        Some((self)())
    }
}

/// What a command of any shape does.
pub trait DynamicCommandFn<ComponentT: Component> {
    /// Whether the command may be run on `component` with `keys`.
    spec fn takes(&self, component: &ComponentT, keys: Seq<Key>) -> bool;

    /// Whether the command may answer with `message` when it is run on
    /// `component` with `keys`.
    spec fn gives(
        &self,
        component: &ComponentT,
        keys: Seq<Key>,
        message: Option<ComponentT::Message>,
    ) -> bool;

    fn run(&self, component: &ComponentT, keys: &[Key]) -> (message: Option<ComponentT::Message>)
        requires
            self.takes(component, keys@),
        ensures
            self.gives(component, keys@, message),
    ;
}

/// A closure that looks at its component and at the chords, and may answer
/// with a message, is a command as it is.
impl<
    ComponentT: Component,
    FnT: Fn(&ComponentT, &[Key]) -> Option<ComponentT::Message>,
> DynamicCommandFn<ComponentT> for FnT {
    open spec fn takes(&self, component: &ComponentT, keys: Seq<Key>) -> bool {
        forall|typed: &[Key]| typed@ == keys ==> call_requires(*self, (component, typed))
    }

    open spec fn gives(
        &self,
        component: &ComponentT,
        keys: Seq<Key>,
        message: Option<ComponentT::Message>,
    ) -> bool {
        exists|typed: &[Key]| typed@ == keys && call_ensures(*self, (component, typed), message)
    }

    fn run(&self, component: &ComponentT, keys: &[Key]) -> (message: Option<ComponentT::Message>) {
        (self)(component, keys)
    }
}

/// A command with its shape.
pub struct Shaped<FnT, const VARIANT: usize>(pub FnT);

impl<
    ComponentT: Component,
    FnT: CommandFn<ComponentT, VARIANT>,
    const VARIANT: usize,
> DynamicCommandFn<ComponentT> for Shaped<FnT, VARIANT> {
    open spec fn takes(&self, component: &ComponentT, keys: Seq<Key>) -> bool {
        self.0.accepts(component, keys)
    }

    open spec fn gives(
        &self,
        component: &ComponentT,
        keys: Seq<Key>,
        message: Option<ComponentT::Message>,
    ) -> bool {
        self.0.yields(component, keys, message)
    }

    fn run(&self, component: &ComponentT, keys: &[Key]) -> (message: Option<ComponentT::Message>) {
        CommandFn::call(&self.0, component, keys)
    }
}

/// What a command does, boxed.
#[verifier::reject_recursive_types(ComponentT)]
pub struct Command<ComponentT: Component>(pub Box<dyn DynamicCommandFn<ComponentT>>);

impl<ComponentT: Component> Command<ComponentT> {
    /// Whether the command may be run on any component with any chords.
    pub open spec fn always_accepts(self) -> bool {
        forall|component: ComponentT, keys: Seq<Key>| #[trigger] self.0.takes(&component, keys)
    }

    /// Whether the command may answer with `message` when it is run on
    /// `component` with `keys`.
    pub open spec fn yields(
        self,
        component: &ComponentT,
        keys: Seq<Key>,
        message: Option<ComponentT::Message>,
    ) -> bool {
        self.0.gives(component, keys, message)
    }

    /// Boxes what a command does.
    pub fn boxed<CommandT: DynamicCommandFn<ComponentT> + 'static>(command_fn: CommandT) -> (command:
        Self)
        requires
            forall|component: ComponentT, keys: Seq<Key>| #[trigger]
                command_fn.takes(&component, keys),
        ensures
            command.always_accepts(),
            forall|component: ComponentT, keys: Seq<Key>, message: Option<ComponentT::Message>|
                #[trigger] command.yields(&component, keys, message) == command_fn.gives(
                    &component,
                    keys,
                    message,
                ),
    {
        let boxed: Box<dyn DynamicCommandFn<ComponentT>> = Box::new(command_fn);
        Command(boxed)
    }

    /// Boxes what a command of any shape does.
    pub fn new<const VARIANT: usize, FnT: CommandFn<ComponentT, VARIANT> + 'static>(
        command_fn: FnT,
    ) -> (command: Self)
        requires
            forall|component: ComponentT, keys: Seq<Key>| #[trigger]
                command_fn.accepts(&component, keys),
        ensures
            command.always_accepts(),
            forall|component: ComponentT, keys: Seq<Key>, message: Option<ComponentT::Message>|
                #[trigger] command.yields(&component, keys, message) == command_fn.yields(
                    &component,
                    keys,
                    message,
                ),
    {
        let shaped = Shaped::<FnT, VARIANT>(command_fn);
        proof {
            assert forall|component: ComponentT, keys: Seq<Key>| #[trigger]
                shaped.takes(&component, keys) by {
                assert(shaped.0.accepts(&component, keys));
            }
        }
        Command::boxed(shaped)
    }
}

/// The key bindings of a component as the runtime holds them: the keymap,
/// what each of its commands does, and whether the component takes part in
/// key dispatch.
#[verifier::reject_recursive_types(ComponentT)]
pub struct DynamicBindings<ComponentT: Component> {
    keymap: Keymap,
    commands: Vec<Command<ComponentT>>,
    focused: bool,
    notify: bool,
}

impl<ComponentT: Component> DynamicBindings<ComponentT> {
    /// Every command of the keymap has something to do, which can be done on
    /// any component with any chords.
    #[verifier::type_invariant]
    spec fn wf(self) -> bool {
        &&& self.commands@.len() == self.keymap.names().len()
        &&& forall|i: int|
            0 <= i < self.commands@.len() ==> (#[trigger] self.commands@[i]).always_accepts()
    }

    /// The keymap of the component.
    pub closed spec fn map(self) -> Keymap {
        self.keymap
    }

    /// What the command `id` does.
    pub closed spec fn doing(self, id: CommandId) -> Command<ComponentT> {
        self.commands@[id.index() as int]
    }

    /// What the commands do.
    pub closed spec fn doings(self) -> Seq<Command<ComponentT>> {
        self.commands@
    }

    /// Whether the bindings `after` give the command `id` what `command_fn`
    /// does to do, and the other commands of `before` what they did.
    pub open spec fn does_now<const VARIANT: usize, FnT: CommandFn<ComponentT, VARIANT>>(
        before: Self,
        after: Self,
        id: CommandId,
        command_fn: FnT,
    ) -> bool {
        &&& forall|component: ComponentT, keys: Seq<Key>, message: Option<ComponentT::Message>|
            #[trigger] after.answers(id, &component, keys, message) == command_fn.yields(
                &component,
                keys,
                message,
            )
        &&& forall|other: CommandId|
            other.index() < before.map().names().len() && other != id ==> #[trigger] after.doing(
                other,
            ) == before.doing(other)
    }
    /// Whether the component takes the chords that are typed.
    pub closed spec fn has_focus(self) -> bool {
        self.focused
    }

    /// Whether the component is told what the focused components make of the
    /// chords that are typed.
    pub closed spec fn wants_notice(self) -> bool {
        self.notify
    }

    /// DynamicBindings without commands, for a component that neither has the focus
    /// nor wants notice.
    pub fn new() -> (bindings: Self)
        ensures
            bindings.map().names() == Seq::<Seq<char>>::empty(),
            bindings.map().bindings() == Map::<Pattern, Query>::empty(),
            bindings.doings() == Seq::<Command<ComponentT>>::empty(),
            !bindings.has_focus(),
            !bindings.wants_notice(),
    {
        DynamicBindings { keymap: Keymap::new(), commands: Vec::new(), focused: false, notify: false }
    }

    /// The keymap of the component.
    #[inline]
    pub fn keymap(&self) -> (keymap: &Keymap)
        ensures
            *keymap == self.map(),
    {
        &self.keymap
    }

    /// Tells whether nothing is bound.
    #[inline]
    pub fn is_empty(&self) -> (empty: bool)
        ensures
            empty == (self.map().bindings() == Map::<Pattern, Query>::empty()),
    {
        self.keymap.is_empty()
    }

    /// Says whether the component takes the chords that are typed.
    #[inline]
    pub fn set_focus(&mut self, focused: bool)
        ensures
            final(self).has_focus() == focused,
            final(self).wants_notice() == old(self).wants_notice(),
            final(self).map() == old(self).map(),
            final(self).doings() == old(self).doings(),
    {
        proof {
            use_type_invariant(&*self);
        }
        let mut taken = DynamicBindings::new();
        std::mem::swap(self, &mut taken);
        let DynamicBindings { keymap, commands, focused: _, notify } = taken;
        *self = DynamicBindings { keymap, commands, focused, notify };
    }

    /// Tells whether the component takes the chords that are typed.
    #[inline]
    pub fn focused(&self) -> (focused: bool)
        ensures
            focused == self.has_focus(),
    {
        self.focused
    }

    /// Says whether the component is told what the focused components make
    /// of the chords that are typed.
    #[inline]
    pub fn set_notify(&mut self, notify: bool)
        ensures
            final(self).wants_notice() == notify,
            final(self).has_focus() == old(self).has_focus(),
            final(self).map() == old(self).map(),
            final(self).doings() == old(self).doings(),
    {
        proof {
            use_type_invariant(&*self);
        }
        let mut taken = DynamicBindings::new();
        std::mem::swap(self, &mut taken);
        let DynamicBindings { keymap, commands, focused, notify: _ } = taken;
        *self = DynamicBindings { keymap, commands, focused, notify };
    }

    /// Tells whether the component is told what the focused components make
    /// of the chords that are typed.
    #[inline]
    pub fn notify(&self) -> (notify: bool)
        ensures
            notify == self.wants_notice(),
    {
        self.notify
    }

    /// Gives the command that goes by `name` something to do, after adding
    /// the command if the keymap has none by that name.
    pub fn add_command<const VARIANT: usize, FnT: CommandFn<ComponentT, VARIANT> + 'static>(
        &mut self,
        name: &str,
        command_fn: FnT,
    ) -> (id: CommandId)
        requires
            forall|component: ComponentT, keys: Seq<Key>| #[trigger]
                command_fn.accepts(&component, keys),
        ensures
            final(self).has_focus() == old(self).has_focus(),
            final(self).wants_notice() == old(self).wants_notice(),
            final(self).map().bindings() == old(self).map().bindings(),
            id == named_command(old(self).map().names(), name@),
            id.index() < final(self).map().names().len(),
            final(self).map().names()[id.index() as int] == name@,
            if old(self).map().names().contains(name@) {
                final(self).map().names() == old(self).map().names()
            } else {
                final(self).map().names() == old(self).map().names().push(name@)
            },
            Self::does_now(*old(self), *final(self), id, command_fn),
    {
        proof {
            use_type_invariant(&*self);
        }
        let mut taken = DynamicBindings::new();
        std::mem::swap(self, &mut taken);
        let DynamicBindings { mut keymap, mut commands, focused, notify } = taken;
        let ghost before = commands@;
        let (id, is_new) = keymap.add_command(name);
        let command = Command::new(command_fn);
        if is_new {
            commands.push(command);
        } else {
            commands.set(id.position(), command);
        }
        proof {
            assert forall|i: int| 0 <= i < commands@.len() implies (
            #[trigger] commands@[i]).always_accepts() by {
                if i != id.index() {
                    assert(commands@[i] == before[i]);
                }
            }
        }
        *self = DynamicBindings { keymap, commands, focused, notify };
        id
    }

    /// Binds a pattern to a command of the keymap, if the keymap does not
    /// refuse it. See [`Keymap::try_bind_command`].
    pub fn try_bind_command(&mut self, command_id: CommandId, pattern: KeyPattern) -> (bound:
        Result<(), BindingConflict>)
        requires
            command_id.index() < old(self).map().names().len(),
        ensures
            final(self).has_focus() == old(self).has_focus(),
            final(self).wants_notice() == old(self).wants_notice(),
            final(self).map().names() == old(self).map().names(),
            final(self).doings() == old(self).doings(),
            bound is Err == refused(old(self).map().bindings(), command_id, pattern@),
            bound is Ok ==> final(self).map().bindings() == bound_to(
                old(self).map().bindings(),
                command_id,
                pattern@,
            ),
            bound matches Err(conflict) ==> {
                &&& final(self).map().bindings() == old(self).map().bindings()
                &&& conflict.command == command_id
                &&& conflict.pattern@ == pattern@
                &&& refuses(
                    old(self).map().bindings(),
                    conflict.command,
                    pattern@,
                    conflict.existing_pattern@,
                    conflict.existing_command,
                )
            },
    {
        proof {
            use_type_invariant(&*self);
        }
        let mut taken = DynamicBindings::new();
        std::mem::swap(self, &mut taken);
        let DynamicBindings { mut keymap, commands, focused, notify } = taken;
        let bound = keymap.try_bind_command(command_id, pattern);
        *self = DynamicBindings { keymap, commands, focused, notify };
        bound
    }

    /// Binds a pattern to a command of the keymap. The pattern must be one
    /// that the keymap does not refuse. See [`Keymap::bind_command`].
    pub fn bind_command(&mut self, command_id: CommandId, pattern: KeyPattern)
        requires
            command_id.index() < old(self).map().names().len(),
            !refused(old(self).map().bindings(), command_id, pattern@),
        ensures
            final(self).has_focus() == old(self).has_focus(),
            final(self).wants_notice() == old(self).wants_notice(),
            final(self).map().names() == old(self).map().names(),
            final(self).doings() == old(self).doings(),
            final(self).map().bindings() == bound_to(
                old(self).map().bindings(),
                command_id,
                pattern@,
            ),
    {
        let _ = self.try_bind_command(command_id, pattern);
    }

    /// Binds a pattern to the command that goes by `name` and gives the
    /// command something to do. The command is added if the keymap has none
    /// by that name.
    ///
    /// Where the binding is refused the bindings are left as they were.
    pub fn try_add<const VARIANT: usize, FnT: CommandFn<ComponentT, VARIANT> + 'static>(
        &mut self,
        name: &str,
        pattern: KeyPattern,
        command_fn: FnT,
    ) -> (added: Result<CommandId, BindingConflict>)
        requires
            forall|component: ComponentT, keys: Seq<Key>| #[trigger]
                command_fn.accepts(&component, keys),
        ensures
            final(self).has_focus() == old(self).has_focus(),
            final(self).wants_notice() == old(self).wants_notice(),
            added is Err == refused(
                old(self).map().bindings(),
                named_command(old(self).map().names(), name@),
                pattern@,
            ),
            added matches Ok(id) ==> {
                &&& final(self).map().bindings() == bound_to(
                    old(self).map().bindings(),
                    id,
                    pattern@,
                )
                &&& id.index() < final(self).map().names().len()
                &&& final(self).map().names()[id.index() as int] == name@
                &&& Self::does_now(*old(self), *final(self), id, command_fn)
            },
            added matches Err(conflict) ==> {
                &&& final(self).map() == old(self).map()
                &&& final(self).doings() == old(self).doings()
                &&& conflict.pattern@ == pattern@
                &&& refuses(
                    old(self).map().bindings(),
                    conflict.command,
                    pattern@,
                    conflict.existing_pattern@,
                    conflict.existing_command,
                )
            },
    {
        let candidate = self.keymap.named(name);
        match self.keymap.refusal(candidate, &pattern) {
            Some(conflict) => Err(conflict),
            None => {
                let ghost command = command_fn;
                let id = self.add_command(name, command_fn);
                let ghost added = *self;
                let bound = self.try_bind_command(id, pattern);
                proof {
                    assert(self.doings() == added.doings());
                    assert forall|other: CommandId| #[trigger] self.doing(other) == added.doing(
                        other,
                    ) by {}
                    assert forall|
                        component: ComponentT,
                        keys: Seq<Key>,
                        message: Option<ComponentT::Message>,
                    | #[trigger]
                        self.answers(id, &component, keys, message) == command.yields(
                            &component,
                            keys,
                            message,
                        ) by {
                        assert(self.doing(id) == added.doing(id));
                        assert(added.answers(id, &component, keys, message) == command.yields(
                            &component,
                            keys,
                            message,
                        ));
                    }
                }
                match bound {
                    Ok(()) => Ok(id),
                    Err(conflict) => Err(conflict),
                }
            },
        }
    }

    /// Binds a pattern to the command that goes by `name`, gives the command
    /// something to do, and gives the command. The command is added if the
    /// keymap has none by that name.
    ///
    /// The pattern must be one that the keymap does not refuse.
    /// [`DynamicBindings::try_add`] asks nothing and tells of a refusal.
    pub fn add<const VARIANT: usize, FnT: CommandFn<ComponentT, VARIANT> + 'static>(
        &mut self,
        name: &str,
        pattern: KeyPattern,
        command_fn: FnT,
    ) -> (id: CommandId)
        requires
            forall|component: ComponentT, keys: Seq<Key>| #[trigger]
                command_fn.accepts(&component, keys),
            !refused(
                old(self).map().bindings(),
                named_command(old(self).map().names(), name@),
                pattern@,
            ),
        ensures
            final(self).has_focus() == old(self).has_focus(),
            final(self).wants_notice() == old(self).wants_notice(),
            final(self).map().bindings() == bound_to(old(self).map().bindings(), id, pattern@),
            id.index() < final(self).map().names().len(),
            final(self).map().names()[id.index() as int] == name@,
            Self::does_now(*old(self), *final(self), id, command_fn),
    {
        match self.try_add(name, pattern, command_fn) {
            Ok(id) => id,
            Err(conflict) => conflict.command,
        }
    }

    /// Whether the command `id` may answer with `message` when it is run on
    /// `component` with `keys`.
    pub open spec fn answers(
        self,
        id: CommandId,
        component: &ComponentT,
        keys: Seq<Key>,
        message: Option<ComponentT::Message>,
    ) -> bool {
        self.doing(id).yields(component, keys, message)
    }

    /// Runs a command on its component, and gives what the command answers.
    pub fn execute_command(&self, component: &ComponentT, id: CommandId, keys: &[Key]) -> (message:
        Option<ComponentT::Message>)
        requires
            id.index() < self.map().names().len(),
        ensures
            self.answers(id, component, keys@, message),
    {
        proof {
            use_type_invariant(self);
            assert(self.commands@[id.index() as int].always_accepts());
        }
        self.commands[id.position()].0.run(component, keys)
    }

    /// The bindings as the component sees them when it brings them up to
    /// date.
    pub fn typed(self) -> (typed: Bindings<ComponentT>)
        ensures
            typed.bindings == self,
    {
        Bindings { bindings: self }
    }
}

/// The key bindings of a component as the component sees them: what it can
/// bind, and whether it takes part in key dispatch.
#[verifier::reject_recursive_types(ComponentT)]
pub struct Bindings<ComponentT: Component> {
    pub bindings: DynamicBindings<ComponentT>,
}

impl<ComponentT: Component> Bindings<ComponentT> {
    /// The keymap of the component.
    pub open spec fn map(self) -> Keymap {
        self.bindings.map()
    }

    /// Whether the component takes the chords that are typed.
    pub open spec fn has_focus(self) -> bool {
        self.bindings.has_focus()
    }

    /// Whether the component is told what the focused components make of the
    /// chords that are typed.
    pub open spec fn wants_notice(self) -> bool {
        self.bindings.wants_notice()
    }

    /// The bindings that the runtime holds, for the component to see.
    pub fn new(bindings: DynamicBindings<ComponentT>) -> (typed: Self)
        ensures
            typed.bindings == bindings,
    {
        Bindings { bindings }
    }

    /// Tells whether nothing is bound.
    #[inline]
    pub fn is_empty(&self) -> (empty: bool)
        ensures
            empty == (self.map().bindings() == Map::<Pattern, Query>::empty()),
    {
        self.bindings.is_empty()
    }

    /// Says whether the component takes the chords that are typed.
    #[inline]
    pub fn set_focus(&mut self, focused: bool)
        ensures
            final(self).has_focus() == focused,
            final(self).wants_notice() == old(self).wants_notice(),
            final(self).map() == old(self).map(),
            final(self).bindings.doings() == old(self).bindings.doings(),
    {
        self.bindings.set_focus(focused)
    }

    /// Tells whether the component takes the chords that are typed.
    #[inline]
    pub fn focused(&self) -> (focused: bool)
        ensures
            focused == self.has_focus(),
    {
        self.bindings.focused()
    }

    /// Says whether the component is told what the focused components make
    /// of the chords that are typed.
    #[inline]
    pub fn set_notify(&mut self, notify: bool)
        ensures
            final(self).wants_notice() == notify,
            final(self).has_focus() == old(self).has_focus(),
            final(self).map() == old(self).map(),
            final(self).bindings.doings() == old(self).bindings.doings(),
    {
        self.bindings.set_notify(notify)
    }

    /// Tells whether the component is told what the focused components make
    /// of the chords that are typed.
    #[inline]
    pub fn notify(&self) -> (notify: bool)
        ensures
            notify == self.wants_notice(),
    {
        self.bindings.notify()
    }

    /// Binds a pattern to the command that goes by `name` and gives the
    /// command something to do, if the keymap does not refuse the pattern.
    /// See [`DynamicBindings::try_add`].
    #[inline]
    pub fn try_add<const VARIANT: usize, FnT: CommandFn<ComponentT, VARIANT> + 'static>(
        &mut self,
        name: &str,
        pattern: KeyPattern,
        command_fn: FnT,
    ) -> (added: Result<CommandId, BindingConflict>)
        requires
            forall|component: ComponentT, keys: Seq<Key>| #[trigger]
                command_fn.accepts(&component, keys),
        ensures
            final(self).has_focus() == old(self).has_focus(),
            final(self).wants_notice() == old(self).wants_notice(),
            added is Err == refused(
                old(self).map().bindings(),
                named_command(old(self).map().names(), name@),
                pattern@,
            ),
            added matches Ok(id) ==> {
                &&& final(self).map().bindings() == bound_to(
                    old(self).map().bindings(),
                    id,
                    pattern@,
                )
                &&& id.index() < final(self).map().names().len()
                &&& final(self).map().names()[id.index() as int] == name@
                &&& DynamicBindings::does_now(
                    old(self).bindings,
                    final(self).bindings,
                    id,
                    command_fn,
                )
            },
            added matches Err(conflict) ==> {
                &&& final(self).map() == old(self).map()
                &&& final(self).bindings.doings() == old(self).bindings.doings()
                &&& conflict.pattern@ == pattern@
                &&& refuses(
                    old(self).map().bindings(),
                    conflict.command,
                    pattern@,
                    conflict.existing_pattern@,
                    conflict.existing_command,
                )
            },
    {
        self.bindings.try_add(name, pattern, command_fn)
    }

    /// Binds a pattern to the command that goes by `name` and gives the
    /// command something to do. The pattern must be one that the keymap does
    /// not refuse. See [`DynamicBindings::add`].
    #[inline]
    pub fn add<const VARIANT: usize, FnT: CommandFn<ComponentT, VARIANT> + 'static>(
        &mut self,
        name: &str,
        pattern: KeyPattern,
        command_fn: FnT,
    ) -> (id: CommandId)
        requires
            forall|component: ComponentT, keys: Seq<Key>| #[trigger]
                command_fn.accepts(&component, keys),
            !refused(
                old(self).map().bindings(),
                named_command(old(self).map().names(), name@),
                pattern@,
            ),
        ensures
            final(self).has_focus() == old(self).has_focus(),
            final(self).wants_notice() == old(self).wants_notice(),
            final(self).map().bindings() == bound_to(old(self).map().bindings(), id, pattern@),
            id.index() < final(self).map().names().len(),
            final(self).map().names()[id.index() as int] == name@,
            DynamicBindings::does_now(old(self).bindings, final(self).bindings, id, command_fn),
    {
        self.bindings.add(name, pattern, command_fn)
    }
}

/// How a key is written.
pub open spec fn key_text(key: Key) -> Seq<char> {
    match key {
        Key::Char(character) => if character == ' ' {
            "SPC"@
        } else if character == '\n' {
            "RET"@
        } else if character == '\t' {
            "TAB"@
        } else {
            seq![character]
        },
        Key::Ctrl(character) => "C-"@.push(character),
        Key::Alt(character) => "A-"@.push(character),
        Key::F(number) => "F"@ + decimal(number as nat),
        Key::Esc => "ESC"@,
        Key::Backspace => "Backspace"@,
        Key::Left => "Left"@,
        Key::Right => "Right"@,
        Key::Up => "Up"@,
        Key::Down => "Down"@,
        Key::Home => "Home"@,
        Key::End => "End"@,
        Key::PageUp => "PageUp"@,
        Key::PageDown => "PageDown"@,
        Key::BackTab => "BackTab"@,
        Key::Delete => "Delete"@,
        Key::Insert => "Insert"@,
        Key::Null => "Null"@,
    }
}

/// How a sequence of chords is written: chord by chord, with a space
/// between one and the next.
pub open spec fn sequence_text(keys: Seq<Key>) -> Seq<char>
    decreases keys.len(),
{
    if keys.len() == 0 {
        Seq::empty()
    } else if keys.len() == 1 {
        key_text(keys[0])
    } else {
        sequence_text(keys.drop_last()) + " "@ + key_text(keys.last())
    }
}

/// How the chords typed so far are written: chord by chord, with a space
/// after each.
pub open spec fn typed_text(keys: Seq<Key>) -> Seq<char>
    decreases keys.len(),
{
    if keys.len() == 0 {
        Seq::empty()
    } else {
        typed_text(keys.drop_last()) + key_text(keys.last()) + " "@
    }
}

/// Writes a key after a text.
pub fn push_key(text: &mut String, key: Key)
    ensures
        final(text)@ == old(text)@ + key_text(key),
{
    match key {
        Key::Char(character) => {
            if character == ' ' {
                text.append("SPC");
            } else if character == '\n' {
                text.append("RET");
            } else if character == '\t' {
                text.append("TAB");
            } else {
                push_char(text, character);
                assert(text@ =~= old(text)@ + seq![character]);
            }
        },
        Key::Ctrl(character) => {
            text.append("C-");
            push_char(text, character);
            assert(text@ =~= old(text)@ + "C-"@.push(character));
        },
        Key::Alt(character) => {
            text.append("A-");
            push_char(text, character);
            assert(text@ =~= old(text)@ + "A-"@.push(character));
        },
        Key::F(number) => {
            text.append("F");
            push_decimal(text, number as usize);
            assert(text@ =~= old(text)@ + ("F"@ + decimal(number as nat)));
        },
        Key::Esc => {
            text.append("ESC");
        },
        Key::Backspace => {
            text.append("Backspace");
        },
        Key::Left => {
            text.append("Left");
        },
        Key::Right => {
            text.append("Right");
        },
        Key::Up => {
            text.append("Up");
        },
        Key::Down => {
            text.append("Down");
        },
        Key::Home => {
            text.append("Home");
        },
        Key::End => {
            text.append("End");
        },
        Key::PageUp => {
            text.append("PageUp");
        },
        Key::PageDown => {
            text.append("PageDown");
        },
        Key::BackTab => {
            text.append("BackTab");
        },
        Key::Delete => {
            text.append("Delete");
        },
        Key::Insert => {
            text.append("Insert");
        },
        Key::Null => {
            text.append("Null");
        },
    }
}

/// A sequence of chords, to be written out.
#[derive(Debug, Clone, Copy, PartialEq, Eq)]
pub struct KeySequenceSlice<'a>(pub &'a [Key]);

impl<'a> KeySequenceSlice<'a> {
    /// The sequence of the given chords.
    pub fn from_keys(keys: &'a [Key]) -> (sequence: Self)
        ensures
            sequence.0@ == keys@,
    {
        KeySequenceSlice(keys)
    }

    /// Writes the sequence: chord by chord, with a space between one and the
    /// next.
    pub fn to_string(&self) -> (text: String)
        ensures
            text@ == sequence_text(self.0@),
    {
        let keys = self.0;
        let mut text = String::new();
        let mut index: usize = 0;
        while index < keys.len()
            invariant
                index <= keys@.len(),
                text@ == sequence_text(keys@.take(index as int)),
            decreases keys@.len() - index,
        {
            if index > 0 {
                text.append(" ");
            }
            push_key(&mut text, keys[index]);
            proof {
                let shorter = keys@.take(index as int);
                let longer = keys@.take(index as int + 1);
                assert(longer.drop_last() =~= shorter);
                assert(longer.last() == keys@[index as int]);
                if index == 0 {
                    assert(text@ =~= key_text(keys@[0]));
                } else {
                    assert(text@ =~= sequence_text(shorter) + " "@ + key_text(keys@[index as int]));
                }
            }
            index = index + 1;
        }
        assert(keys@.take(keys@.len() as int) == keys@);
        text
    }
}

/// Writes the chords typed so far: chord by chord, with a space after each.
pub fn typed_to_string(keys: &[Key]) -> (text: String)
    ensures
        text@ == typed_text(keys@),
{
    let mut text = String::new();
    let mut index: usize = 0;
    while index < keys.len()
        invariant
            index <= keys@.len(),
            text@ == typed_text(keys@.take(index as int)),
        decreases keys@.len() - index,
    {
        push_key(&mut text, keys[index]);
        text.append(" ");
        proof {
            let shorter = keys@.take(index as int);
            let longer = keys@.take(index as int + 1);
            assert(longer.drop_last() =~= shorter);
            assert(longer.last() == keys@[index as int]);
            assert(text@ =~= typed_text(shorter) + key_text(keys@[index as int]) + " "@);
        }
        index = index + 1;
    }
    assert(keys@.take(keys@.len() as int) == keys@);
    text
}

/// How a pattern is written.
pub open spec fn pattern_text(pattern: Pattern) -> Seq<char> {
    match pattern {
        Pattern::AnyCharacter => "Char(*)"@,
        Pattern::EndsWith(key) => key_text(key),
        Pattern::Keys(keys) => sequence_text(keys),
    }
}

impl KeyPattern {
    /// Writes the pattern.
    pub fn to_string(&self) -> (text: String)
        ensures
            text@ == pattern_text(self@),
    {
        match self {
            KeyPattern::AnyCharacter => String::from_str("Char(*)"),
            KeyPattern::EndsWith(key) => {
                let mut text = String::new();
                push_key(&mut text, *key);
                assert(text@ =~= key_text(*key));
                text
            },
            KeyPattern::Keys(keys) => KeySequenceSlice(keys.as_slice()).to_string(),
        }
    }
}

/// What is said of a binding that was refused, given the names of the two
/// commands.
pub open spec fn conflict_text(
    pattern: Pattern,
    name: Seq<char>,
    existing_pattern: Pattern,
    existing_name: Seq<char>,
) -> Seq<char> {
    "Binding `"@ + pattern_text(pattern) + "` for `"@ + name
        + "` is ambiguous as it overlaps with binding `"@ + pattern_text(existing_pattern)
        + "` for command `"@ + existing_name + "`"@
}

impl BindingConflict {
    /// Says why the binding was refused, naming the command that was to be
    /// bound and the command that is in its way.
    pub fn message(&self, name: &str, existing_name: &str) -> (text: String)
        ensures
            text@ == conflict_text(
                self.pattern@,
                name@,
                self.existing_pattern@,
                existing_name@,
            ),
    {
        let mut text = String::from_str("Binding `");
        let pattern = self.pattern.to_string();
        text.append(pattern.as_str());
        text.append("` for `");
        text.append(name);
        text.append("` is ambiguous as it overlaps with binding `");
        let existing = self.existing_pattern.to_string();
        text.append(existing.as_str());
        text.append("` for command `");
        text.append(existing_name);
        text.append("`");
        text
    }
}

/// A command that was just given something to do, to be bound to chords.
#[verifier::reject_recursive_types(ComponentT)]
pub struct BindingBuilder<'a, ComponentT: Component> {
    wrapped: &'a mut Bindings<ComponentT>,
    command_id: CommandId,
}

impl<ComponentT: Component> Bindings<ComponentT> {
    /// Gives the command that goes by `name` something to do, and hands it
    /// on to be bound to chords.
    pub fn command<'a, const VARIANT: usize, FnT: CommandFn<ComponentT, VARIANT> + 'static>(
        &'a mut self,
        name: &str,
        command_fn: FnT,
    ) -> (builder: BindingBuilder<'a, ComponentT>)
        requires
            forall|component: ComponentT, keys: Seq<Key>| #[trigger]
                command_fn.accepts(&component, keys),
        ensures
            builder.command().index() < builder.bindings().map().names().len(),
            builder.bindings().map().names()[builder.command().index() as int] == name@,
            builder.bindings().map().bindings() == old(self).map().bindings(),
            builder.bindings().has_focus() == old(self).has_focus(),
            builder.bindings().wants_notice() == old(self).wants_notice(),
            DynamicBindings::does_now(
                old(self).bindings,
                builder.bindings().bindings,
                builder.command(),
                command_fn,
            ),
    {
        let command_id = self.bindings.add_command(name, command_fn);
        BindingBuilder { wrapped: self, command_id }
    }
}

impl<'a, ComponentT: Component> BindingBuilder<'a, ComponentT> {
    /// The command has a name in the keymap.
    #[verifier::type_invariant]
    spec fn wf(self) -> bool {
        self.command_id.index() < self.wrapped.map().names().len()
    }

    /// The command that is being bound.
    pub closed spec fn command(self) -> CommandId {
        self.command_id
    }

    /// The bindings that the command belongs to.
    pub closed spec fn bindings(self) -> Bindings<ComponentT> {
        *self.wrapped
    }

    /// Binds the command to a pattern, if the keymap does not refuse it.
    /// See [`Keymap::try_bind_command`].
    pub fn try_with(self, pattern: KeyPattern) -> (bound: Result<Self, BindingConflict>)
        ensures
            bound is Err == refused(self.bindings().map().bindings(), self.command(), pattern@),
            bound matches Ok(builder) ==> {
                &&& builder.command() == self.command()
                &&& builder.bindings().map().names() == self.bindings().map().names()
                &&& builder.bindings().bindings.doings() == self.bindings().bindings.doings()
                &&& builder.bindings().map().bindings() == bound_to(
                    self.bindings().map().bindings(),
                    self.command(),
                    pattern@,
                )
            },
            bound matches Err(conflict) ==> {
                &&& conflict.command == self.command()
                &&& conflict.pattern@ == pattern@
                &&& refuses(
                    self.bindings().map().bindings(),
                    conflict.command,
                    pattern@,
                    conflict.existing_pattern@,
                    conflict.existing_command,
                )
            },
    {
        proof {
            use_type_invariant(&self);
        }
        let BindingBuilder { wrapped, command_id } = self;
        match wrapped.bindings.try_bind_command(command_id, pattern) {
            Ok(()) => Ok(BindingBuilder { wrapped, command_id }),
            Err(conflict) => Err(conflict),
        }
    }

    /// Binds the command to a pattern. The pattern must be one that the
    /// keymap does not refuse. See [`Keymap::bind_command`].
    pub fn with(self, pattern: KeyPattern) -> (builder: Self)
        requires
            !refused(self.bindings().map().bindings(), self.command(), pattern@),
        ensures
            builder.command() == self.command(),
            builder.bindings().map().names() == self.bindings().map().names(),
            builder.bindings().bindings.doings() == self.bindings().bindings.doings(),
            builder.bindings().map().bindings() == bound_to(
                self.bindings().map().bindings(),
                self.command(),
                pattern@,
            ),
            builder.bindings().has_focus() == self.bindings().has_focus(),
            builder.bindings().wants_notice() == self.bindings().wants_notice(),
    {
        proof {
            use_type_invariant(&self);
        }
        let BindingBuilder { wrapped, command_id } = self;
        wrapped.bindings.bind_command(command_id, pattern);
        BindingBuilder { wrapped, command_id }
    }
}

} // verus!
