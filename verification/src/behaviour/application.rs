//! What committed commands make of the state machine.
use vstd::prelude::*;

use crate::model::{
    apply_command, apply_entries, lemma_apply_other, lemma_apply_set, LogEntryView, NodeView,
    ReceivedView,
};

verus! {

/// A last entry `key=value` gives the key that value, and leaves every other key what the entries
/// before it made of it.
pub proof fn law_last_entry_sets_its_key(
    kv: Map<Seq<char>, Seq<char>>,
    entries: Seq<LogEntryView>,
    key: Seq<char>,
    value: Seq<char>,
    other: Seq<char>,
)
    requires
        entries.len() > 0,
        !key.contains('='),
        entries[entries.len() - 1].command == key.push('=') + value,
        other != key,
    ensures
        ({
            let before = apply_entries(kv, entries.take(entries.len() - 1));
            let after = apply_entries(kv, entries);
            &&& after.contains_key(key)
            &&& after[key] == value
            &&& after.contains_key(other) == before.contains_key(other)
            &&& before.contains_key(other) ==> after[other] == before[other]
        }),
{
    assert(entries.drop_last() =~= entries.take(entries.len() - 1));
    lemma_apply_set(apply_entries(kv, entries.drop_last()), key, value);
}

/// A last entry without an equals sign changes nothing, and no entries change nothing.
pub proof fn law_other_last_entry_changes_nothing(
    kv: Map<Seq<char>, Seq<char>>,
    entries: Seq<LogEntryView>,
)
    requires
        entries.len() > 0 ==> !entries[entries.len() - 1].command.contains('='),
    ensures
        entries.len() > 0 ==> apply_entries(kv, entries) == apply_entries(
            kv,
            entries.take(entries.len() - 1),
        ),
        entries.len() == 0 ==> apply_entries(kv, entries) == kv,
{
    if entries.len() > 0 {
        assert(entries.drop_last() =~= entries.take(entries.len() - 1));
        lemma_apply_other(apply_entries(kv, entries.drop_last()), entries.last().command);
    }
}

/// Whatever a command is, it leaves a key alone that it does not set.
proof fn lemma_key_not_set(kv: Map<Seq<char>, Seq<char>>, command: Seq<char>, key: Seq<char>)
    requires
        forall|v: Seq<char>| command != #[trigger] (key.push('=') + v),
    ensures
        apply_command(kv, command).contains_key(key) == kv.contains_key(key),
        kv.contains_key(key) ==> apply_command(kv, command)[key] == kv[key],
{
    command.index_of_first_ensures('=');
    if let Some(at) = command.index_of_first('=') {
        if command.take(at) == key {
            let v = command.skip(at + 1);
            assert(command =~= key.push('=') + v) by {
                assert(key.len() == at);
                assert forall|i: int| 0 <= i < command.len() implies command[i] == (key.push('=')
                    + v)[i] by {
                    if i < at {
                        assert(command.take(at)[i] == command[i]);
                    } else if i > at {
                        assert(v[i - at - 1] == command[i]);
                    }
                }
            }
            assert(false);
        }
    }
}

/// A key that no entry sets stays as it is.
pub proof fn law_key_that_no_entry_sets_stays(
    kv: Map<Seq<char>, Seq<char>>,
    entries: Seq<LogEntryView>,
    key: Seq<char>,
)
    requires
        forall|i: int, v: Seq<char>|
            #![trigger entries[i], key.push('=') + v]
            0 <= i < entries.len() ==> entries[i].command != key.push('=') + v,
    ensures
        apply_entries(kv, entries).contains_key(key) == kv.contains_key(key),
        kv.contains_key(key) ==> apply_entries(kv, entries)[key] == kv[key],
    decreases entries.len(),
{
    if entries.len() > 0 {
        let init = entries.drop_last();
        assert forall|i: int, v: Seq<char>|
            #![trigger init[i], key.push('=') + v]
            0 <= i < init.len() implies init[i].command != key.push('=') + v by {
            assert(init[i] == entries[i]);
        }
        law_key_that_no_entry_sets_stays(kv, init, key);
        assert forall|v: Seq<char>| entries.last().command != #[trigger] (key.push('=') + v) by {
            assert(entries[entries.len() - 1].command != key.push('=') + v);
        }
        lemma_key_not_set(apply_entries(kv, init), entries.last().command, key);
    }
}

/// The last entry that sets a key decides its value, however many entries there are.
pub proof fn law_last_setting_of_a_key_wins(
    kv: Map<Seq<char>, Seq<char>>,
    entries: Seq<LogEntryView>,
    at: int,
    key: Seq<char>,
    value: Seq<char>,
)
    requires
        0 <= at < entries.len(),
        !key.contains('='),
        entries[at].command == key.push('=') + value,
        forall|i: int, v: Seq<char>|
            #![trigger entries[i], key.push('=') + v]
            at < i < entries.len() ==> entries[i].command != key.push('=') + v,
    ensures
        apply_entries(kv, entries).contains_key(key),
        apply_entries(kv, entries)[key] == value,
    decreases entries.len(),
{
    let init = entries.drop_last();
    let last = entries.last().command;
    if at == entries.len() - 1 {
        lemma_apply_set(apply_entries(kv, init), key, value);
    } else {
        assert(init[at] == entries[at]);
        assert forall|i: int, v: Seq<char>|
            #![trigger init[i], key.push('=') + v]
            at < i < init.len() implies init[i].command != key.push('=') + v by {
            assert(init[i] == entries[i]);
        }
        law_last_setting_of_a_key_wins(kv, init, at, key, value);
        assert forall|v: Seq<char>| last != #[trigger] (key.push('=') + v) by {
            assert(entries[entries.len() - 1].command != key.push('=') + v);
        }
        lemma_key_not_set(apply_entries(kv, init), last, key);
    }
}

/// What an event adds to the applied entries is what it makes of the state machine.
proof fn lemma_tick_applies(s: NodeView, now: u64, timeout: u64, received: ReceivedView)
    ensures
        ({
            let n = s.tick(now, timeout, received).node;
            &&& n.last_applied >= s.last_applied
            &&& n.last_applied == s.last_applied ==> n.state_machine == s.state_machine
            &&& n.last_applied > s.last_applied ==> {
                &&& n.last_applied <= n.log.len()
                &&& n.state_machine == apply_entries(
                    s.state_machine,
                    n.log.subrange(s.last_applied as int, n.last_applied as int),
                )
            }
        }),
{
}

/// Every event applies entries of the log from where the node stood, and a key that one of them
/// sets, and none behind it sets anew, has that value afterwards.
pub proof fn law_applied_command_sets_its_key(
    s: NodeView,
    now: u64,
    timeout: u64,
    received: ReceivedView,
    at: int,
    key: Seq<char>,
    value: Seq<char>,
)
    requires
        ({
            let n = s.tick(now, timeout, received).node;
            &&& s.last_applied <= at < n.last_applied
            &&& n.log[at].command == key.push('=') + value
            &&& forall|i: int, v: Seq<char>|
                #![trigger n.log[i], key.push('=') + v]
                at < i < n.last_applied ==> n.log[i].command != key.push('=') + v
        }),
        !key.contains('='),
    ensures
        ({
            let n = s.tick(now, timeout, received).node;
            &&& n.last_applied <= n.log.len()
            &&& n.state_machine.contains_key(key)
            &&& n.state_machine[key] == value
        }),
{
    let n = s.tick(now, timeout, received).node;
    lemma_tick_applies(s, now, timeout, received);
    let start = s.last_applied as int;
    let entries = n.log.subrange(start, n.last_applied as int);
    assert(entries[at - start] == n.log[at]);
    assert forall|i: int, v: Seq<char>|
        #![trigger entries[i], key.push('=') + v]
        at - start < i < entries.len() implies entries[i].command != key.push('=') + v by {
        assert(entries[i] == n.log[i + start]);
    }
    law_last_setting_of_a_key_wins(s.state_machine, entries, at - start, key, value);
}

/// A key that no newly applied entry sets keeps its value, or stays absent.
pub proof fn law_key_that_is_not_set_stays(
    s: NodeView,
    now: u64,
    timeout: u64,
    received: ReceivedView,
    key: Seq<char>,
)
    requires
        ({
            let n = s.tick(now, timeout, received).node;
            forall|i: int, v: Seq<char>|
                #![trigger n.log[i], key.push('=') + v]
                s.last_applied <= i < n.last_applied ==> n.log[i].command != key.push('=') + v
        }),
    ensures
        ({
            let n = s.tick(now, timeout, received).node;
            &&& n.state_machine.contains_key(key) == s.state_machine.contains_key(key)
            &&& s.state_machine.contains_key(key) ==> n.state_machine[key] == s.state_machine[key]
        }),
{
    let n = s.tick(now, timeout, received).node;
    lemma_tick_applies(s, now, timeout, received);
    if n.last_applied > s.last_applied {
        let start = s.last_applied as int;
        let entries = n.log.subrange(start, n.last_applied as int);
        assert forall|i: int, v: Seq<char>|
            #![trigger entries[i], key.push('=') + v]
            0 <= i < entries.len() implies entries[i].command != key.push('=') + v by {
            assert(entries[i] == n.log[i + start]);
        }
        law_key_that_no_entry_sets_stays(s.state_machine, entries, key);
    }
}

/// One command by itself: `key=value`, split at its first equals sign, sets the key.
pub proof fn law_command_splits_at_first_equals_sign(
    kv: Map<Seq<char>, Seq<char>>,
    key: Seq<char>,
    value: Seq<char>,
)
    requires
        !key.contains('='),
    ensures
        apply_command(kv, key.push('=') + value) == kv.insert(key, value),
{
    lemma_apply_set(kv, key, value);
}

} // verus!
