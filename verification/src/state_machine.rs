//! The replicated state machine, and a key-value store as its plain implementation.

use vstd::hash_map::StringHashMap;
use vstd::prelude::*;

verus! {

/// Why a state machine refused a command.
#[derive(Debug, Clone)]
pub struct StateMachineError {
    pub reason: String,
}

/// What committed commands are applied to.
///
/// The three relations say what an implementation promises of its operations. Nothing is asked
/// of them, and one that is left out promises nothing: an implementation may fail, and need not
/// be deterministic.
pub trait StateMachine: Sized + Send + Sync {
    /// Setting `key` to `value` on `before` may leave `after` and return `result`.
    open spec fn set_applied(
        before: Self,
        key: Seq<char>,
        value: Seq<char>,
        after: Self,
        result: Result<(), StateMachineError>,
    ) -> bool {
        true
    }

    /// Deleting `key` on `before` may leave `after` and return `result`.
    open spec fn delete_applied(
        before: Self,
        key: Seq<char>,
        after: Self,
        result: Result<(), StateMachineError>,
    ) -> bool {
        true
    }

    /// Looking `key` up on `machine` may give `found`.
    open spec fn lookup_gives(machine: Self, key: Seq<char>, found: Option<Seq<char>>) -> bool {
        true
    }

    /// Sets `key` to `value`.
    fn apply_log(&mut self, key: String, value: String) -> (result: Result<(), StateMachineError>)
        ensures
            Self::set_applied(*old(self), key@, value@, *final(self), result),
    ;

    /// The value of `key`.
    fn get_value(&self, key: String) -> (found: Option<String>)
        ensures
            Self::lookup_gives(
                *self,
                key@,
                match found {
                    Some(value) => Some(value@),
                    None => None,
                },
            ),
    ;

    /// Deletes `key`.
    fn delete_key(&mut self, key: String) -> (result: Result<(), StateMachineError>)
        ensures
            Self::delete_applied(*old(self), key@, *final(self), result),
    ;
}

/// A key-value store in memory.
pub struct SimpleStateMachine {
    pub data_store: StringHashMap<String>,
}

impl View for SimpleStateMachine {
    type V = Map<Seq<char>, Seq<char>>;

    /// What is stored under each key.
    open spec fn view(&self) -> Map<Seq<char>, Seq<char>> {
        self.data_store@.map_values(|value: String| value@)
    }
}

impl SimpleStateMachine {
    /// An empty store.
    pub fn new() -> (machine: Self)
        ensures
            machine@ == Map::<Seq<char>, Seq<char>>::empty(),
    {
        let machine = SimpleStateMachine { data_store: StringHashMap::new() };
        assert(machine@ =~= Map::<Seq<char>, Seq<char>>::empty());
        machine
    }
}

impl StateMachine for SimpleStateMachine {
    open spec fn set_applied(
        before: Self,
        key: Seq<char>,
        value: Seq<char>,
        after: Self,
        result: Result<(), StateMachineError>,
    ) -> bool {
        result == Ok::<(), StateMachineError>(()) && after@ == before@.insert(key, value)
    }

    open spec fn delete_applied(
        before: Self,
        key: Seq<char>,
        after: Self,
        result: Result<(), StateMachineError>,
    ) -> bool {
        result == Ok::<(), StateMachineError>(()) && after@ == before@.remove(key)
    }

    open spec fn lookup_gives(machine: Self, key: Seq<char>, found: Option<Seq<char>>) -> bool {
        found == if machine@.contains_key(key) {
            Some(machine@[key])
        } else {
            None
        }
    }

    fn apply_log(&mut self, key: String, value: String) -> (result: Result<(), StateMachineError>) {
        let ghost before = self@;
        let ghost key_chars = key@;
        let ghost value_chars = value@;
        self.data_store.insert(key, value);
        assert(self@ =~= before.insert(key_chars, value_chars));
        Ok(())
    }

    fn get_value(&self, key: String) -> (found: Option<String>) {
        match self.data_store.get(key.as_str()) {
            Some(value) => Some(value.clone()),
            None => None,
        }
    }

    fn delete_key(&mut self, key: String) -> (result: Result<(), StateMachineError>) {
        let ghost before = self@;
        self.data_store.remove(key.as_str());
        assert(self@ =~= before.remove(key@));
        Ok(())
    }
}

/// What was set is what is read, until it is deleted; and other keys are not affected by either.
pub proof fn law_read_gives_last_write(
    before: SimpleStateMachine,
    key: Seq<char>,
    value: Seq<char>,
    after: SimpleStateMachine,
    result: Result<(), StateMachineError>,
    asked: Seq<char>,
    found: Option<Seq<char>>,
)
    requires
        SimpleStateMachine::lookup_gives(after, asked, found),
    ensures
        SimpleStateMachine::set_applied(before, key, value, after, result) ==> if asked == key {
            found == Some(value)
        } else {
            SimpleStateMachine::lookup_gives(before, asked, found)
        },
        SimpleStateMachine::delete_applied(before, key, after, result) ==> if asked == key {
            found is None
        } else {
            SimpleStateMachine::lookup_gives(before, asked, found)
        },
{
}

} // verus!
