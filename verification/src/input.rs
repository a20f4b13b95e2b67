//! Keys, the inputs that they stand for, and the map from the ones to the
//! others.
use crate::dungeon::Direction;
use vstd::prelude::*;

verus! {

/// A key of the keyboard.
#[derive(Clone, Copy, Debug, PartialEq, Eq, Structural, Hash)]
pub enum Key {
    Char(char),
    Ctrl(char),
    Alt(char),
    Esc,
    Enter,
    Backspace,
    Delete,
    Up,
    Down,
    Left,
    Right,
}

/// An input that speaks to the interface.
#[derive(Clone, Copy, Debug, PartialEq, Eq, Structural, Hash)]
pub enum System {
    Cancel,
    Continue,
    Enter,
    Inventory,
    No,
    Quit,
    Save,
    Yes,
}

/// An input that moves the player.
#[derive(Clone, Copy, Debug, PartialEq, Eq, Structural, Hash)]
pub enum Action {
    DownStair,
    UpStair,
    Move(Direction),
    MoveUntil(Direction),
    Search,
}

/// What a key stands for.
#[derive(Clone, Copy, Debug, PartialEq, Eq, Structural, Hash)]
pub enum InputCode {
    /// An action, whatever the state of the interface.
    Act(Action),
    /// An action in the dungeon, a system input in front of a dialog.
    Both { act: Action, sys: System },
    /// A system input, whatever the state of the interface.
    Sys(System),
}

/// The binding of `key` in the bindings `pairs`: that of the first pair that
/// holds the key.
pub open spec fn bound_to(pairs: Seq<(Key, InputCode)>, key: Key) -> Option<InputCode>
    decreases pairs.len(),
{
    if pairs.len() == 0 {
        None
    } else if pairs[0].0 == key {
        Some(pairs[0].1)
    } else {
        bound_to(pairs.drop_first(), key)
    }
}

/// The inputs that the keys are bound to. Its view maps each bound key to its
/// input.
#[derive(Clone, Debug)]
pub struct KeyMap {
    inner: Vec<(Key, InputCode)>,
}

impl View for KeyMap {
    type V = Map<Key, InputCode>;

    closed spec fn view(&self) -> Map<Key, InputCode> {
        Map::new(
            |key: Key| bound_to(self.inner@, key).is_some(),
            |key: Key| bound_to(self.inner@, key).unwrap(),
        )
    }
}

/// A key that is none of the keys of `pairs` has no binding there.
proof fn lemma_unbound(pairs: Seq<(Key, InputCode)>, key: Key)
    requires
        forall|i: int| 0 <= i < pairs.len() ==> pairs[i].0 != key,
    ensures
        bound_to(pairs, key).is_none(),
    decreases pairs.len(),
{
    if pairs.len() > 0 {
        lemma_unbound(pairs.drop_first(), key);
    }
}

/// The binding of a key is found behind pairs that hold other keys.
proof fn lemma_bound_behind(pairs: Seq<(Key, InputCode)>, at: int, key: Key)
    requires
        0 <= at < pairs.len(),
        pairs[at].0 == key,
        forall|i: int| 0 <= i < at ==> pairs[i].0 != key,
    ensures
        bound_to(pairs, key) == Some(pairs[at].1),
    decreases at,
{
    if at > 0 {
        lemma_bound_behind(pairs.drop_first(), at - 1, key);
    }
}

/// Replacing the input of the pair at `at` changes the binding of its key and
/// of no other.
proof fn lemma_rebound(pairs: Seq<(Key, InputCode)>, at: int, code: InputCode, other: Key)
    requires
        0 <= at < pairs.len(),
    ensures
        other != pairs[at].0 ==> bound_to(pairs.update(at, (pairs[at].0, code)), other)
            == bound_to(pairs, other),
    decreases pairs.len(),
{
    let after = pairs.update(at, (pairs[at].0, code));
    if at > 0 {
        assert(after.drop_first() =~= pairs.drop_first().update(
            at - 1,
            (pairs[at].0, code),
        ));
        lemma_rebound(pairs.drop_first(), at - 1, code, other);
    } else {
        assert(after.drop_first() =~= pairs.drop_first());
    }
}

/// A pair added at the end binds its key where no pair before it does, and
/// changes no other binding.
proof fn lemma_bound_pushed(pairs: Seq<(Key, InputCode)>, key: Key, code: InputCode, other: Key)
    ensures
        bound_to(pairs.push((key, code)), other) == if bound_to(pairs, other).is_some() {
            bound_to(pairs, other)
        } else if other == key {
            Some(code)
        } else {
            None
        },
    decreases pairs.len(),
{
    let after = pairs.push((key, code));
    if pairs.len() > 0 {
        assert(after.drop_first() =~= pairs.drop_first().push((key, code)));
        assert(after[0] == pairs[0]);
        lemma_bound_pushed(pairs.drop_first(), key, code, other);
    } else {
        assert(after.drop_first() =~= Seq::<(Key, InputCode)>::empty());
        assert(after[0] == (key, code));
        assert(bound_to(after.drop_first(), other).is_none());
    }
}

impl KeyMap {
    /// A map that binds no key.
    pub fn new() -> (map: KeyMap)
        ensures
            map@ == Map::<Key, InputCode>::empty(),
    {
        let map = KeyMap { inner: Vec::new() };
        assert(map@ =~= Map::<Key, InputCode>::empty());
        map
    }

    /// The position of the first pair that holds `key`.
    fn position(&self, key: Key) -> (at: Option<usize>)
        ensures
            match at {
                Some(i) => {
                    &&& i < self.inner@.len()
                    &&& self.inner@[i as int].0 == key
                    &&& forall|k: int| 0 <= k < i ==> self.inner@[k].0 != key
                    &&& bound_to(self.inner@, key) == Some(self.inner@[i as int].1)
                },
                None => bound_to(self.inner@, key).is_none(),
            },
    {
        let mut i: usize = 0;
        while i < self.inner.len()
            invariant
                i <= self.inner@.len(),
                forall|k: int| 0 <= k < i ==> self.inner@[k].0 != key,
            decreases self.inner@.len() - i,
        {
            if self.inner[i].0 == key {
                proof {
                    lemma_bound_behind(self.inner@, i as int, key);
                }
                return Some(i);
            }
            i = i + 1;
        }
        proof {
            lemma_unbound(self.inner@, key);
        }
        None
    }

    /// The input that `key` is bound to.
    pub fn get(&self, key: Key) -> (code: Option<InputCode>)
        ensures
            code == if self@.contains_key(key) {
                Some(self@[key])
            } else {
                None
            },
    {
        match self.position(key) {
            Some(i) => Some(self.inner[i].1),
            None => None,
        }
    }

    /// The bindings as pairs of a key and its input; the first pair that holds
    /// a key gives its input.
    pub fn to_vec(&self) -> (pairs: Vec<(Key, InputCode)>)
        ensures
            forall|key: Key|
                #[trigger] bound_to(pairs@, key) == if self@.contains_key(key) {
                    Some(self@[key])
                } else {
                    None
                },
    {
        let mut pairs: Vec<(Key, InputCode)> = Vec::new();
        let mut i: usize = 0;
        while i < self.inner.len()
            invariant
                i <= self.inner@.len(),
                pairs@ == self.inner@.subrange(0, i as int),
            decreases self.inner@.len() - i,
        {
            pairs.push(self.inner[i]);
            assert(pairs@ =~= self.inner@.subrange(0, i + 1));
            i = i + 1;
        }
        assert(pairs@ =~= self.inner@);
        pairs
    }

    /// Binds `key` to `code`, and returns the input that it was bound to.
    pub fn insert(&mut self, key: Key, code: InputCode) -> (previous: Option<InputCode>)
        ensures
            final(self)@ == old(self)@.insert(key, code),
            previous == if old(self)@.contains_key(key) {
                Some(old(self)@[key])
            } else {
                None
            },
    {
        let ghost before = self.inner@;
        match self.position(key) {
            Some(i) => {
                let previous = self.inner[i].1;
                self.inner.set(i, (key, code));
                proof {
                    assert(self.inner@ == before.update(i as int, (before[i as int].0, code)));
                    assert forall|other: Key| #[trigger]
                        bound_to(self.inner@, other) == if other == key {
                            Some(code)
                        } else {
                            bound_to(before, other)
                        } by {
                        lemma_rebound(before, i as int, code, other);
                        if other == key {
                            lemma_bound_behind(self.inner@, i as int, key);
                        }
                    }
                    assert(self@ =~= old(self)@.insert(key, code));
                }
                Some(previous)
            },
            None => {
                self.inner.push((key, code));
                proof {
                    assert forall|other: Key| #[trigger]
                        bound_to(self.inner@, other) == if other == key {
                            Some(code)
                        } else {
                            bound_to(before, other)
                        } by {
                        lemma_bound_pushed(before, key, code, other);
                    }
                    assert(self@ =~= old(self)@.insert(key, code));
                }
                None
            },
        }
    }
}

} // verus!
