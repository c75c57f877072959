use vstd::prelude::*;
use vstd::std_specs::cmp::PartialEqSpec;

verus! {

/// A wrapper around a value that tracks whether it has changed.
///
/// `update` assigns a new value and reports whether the value actually
/// changed, so that callers can skip work when it is already up to date.
#[derive(Debug)]
pub struct State<T>(T);

impl<T> State<T> {
    /// The wrapped value.
    pub closed spec fn value(&self) -> T {
        self.0
    }

    pub fn new(value: T) -> (s: Self)
        ensures
            s.value() == value,
    {
        State(value)
    }

    /// Read access to the wrapped value.
    pub fn get(&self) -> (r: &T)
        ensures
            *r == self.value(),
    {
        &self.0
    }

    /// Assigns the wrapped value without comparing.
    pub fn set(&mut self, value: T)
        ensures
            final(self).value() == value,
    {
        self.0 = value;
    }
}

/// The value after `update` with `new` from `old`: `new`, unless the two
/// are equal.
pub open spec fn updated<T: PartialEq>(old: T, new: T) -> T {
    if old.eq_spec(&new) {
        old
    } else {
        new
    }
}

/// What `replace` with `new` gives back from `old`, and the value after it.
pub open spec fn replaced<T: PartialEq>(old: T, new: T) -> (Option<T>, T) {
    if old.eq_spec(&new) {
        (None, old)
    } else {
        (Some(old), new)
    }
}

/// Updating twice with the same value changes nothing the second time:
/// where `v` equals itself, the value after one update equals `v`, and a
/// second update keeps it.
pub proof fn law_update_idempotent<T: PartialEq>(x: T, v: T)
    requires
        v.eq_spec(&v),
    ensures
        updated(x, v).eq_spec(&v),
        updated(updated(x, v), v) == updated(x, v),
{
}

/// Replacing back with the value that `replace` gave back restores the
/// state: where `a` and `b` differ either way round, replacing `a` by `b`
/// gives back `a`, and replacing `b` by `a` then gives back `b`.
pub proof fn law_replace_round_trip<T: PartialEq>(a: T, b: T)
    requires
        !a.eq_spec(&b),
        !b.eq_spec(&a),
    ensures
        replaced(a, b) == (Some(a), b),
        replaced(replaced(a, b).1, a) == (Some(b), a),
{
}

impl<T: PartialEq> State<T> {
    /// Assigns `new` to the inner value; returns `true` if the value changed,
    /// that is, if `new` is not equal to the old value.
    pub fn update(&mut self, new: T) -> (changed: bool)
        ensures
            changed ==> final(self).value() == new,
            !changed ==> final(self).value() == old(self).value(),
            T::obeys_eq_spec() ==> changed == !old(self).value().eq_spec(&new),
            T::obeys_eq_spec() ==> final(self).value() == updated(old(self).value(), new),
    {
        if self.0 == new {
            return false;
        }
        self.0 = new;
        true
    }

    /// Replaces the inner value and returns the old one, or returns `None`
    /// and keeps the value where `new` equals it.
    pub fn replace(&mut self, new: T) -> (r: Option<T>)
        ensures
            r is None ==> final(self).value() == old(self).value(),
            r is Some ==> r == Some(old(self).value()) && final(self).value() == new,
            T::obeys_eq_spec() ==> (r, final(self).value()) == replaced(old(self).value(), new),
    {
        if self.0 == new {
            return None;
        }
        let mut value = new;
        std::mem::swap(&mut self.0, &mut value);
        Some(value)
    }
}

/// `String::clear`: the string becomes empty.
pub assume_specification[ String::clear ](s: &mut String)
    ensures
        final(s)@ == Seq::<char>::empty(),
;

/// `String::push_str`: the text of `string` is appended.
pub assume_specification[ String::push_str ](s: &mut String, string: &str)
    ensures
        final(s)@ == old(s)@ + string@,
;

impl State<String> {
    /// Updates a string in place; returns `true` if its text changed.
    pub fn update_str(&mut self, new: &str) -> (changed: bool)
        ensures
            changed == (old(self).value()@ != new@),
            final(self).value()@ == new@,
    {
        if crate::settings::text_eq(self.0.as_str(), new) {
            return false;
        }
        self.0.clear();
        self.0.push_str(new);
        proof {
            assert(self.0@ =~= new@);
        }
        true
    }
}

} // verus!
