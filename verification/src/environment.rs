//! The shared environment: a name-keyed store that the director owns and
//! lends to one command at a time.

use vstd::hash_map::StringHashMap;
use vstd::prelude::*;
use vstd::std_specs::iter::IteratorSpec;

verus! {

/// Names whose meaning is fixed by the director.
pub struct WellKnownVariables;

impl WellKnownVariables {
    /// The continuation-mode flag: `1` paces the program one command per
    /// frame, any other value keeps starting commands within the same frame.
    pub const RUN_MODE: &'static str = "run_mode";
}

/// A value stored under a name.
///
/// Real numbers are held as the bit pattern of a single-precision number, so
/// that the store itself never computes with them.
#[derive(Clone, Debug, PartialEq, Eq)]
pub enum Value {
    /// A whole number.
    Int(i32),
    /// A real number, as its bit pattern.
    Real(u32),
    /// A piece of text.
    Text(String),
    /// A point or direction in space: the bit patterns of its components.
    Vector(u32, u32, u32),
    /// Bytes whose meaning is private to the commands that exchange them.
    Payload(Vec<u8>),
}

/// What the store holds, as a map from names to values.
pub type Bindings = Map<Seq<char>, Value>;

/// The flag is bound, and bound to a whole number.
pub open spec fn has_run_mode(bindings: Bindings) -> bool {
    bindings.contains_key(WellKnownVariables::RUN_MODE@)
        && bindings[WellKnownVariables::RUN_MODE@] is Int
}

/// The value of the continuation-mode flag in `bindings`.
pub open spec fn run_mode_of(bindings: Bindings) -> i32 {
    bindings[WellKnownVariables::RUN_MODE@]->Int_0
}

/// `name` may be bound to `value`: the flag only takes whole numbers.
pub open spec fn may_bind(name: Seq<char>, value: Value) -> bool {
    name == WellKnownVariables::RUN_MODE@ ==> value is Int
}

/// The bindings of a freshly made environment: the flag alone, set to `1`.
pub open spec fn initial_bindings() -> Bindings {
    Map::<Seq<char>, Value>::empty().insert(WellKnownVariables::RUN_MODE@, Value::Int(1))
}

/// The shared environment.
///
/// The continuation-mode flag is always bound to a whole number: no
/// operation removes it or gives it a value of another kind.
pub struct Environment {
    flag: Value,
    others: StringHashMap<Value>,
}

impl View for Environment {
    type V = Bindings;

    closed spec fn view(&self) -> Bindings {
        self.others@.insert(WellKnownVariables::RUN_MODE@, self.flag)
    }
}

/// Whether two names hold the same characters.
fn same_name(a: &str, b: &str) -> (same: bool)
    ensures
        same == (a@ == b@),
{
    broadcast use vstd::string::group_string_axioms;

    let mut left = a.chars();
    let mut right = b.chars();
    let mut same = true;
    let ghost mut n: int = 0;
    loop
        invariant_except_break
            0 <= n <= a@.len(),
            n <= b@.len(),
            left.remaining() == a@.skip(n),
            right.remaining() == b@.skip(n),
            a@.take(n) == b@.take(n),
            left.decrease() is Some,
        ensures
            same == (a@ == b@),
        decreases left.decrease()->0,
    {
        let x = left.next();
        let y = right.next();
        match (x, y) {
            (None, None) => {
                assert(a@ =~= a@.take(n) && b@ =~= b@.take(n));
                same = true;
                break ;
            },
            (Some(x), Some(y)) => {
                assert(x == a@[n] && y == b@[n]);
                if x != y {
                    same = false;
                    break ;
                }
                assert(a@.skip(n).drop_first() =~= a@.skip(n + 1));
                assert(b@.skip(n).drop_first() =~= b@.skip(n + 1));
                assert(a@.take(n + 1) =~= a@.take(n).push(x));
                assert(b@.take(n + 1) =~= b@.take(n).push(y));
                proof {
                    n = n + 1;
                }
            },
            _ => {
                assert(a@.len() != b@.len());
                same = false;
                break ;
            },
        }
    }
    same
}

impl Environment {
    #[verifier::type_invariant]
    spec fn flag_is_whole(self) -> bool {
        self.flag is Int
    }

    /// An environment that binds the continuation-mode flag to `1` and
    /// nothing else.
    pub fn new() -> (env: Self)
        ensures
            env@ == initial_bindings(),
    {
        Environment { flag: Value::Int(1), others: StringHashMap::new() }
    }

    /// The value bound to `name`, if any.
    pub fn get(&self, name: &str) -> (value: Option<&Value>)
        ensures
            has_run_mode(self@),
            match value {
                Some(v) => self@.contains_key(name@) && *v == self@[name@],
                None => !self@.contains_key(name@),
            },
    {
        proof {
            use_type_invariant(self);
        }
        if same_name(name, WellKnownVariables::RUN_MODE) {
            Some(&self.flag)
        } else {
            self.others.get(name)
        }
    }

    /// Whether `name` may be bound to `value`: every name takes every value,
    /// but the continuation-mode flag only takes whole numbers.
    pub fn accepts(name: &str, value: &Value) -> (accepted: bool)
        ensures
            accepted == may_bind(name@, *value),
    {
        match value {
            Value::Int(_) => true,
            _ => !same_name(name, WellKnownVariables::RUN_MODE),
        }
    }

    /// Binds `name` to `value`, replacing what was bound to it.
    ///
    /// The continuation-mode flag only takes whole numbers.
    pub fn set(&mut self, name: &str, value: Value)
        requires
            may_bind(name@, value),
        ensures
            final(self)@ == old(self)@.insert(name@, value),
            has_run_mode(final(self)@),
    {
        proof {
            use_type_invariant(&*self);
        }
        if same_name(name, WellKnownVariables::RUN_MODE) {
            self.flag = value;
        } else {
            let mut others = StringHashMap::new();
            core::mem::swap(&mut others, &mut self.others);
            others.insert(name.to_owned(), value);
            self.others = others;
        }
    }

    /// The whole number bound to `name`.
    ///
    /// The caller knows that `name` is bound to a whole number.
    pub fn get_int(&self, name: &str) -> (number: i32)
        requires
            self@.contains_key(name@),
            self@[name@] is Int,
        ensures
            self@[name@] == Value::Int(number),
    {
        match self.get(name) {
            Some(Value::Int(number)) => *number,
            _ => 0,
        }
    }

    /// The continuation-mode flag.
    pub fn run_mode(&self) -> (mode: i32)
        ensures
            has_run_mode(self@),
            mode == run_mode_of(self@),
    {
        proof {
            use_type_invariant(self);
        }
        match &self.flag {
            Value::Int(mode) => *mode,
            _ => 1,
        }
    }

    /// Sets the continuation-mode flag.
    pub fn set_run_mode(&mut self, mode: i32)
        ensures
            final(self)@ == old(self)@.insert(WellKnownVariables::RUN_MODE@, Value::Int(mode)),
            has_run_mode(final(self)@),
            run_mode_of(final(self)@) == mode,
    {
        self.flag = Value::Int(mode);
    }
}

} // verus!
