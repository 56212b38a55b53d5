use std::rc::Rc;
use vstd::prelude::*;

verus! {

/// A heap object. Strings are the only objects of the language.
pub enum Obj {
    String(String),
}

/// A runtime value of the language.
///
/// A number is carried as the bit pattern of an IEEE-754 binary64 value: the
/// library moves numbers around and checks their type, while the arithmetic on
/// them is carried out by the embedding program (see `vm::NumericTask`).
pub enum Value {
    Bool(bool),
    Nil,
    Number(u64),
    Obj(Rc<Obj>),
}

/// What a value is, with a string taken as its characters.
pub enum ValueModel {
    Bool(bool),
    Nil,
    Number(u64),
    Str(Seq<char>),
}

impl View for Value {
    type V = ValueModel;

    open spec fn view(&self) -> ValueModel {
        match self {
            Value::Bool(b) => ValueModel::Bool(*b),
            Value::Nil => ValueModel::Nil,
            Value::Number(n) => ValueModel::Number(*n),
            Value::Obj(o) => match **o {
                Obj::String(s) => ValueModel::Str(s@),
            },
        }
    }
}

/// Only `nil` and `false` are falsey; every other value is truthy.
pub open spec fn falsey(v: ValueModel) -> bool {
    match v {
        ValueModel::Nil => true,
        ValueModel::Bool(b) => !b,
        _ => false,
    }
}

/// Equality of two values that are not both numbers: values of different kinds
/// are never equal.
pub open spec fn equal_values(a: ValueModel, b: ValueModel) -> bool {
    match (a, b) {
        (ValueModel::Bool(x), ValueModel::Bool(y)) => x == y,
        (ValueModel::Nil, ValueModel::Nil) => true,
        (ValueModel::Str(x), ValueModel::Str(y)) => x == y,
        _ => false,
    }
}

/// How a value that is not a number is displayed.
pub open spec fn display_text(v: ValueModel) -> Seq<char> {
    match v {
        ValueModel::Bool(b) => if b { "true"@ } else { "false"@ },
        ValueModel::Nil => "nil"@,
        ValueModel::Str(s) => s,
        ValueModel::Number(_) => Seq::empty(),
    }
}

impl Value {
    /// The characters of a string value.
    pub fn as_str(&self) -> (r: Option<&str>)
        ensures
            match self@ {
                ValueModel::Str(s) => r is Some && r->0@ == s,
                _ => r is None,
            },
    {
        match self {
            Value::Obj(o) => match &**o {
                Obj::String(s) => Some(s.as_str()),
            },
            _ => None,
        }
    }

    pub fn is_string(&self) -> (r: bool)
        ensures
            r == (self@ is Str),
    {
        self.as_str().is_some()
    }

    pub fn from_string(s: String) -> (r: Value)
        ensures
            r@ == ValueModel::Str(s@),
    {
        Value::Obj(Rc::new(Obj::String(s)))
    }

    pub fn is_number(&self) -> (r: bool)
        ensures
            r == (self@ is Number),
    {
        match self {
            Value::Number(_) => true,
            _ => false,
        }
    }

    /// A copy of the value; a string's characters are shared, not copied.
    pub fn share(&self) -> (r: Value)
        ensures
            r@ == self@,
    {
        match self {
            Value::Bool(b) => Value::Bool(*b),
            Value::Nil => Value::Nil,
            Value::Number(n) => Value::Number(*n),
            Value::Obj(o) => Value::Obj(Rc::clone(o)),
        }
    }

    /// Whether the value counts as false in a logical context.
    pub fn is_falsey(&self) -> (r: bool)
        ensures
            r == falsey(self@),
    {
        match self {
            Value::Nil => true,
            Value::Bool(b) => !*b,
            _ => false,
        }
    }

    /// Compares two values of which at most one is a number; comparing two
    /// numbers is floating-point work and is left to the caller.
    pub fn equals(&self, other: &Value) -> (r: bool)
        requires
            !(self@ is Number && other@ is Number),
        ensures
            r == equal_values(self@, other@),
    {
        match (self, other) {
            (Value::Bool(a), Value::Bool(b)) => *a == *b,
            (Value::Nil, Value::Nil) => true,
            (Value::Obj(_), Value::Obj(_)) => {
                let a = self.as_str().unwrap();
                let b = other.as_str().unwrap();
                same_chars(a, b)
            },
            _ => false,
        }
    }

    /// The text of a value that is not a number.
    pub fn display(&self) -> (r: String)
        requires
            !(self@ is Number),
        ensures
            r@ == display_text(self@),
    {
        match self {
            Value::Bool(b) => if *b {
                String::from_str("true")
            } else {
                String::from_str("false")
            },
            Value::Nil => String::from_str("nil"),
            Value::Number(_) => String::new(),
            Value::Obj(o) => match &**o {
                Obj::String(s) => s.clone(),
            },
        }
    }
}

/// The value of a new, empty slot: `nil`.
impl Default for Value {
    fn default() -> (r: Value)
        ensures
            r@ == ValueModel::Nil,
    {
        Value::Nil
    }
}

/// Character-by-character comparison of two strings.
pub fn same_chars(a: &str, b: &str) -> (r: bool)
    ensures
        r == (a@ == b@),
{
    let n = a.unicode_len();
    if n != b.unicode_len() {
        return false;
    }
    let mut i: usize = 0;
    while i < n
        invariant
            n == a@.len(),
            n == b@.len(),
            i <= n,
            a@.take(i as int) == b@.take(i as int),
        decreases n - i,
    {
        if a.get_char(i) != b.get_char(i) {
            assert(a@[i as int] != b@[i as int]);
            return false;
        }
        assert(a@.take(i + 1) == a@.take(i as int).push(a@[i as int]));
        assert(b@.take(i + 1) == b@.take(i as int).push(b@[i as int]));
        i = i + 1;
    }
    assert(a@.take(n as int) == a@);
    assert(b@.take(n as int) == b@);
    true
}

} // verus!
