use vstd::prelude::*;

verus! {

/// A JSON number as the platform's decoder holds it: a non-negative integer,
/// a negative integer, or a finite float kept as its IEEE-754 bit pattern so
/// that it passes through unchanged.
#[derive(Clone, Debug, PartialEq)]
pub enum Number {
    PosInt(u64),
    NegInt(i64),
    FloatBits(u64),
}

/// A loosely-typed JSON value. Objects keep their entries in order; a lookup
/// finds the first entry with the key.
#[derive(Debug)]
pub enum Json {
    Null,
    Bool(bool),
    Number(Number),
    String(String),
    Array(Vec<Json>),
    Object(Vec<(String, Json)>),
}

/// The value of the first entry whose key is `key`.
pub open spec fn entry_lookup(entries: Seq<(String, Json)>, key: Seq<char>) -> Option<Json>
    decreases entries.len(),
{
    if entries.len() == 0 {
        None
    } else if entries[0].0@ == key {
        Some(entries[0].1)
    } else {
        entry_lookup(entries.drop_first(), key)
    }
}

impl Json {
    /// The member `key` of an object; `None` for a missing key or a non-object.
    pub open spec fn field(self, key: Seq<char>) -> Option<Json> {
        match self {
            Json::Object(entries) => entry_lookup(entries@, key),
            _ => None,
        }
    }

    /// `value[key]`: the member `key`, or `Null` where there is none.
    pub open spec fn at(self, key: Seq<char>) -> Json {
        match self.field(key) {
            Some(v) => v,
            None => Json::Null,
        }
    }

    /// The elements of an array.
    pub open spec fn items(self) -> Option<Seq<Json>> {
        match self {
            Json::Array(a) => Some(a@),
            _ => None,
        }
    }

    /// The value as an `i64`, where it is an integer that fits.
    pub open spec fn int_value(self) -> Option<i64> {
        match self {
            Json::Number(Number::PosInt(n)) => if n <= i64::MAX as u64 {
                Some(n as i64)
            } else {
                None
            },
            Json::Number(Number::NegInt(n)) => Some(n),
            _ => None,
        }
    }

    /// The characters of a string value.
    pub open spec fn text(self) -> Option<Seq<char>> {
        match self {
            Json::String(s) => Some(s@),
            _ => None,
        }
    }

    /// Looks up the member `key` of an object.
    pub fn get(&self, key: &str) -> (r: Option<&Json>)
        ensures
            (match r {
                Some(v) => self.field(key@) == Some(*v),
                None => self.field(key@) is None,
            }),
    {
        match self {
            Json::Object(entries) => {
                let k = key.to_owned();
                let mut i: usize = 0;
                assert(entries@.subrange(0, entries@.len() as int) =~= entries@);
                while i < entries.len()
                    invariant
                        0 <= i <= entries@.len(),
                        k@ == key@,
                        self.field(key@) == entry_lookup(entries@, key@),
                        entry_lookup(entries@, key@) == entry_lookup(
                            entries@.subrange(i as int, entries@.len() as int),
                            key@,
                        ),
                    decreases entries.len() - i,
                {
                    let rest = Ghost(entries@.subrange(i as int, entries@.len() as int));
                    assert(rest@.drop_first() =~= entries@.subrange(i + 1, entries@.len() as int));
                    if entries[i].0 == k {
                        return Some(&entries[i].1);
                    }
                    i = i + 1;
                }
                None
            },
            _ => None,
        }
    }

    /// Moves the member `key` out of an object.
    pub fn take(self, key: &str) -> (r: Option<Json>)
        ensures
            r == self.field(key@),
    {
        let ghost target = self.field(key@);
        match self {
            Json::Object(mut entries) => {
                let ghost all = entries@;
                let k = key.to_owned();
                let mut i: usize = 0;
                assert(all.subrange(0, all.len() as int) =~= all);
                while i < entries.len()
                    invariant
                        0 <= i <= entries@.len(),
                        entries@ == all,
                        k@ == key@,
                        target == entry_lookup(all, key@),
                        target == self.field(key@),
                        entry_lookup(all, key@) == entry_lookup(
                            all.subrange(i as int, all.len() as int),
                            key@,
                        ),
                    decreases entries.len() - i,
                {
                    let rest = Ghost(all.subrange(i as int, all.len() as int));
                    assert(rest@.drop_first() =~= all.subrange(i + 1, all.len() as int));
                    if entries[i].0 == k {
                        let entry = entries.remove(i);
                        return Some(entry.1);
                    }
                    i = i + 1;
                }
                None
            },
            _ => None,
        }
    }

    /// The elements of an array, by reference.
    pub fn as_array(&self) -> (r: Option<&Vec<Json>>)
        ensures
            (match r {
                Some(a) => self.items() == Some(a@),
                None => self.items() is None,
            }),
    {
        match self {
            Json::Array(a) => Some(a),
            _ => None,
        }
    }

    /// The elements of an array, moved out.
    pub fn into_array(self) -> (r: Option<Vec<Json>>)
        ensures
            (match r {
                Some(a) => self.items() == Some(a@),
                None => self.items() is None,
            }),
    {
        match self {
            Json::Array(a) => Some(a),
            _ => None,
        }
    }

    /// The value as an `i64`, where it is an integer that fits.
    pub fn as_i64(&self) -> (r: Option<i64>)
        ensures
            r == self.int_value(),
    {
        match self {
            Json::Number(Number::PosInt(n)) => {
                if *n <= i64::MAX as u64 {
                    Some(*n as i64)
                } else {
                    None
                }
            },
            Json::Number(Number::NegInt(n)) => Some(*n),
            _ => None,
        }
    }

    /// The text of a string value.
    pub fn as_str(&self) -> (r: Option<&String>)
        ensures
            (match r {
                Some(s) => self.text() == Some(s@),
                None => self.text() is None,
            }),
    {
        match self {
            Json::String(s) => Some(s),
            _ => None,
        }
    }

    /// `value[outer][inner]` as an `i64`.
    pub fn int_at(&self, outer: &str, inner: &str) -> (r: Option<i64>)
        ensures
            r == self.at(outer@).at(inner@).int_value(),
    {
        match self.get(outer) {
            Some(o) => match o.get(inner) {
                Some(v) => v.as_i64(),
                None => None,
            },
            None => None,
        }
    }
}

} // verus!
