//! Readings of floating-point literals.
//!
//! The library does no floating-point arithmetic. What a decimal literal stands
//! for is told by its caller: a [`FloatTable`] holds, by the text of a literal,
//! the number that the text reads as and the shortest text that reads as that
//! number.

use crate::event::Float;
use vstd::hash_map::StringHashMap;
use vstd::prelude::*;

verus! {

/// What a literal reads as.
#[derive(Debug)]
pub struct FloatReading {
    pub value: Float,
    /// The canonical text of the number, for messages.
    pub shown: String,
}

impl DeepView for FloatReading {
    type V = (Float, Seq<char>);

    open spec fn deep_view(&self) -> (Float, Seq<char>) {
        (self.value, self.shown@)
    }
}

/// The literals that read as a number, and the numbers.
pub type FloatsView = Map<Seq<char>, (Float, Seq<char>)>;

/// Two tables read each of the texts alike.
pub open spec fn agree(a: FloatsView, b: FloatsView, texts: Seq<Seq<char>>) -> bool {
    forall|i: int|
        0 <= i < texts.len() ==> {
            let t = #[trigger] texts[i];
            a.contains_key(t) == b.contains_key(t) && (a.contains_key(t) ==> a[t] == b[t])
        }
}

/// Tables that agree on all of the texts agree on each part of them.
pub proof fn agree_on_parts(a: FloatsView, b: FloatsView, x: Seq<Seq<char>>, y: Seq<Seq<char>>)
    requires
        agree(a, b, x + y),
    ensures
        agree(a, b, x),
        agree(a, b, y),
{
    assert forall|i: int| 0 <= i < x.len() implies {
        let t = #[trigger] x[i];
        a.contains_key(t) == b.contains_key(t) && (a.contains_key(t) ==> a[t] == b[t])
    } by {
        assert((x + y)[i] == x[i]);
    }
    assert forall|i: int| 0 <= i < y.len() implies {
        let t = #[trigger] y[i];
        a.contains_key(t) == b.contains_key(t) && (a.contains_key(t) ==> a[t] == b[t])
    } by {
        assert((x + y)[x.len() + i] == y[i]);
    }
}

/// The readings of the literals that read as a number.
pub struct FloatTable {
    readings: StringHashMap<FloatReading>,
}

impl View for FloatTable {
    type V = FloatsView;

    closed spec fn view(&self) -> FloatsView {
        self.readings@.map_values(|r: FloatReading| r.deep_view())
    }
}

impl FloatTable {
    /// A table by which no text reads as a number.
    pub fn new() -> (t: FloatTable)
        ensures
            t@ == Map::<Seq<char>, (Float, Seq<char>)>::empty(),
    {
        let t = FloatTable { readings: StringHashMap::new() };
        assert(t@ =~= Map::<Seq<char>, (Float, Seq<char>)>::empty());
        t
    }

    /// Records the reading of one literal.
    pub fn add(&mut self, text: String, reading: FloatReading)
        ensures
            final(self)@ == old(self)@.insert(text@, reading.deep_view()),
    {
        self.readings.insert(text, reading);
        assert(self@ =~= old(self)@.insert(text@, reading.deep_view()));
    }

    /// The reading of a literal.
    pub fn get(&self, text: &str) -> (r: Option<&FloatReading>)
        ensures
            match r {
                Some(f) => self@.contains_key(text@) && f.deep_view() == self@[text@],
                None => !self@.contains_key(text@),
            },
    {
        self.readings.get(text)
    }
}

} // verus!
