//! Display of decoded messages: one character per bit, optionally inverted
//! or in reverse order, with a space after every eighth character.
use vstd::prelude::*;
use crate::decode::{MessageRaw, Value};

verus! {

/// Display choices; they never change the decoded bits.
#[derive(Clone, Copy, Debug, PartialEq, Eq, Structural)]
pub struct FormatOptions {
    /// Show `One` as `0` and `Zero` as `1`.
    pub invert: bool,
    /// Show the bits last to first.
    pub reverse: bool,
}

/// The character of a bit.
pub open spec fn char_of(v: Value) -> char {
    match v {
        Value::One => '1',
        Value::Zero => '0',
    }
}

/// The other bit.
pub open spec fn flip(v: Value) -> Value {
    match v {
        Value::One => Value::Zero,
        Value::Zero => Value::One,
    }
}

/// The character shown for a bit.
pub open spec fn shown(v: Value, invert: bool) -> char {
    if invert {
        char_of(flip(v))
    } else {
        char_of(v)
    }
}

/// The bits in the order they are shown.
pub open spec fn display_order(m: Seq<Value>, reverse: bool) -> Seq<Value> {
    if reverse {
        m.reverse()
    } else {
        m
    }
}

/// The characters with a space after every eighth one.
pub open spec fn grouped(cs: Seq<char>) -> Seq<char>
    decreases cs.len(),
{
    if cs.len() == 0 {
        Seq::empty()
    } else {
        let g = grouped(cs.drop_last()).push(cs.last());
        if cs.len() % 8 == 0 {
            g.push(' ')
        } else {
            g
        }
    }
}

/// The characters shown for a message, before grouping.
pub open spec fn shown_chars(m: Seq<Value>, options: FormatOptions) -> Seq<char> {
    display_order(m, options.reverse).map_values(|v: Value| shown(v, options.invert))
}

/// The text shown for a message.
pub open spec fn rendering(m: Seq<Value>, options: FormatOptions) -> Seq<char> {
    grouped(shown_chars(m, options))
}

/// Relies on `String::push`: the character is appended at the end.
#[verifier::external_body]
fn push_char(s: &mut String, c: char)
    ensures
        final(s)@ == old(s)@.push(c),
{
    s.push(c);
}

impl Value {
    /// The character of a bit: `1` for `One`, `0` for `Zero`.
    pub fn to_char(&self) -> (r: char)
        ensures
            r == char_of(*self),
    {
        match self {
            Value::One => '1',
            Value::Zero => '0',
        }
    }

    /// The other bit.
    pub fn flipped(&self) -> (r: Value)
        ensures
            r == flip(*self),
    {
        match self {
            Value::One => Value::Zero,
            Value::Zero => Value::One,
        }
    }
}

impl MessageRaw {
    /// A copy with the bits in reverse order.
    pub fn reversed(&self) -> (r: MessageRaw)
        ensures
            r@ == self@.reverse(),
    {
        let n = self.data.len();
        let mut data: Vec<Value> = Vec::new();
        let mut i: usize = 0;
        while i < n
            invariant
                n == self@.len(),
                i <= n,
                data@ == self@.reverse().take(i as int),
            decreases n - i,
        {
            data.push(self.data[n - 1 - i]);
            i = i + 1;
            assert(data@ =~= self@.reverse().take(i as int));
        }
        assert(data@ =~= self@.reverse());
        MessageRaw { data }
    }

    /// A copy with every bit flipped.
    pub fn inverted(&self) -> (r: MessageRaw)
        ensures
            r@ == self@.map_values(|v: Value| flip(v)),
    {
        let n = self.data.len();
        let mut data: Vec<Value> = Vec::new();
        let mut i: usize = 0;
        while i < n
            invariant
                n == self@.len(),
                i <= n,
                data@ == self@.map_values(|v: Value| flip(v)).take(i as int),
            decreases n - i,
        {
            data.push(self.data[i].flipped());
            i = i + 1;
            assert(data@ =~= self@.map_values(|v: Value| flip(v)).take(i as int));
        }
        assert(data@ =~= self@.map_values(|v: Value| flip(v)));
        MessageRaw { data }
    }

    /// The number of bits.
    pub fn len(&self) -> (r: usize)
        ensures
            r == self@.len(),
    {
        self.data.len()
    }

    /// The message as text: one character per bit, in the order and with the
    /// mapping that `options` choose, and a space after every eighth
    /// character. The message itself is not changed.
    pub fn render(&self, options: FormatOptions) -> (r: String)
        ensures
            r@ == rendering(self@, options),
    {
        let ghost cs = shown_chars(self@, options);
        let n = self.data.len();
        let mut s = String::new();
        let mut i: usize = 0;
        while i < n
            invariant
                n == self@.len(),
                cs == shown_chars(self@, options),
                i <= n,
                s@ == grouped(cs.take(i as int)),
            decreases n - i,
        {
            let idx = if options.reverse { n - 1 - i } else { i };
            let v = self.data[idx];
            let c = if options.invert { v.flipped().to_char() } else { v.to_char() };
            assert(c == cs[i as int]);
            push_char(&mut s, c);
            assert(cs.take(i + 1).drop_last() =~= cs.take(i as int));
            if (i + 1) % 8 == 0 {
                push_char(&mut s, ' ');
            }
            i = i + 1;
        }
        assert(cs.take(n as int) =~= cs);
        s
    }
}

/// Reversing a message and showing it in reverse order shows it as it was:
/// reversal applied twice gives back the original rendering.
pub proof fn lemma_reverse_twice(m: Seq<Value>, invert: bool)
    ensures
        m.reverse().reverse() == m,
        rendering(m.reverse(), FormatOptions { invert, reverse: true }) == rendering(
            m,
            FormatOptions { invert, reverse: false },
        ),
{
    assert(m.reverse().reverse() =~= m);
}

/// Flipping every bit of a message and showing it inverted shows it as it
/// was: inversion applied twice gives back the original rendering.
pub proof fn lemma_invert_twice(m: Seq<Value>, reverse: bool)
    ensures
        m.map_values(|v: Value| flip(v)).map_values(|v: Value| flip(v)) == m,
        rendering(m.map_values(|v: Value| flip(v)), FormatOptions { invert: true, reverse })
            == rendering(m, FormatOptions { invert: false, reverse }),
{
    let f = m.map_values(|v: Value| flip(v));
    assert(f.map_values(|v: Value| flip(v)) =~= m);
    let a = shown_chars(f, FormatOptions { invert: true, reverse });
    let b = shown_chars(m, FormatOptions { invert: false, reverse });
    assert(display_order(f, reverse) =~= display_order(m, reverse).map_values(|v: Value| flip(v)));
    assert(a =~= b);
}

/// Byte grouping: the text is one character longer for every full group of
/// eight; positions 8, 17, 26, ... (zero-based: every ninth) hold the
/// separator, and every other position holds the next character in order,
/// whatever the characters are.
pub proof fn lemma_group_separators(cs: Seq<char>)
    ensures
        grouped(cs).len() == cs.len() + cs.len() / 8,
        forall|p: int|
            0 <= p < grouped(cs).len() ==> #[trigger] grouped(cs)[p] == if (p + 1) % 9 == 0 {
                ' '
            } else {
                cs[p - p / 9]
            },
    decreases cs.len(),
{
    if cs.len() > 0 {
        let init = cs.drop_last();
        lemma_group_separators(init);
        let g = grouped(cs);
        let q = init.len() as int;
        let at = q + q / 8;
        assert((at + 1) % 9 != 0 && at - at / 9 == q);
        assert forall|p: int| 0 <= p < g.len() implies #[trigger] g[p] == if (p + 1) % 9 == 0 {
            ' '
        } else {
            cs[p - p / 9]
        } by {
            if p < at {
                assert(g[p] == grouped(init)[p]);
                if (p + 1) % 9 != 0 {
                    assert(p - p / 9 < q);
                }
            } else if p > at {
                assert((p + 1) % 9 == 0);
            }
        }
    }
}

} // verus!
