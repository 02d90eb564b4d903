//! Values as text, for a reader of the screen: a symbol between quotes, a
//! list between brackets with its items apart by commas.

use vstd::prelude::*;
use crate::lisp::number::{Numeral, may_write, writes, writings};
use crate::lisp::types::{RLType, Value, models};

verus! {

/// The text of a value.
pub open spec fn printed(numeral: Numeral, value: Value) -> Seq<char>
    decreases value, 0nat,
{
    match value {
        Value::Symbol(name) => "\""@ + name + "\""@,
        Value::Number(bits) => numeral(bits),
        Value::List(items) => "["@ + printed_from(numeral, items, 0) + "]"@,
        Value::Proc(_) => "proc"@,
        Value::Lambda(_) => "lambda"@,
        Value::True => "#t"@,
        Value::False => "#f"@,
        Value::Nil => "nil"@,
    }
}

/// The text of the items from place `i` on: each but the very first comes
/// after a comma and a space.
pub open spec fn printed_from(numeral: Numeral, items: Seq<Value>, i: nat) -> Seq<char>
    decreases items, items.len() - i,
{
    if i >= items.len() {
        Seq::empty()
    } else {
        let apart = if i == 0 {
            Seq::empty()
        } else {
            ", "@
        };
        apart + printed(numeral, items[i as int]) + printed_from(numeral, items, i + 1)
    }
}

/// Puts the text of `value` after what `out` holds.
fn print_into<W: Fn(u32) -> String>(value: &RLType, write: &W, out: &mut String)
    requires
        writes(write),
    ensures
        final(out)@ == old(out)@ + printed(writings(write), value@),
    decreases value, 1nat,
{
    let ghost numeral = writings(write);
    let ghost start = out@;
    match value {
        RLType::Symbol(name) => {
            out.append("\"");
            out.append(name.as_str());
            out.append("\"");
            assert(out@ =~= start + ("\""@ + name@ + "\""@));
        },
        RLType::Number(bits) => {
            let text = write(*bits);
            assert(may_write(write, *bits, text@));
            out.append(text.as_str());
        },
        RLType::List(items) => {
            out.append("[");
            print_items(items, write, out);
            out.append("]");
            assert(out@ =~= start + ("["@ + printed_from(numeral, models(items@), 0) + "]"@));
        },
        RLType::Proc(_) => {
            out.append("proc");
        },
        RLType::Lambda(_) => {
            out.append("lambda");
        },
        RLType::True => {
            out.append("#t");
        },
        RLType::False => {
            out.append("#f");
        },
        RLType::Nil => {
            out.append("nil");
        },
    }
}

/// Puts the text of `items` after what `out` holds.
fn print_items<W: Fn(u32) -> String>(items: &Vec<RLType>, write: &W, out: &mut String)
    requires
        writes(write),
    ensures
        final(out)@ == old(out)@ + printed_from(writings(write), models(items@), 0),
    decreases items, 0nat,
{
    let ghost numeral = writings(write);
    let ghost all = models(items@);
    let ghost start = out@;
    let mut i: usize = 0;
    assert(out@ + printed_from(numeral, all, 0) =~= start + printed_from(numeral, all, 0));
    while i < items.len()
        invariant
            writes(write),
            numeral == writings(write),
            all == models(items@),
            i <= items.len(),
            out@ + printed_from(numeral, all, i as nat) == start + printed_from(numeral, all, 0),
        decreases items.len() - i,
    {
        let ghost before = out@;
        if i > 0 {
            out.append(", ");
        }
        let ghost apart = if i == 0 {
            Seq::<char>::empty()
        } else {
            ", "@
        };
        assert(out@ =~= before + apart);
        print_into(&items[i], write, out);
        proof {
            let item = printed(numeral, all[i as int]);
            let rest = printed_from(numeral, all, (i + 1) as nat);
            assert(out@ == before + apart + item);
            assert(before + apart + item + rest =~= before + (apart + item + rest));
        }
        i += 1;
    }
    assert(out@ + Seq::<char>::empty() =~= out@);
}

/// The text of a value, with its numbers as the host writes them.
pub fn print<W: Fn(u32) -> String>(value: &RLType, write: &W) -> (r: String)
    requires
        writes(write),
    ensures
        r@ == printed(writings(write), value@),
{
    let mut out = String::new();
    print_into(value, write, &mut out);
    assert(out@ =~= printed(writings(write), value@));
    out
}

} // verus!
