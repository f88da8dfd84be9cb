//! The lines of text that the library hands out: identifiers in decimal,
//! migration records, lookup traces, and the dumps of a peer's state.

use vstd::prelude::*;
use crate::model::ChordError;
use crate::ring_math::spec_finger_start;

verus! {

/// The character of one decimal digit.
pub open spec fn digit(d: int) -> char {
    if d == 0 {
        '0'
    } else if d == 1 {
        '1'
    } else if d == 2 {
        '2'
    } else if d == 3 {
        '3'
    } else if d == 4 {
        '4'
    } else if d == 5 {
        '5'
    } else if d == 6 {
        '6'
    } else if d == 7 {
        '7'
    } else if d == 8 {
        '8'
    } else {
        '9'
    }
}

/// `n` in decimal, without leading zeros.
pub open spec fn decimal(n: u8) -> Seq<char> {
    if n < 10 {
        seq![digit(n as int)]
    } else if n < 100 {
        seq![digit(n as int / 10), digit(n as int % 10)]
    } else {
        seq![digit(n as int / 100), digit((n as int / 10) % 10), digit(n as int % 10)]
    }
}

/// An optional value in decimal; `None` where there is none.
pub open spec fn decimal_or_none(v: Option<u8>) -> Seq<char> {
    match v {
        Some(n) => decimal(n),
        None => "None"@,
    }
}

fn digit_str(d: u8) -> (s: &'static str)
    requires
        d < 10,
    ensures
        s@ == seq![digit(d as int)],
{
    proof {
        reveal_strlit("0");
        reveal_strlit("1");
        reveal_strlit("2");
        reveal_strlit("3");
        reveal_strlit("4");
        reveal_strlit("5");
        reveal_strlit("6");
        reveal_strlit("7");
        reveal_strlit("8");
        reveal_strlit("9");
    }
    let s = if d == 0 {
        "0"
    } else if d == 1 {
        "1"
    } else if d == 2 {
        "2"
    } else if d == 3 {
        "3"
    } else if d == 4 {
        "4"
    } else if d == 5 {
        "5"
    } else if d == 6 {
        "6"
    } else if d == 7 {
        "7"
    } else if d == 8 {
        "8"
    } else {
        "9"
    };
    assert(s@ =~= seq![digit(d as int)]);
    s
}

/// Appends `n` in decimal to `out`.
pub fn push_decimal(out: &mut String, n: u8)
    ensures
        final(out)@ == old(out)@ + decimal(n),
{
    if n >= 100 {
        out.append(digit_str(n / 100));
    }
    if n >= 10 {
        out.append(digit_str((n / 10) % 10));
    }
    out.append(digit_str(n % 10));
    assert(final(out)@ =~= old(out)@ + decimal(n));
}

/// Appends an optional value in decimal to `out`, `None` where there is none.
pub fn push_decimal_or_none(out: &mut String, v: Option<u8>)
    ensures
        final(out)@ == old(out)@ + decimal_or_none(v),
{
    match v {
        Some(n) => push_decimal(out, n),
        None => out.append("None"),
    }
}

/// The record of one key that moved from the peer `src` to the peer `dst`.
pub open spec fn migration_line(key: u8, src: u8, dst: u8) -> Seq<char> {
    "migrate key "@ + decimal(key) + " from node "@ + decimal(src) + " to node "@ + decimal(dst)
}

/// The record of `migration_line` as text.
pub fn migration_record(key: u8, src: u8, dst: u8) -> (line: String)
    ensures
        line@ == migration_line(key, src, dst),
{
    let mut line = String::from_str("migrate key ");
    push_decimal(&mut line, key);
    line.append(" from node ");
    push_decimal(&mut line, src);
    line.append(" to node ");
    push_decimal(&mut line, dst);
    line
}

/// The trace of a lookup of `key` that started at the peer `from`, found
/// the key at `owner` and read `value` there.
pub open spec fn lookup_line(key: u8, from: u8, owner: u8, value: Option<u8>) -> Seq<char> {
    "Look-up result of key "@ + decimal(key) + " from node "@ + decimal(from) + " with path ["@
        + lookup_path(from, owner) + "] value is "@ + decimal_or_none(value)
}

/// The path of a lookup: the peer it started at and, where that is another
/// peer, the owner.
pub open spec fn lookup_path(from: u8, owner: u8) -> Seq<char> {
    if from == owner {
        decimal(from)
    } else {
        decimal(from) + ","@ + decimal(owner)
    }
}

/// The trace of `lookup_line` as text.
pub fn lookup_record(key: u8, from: u8, owner: u8, value: Option<u8>) -> (line: String)
    ensures
        line@ == lookup_line(key, from, owner, value),
{
    let mut line = String::from_str("Look-up result of key ");
    push_decimal(&mut line, key);
    line.append(" from node ");
    push_decimal(&mut line, from);
    line.append(" with path [");
    push_decimal(&mut line, from);
    if from != owner {
        line.append(",");
        push_decimal(&mut line, owner);
    }
    line.append("] value is ");
    push_decimal_or_none(&mut line, value);
    assert(line@ =~= lookup_line(key, from, owner, value));
    line
}

/// What an error says.
pub open spec fn error_text(e: ChordError) -> Seq<char> {
    match e {
        ChordError::MissingSuccessor { node } => "Node "@ + decimal(node) + ": successor is None"@,
        ChordError::MissingFingerStart { node, index } => "Node "@ + decimal(node)
            + ": cannot find start of index "@ + decimal(index),
        ChordError::MissingPredecessor { node } => "Node "@ + decimal(node)
            + ": predecessor is None"@,
    }
}

impl ChordError {
    /// The error in words.
    pub fn message(&self) -> (text: String)
        ensures
            text@ == error_text(*self),
    {
        let mut text = String::from_str("Node ");
        match *self {
            ChordError::MissingSuccessor { node } => {
                push_decimal(&mut text, node);
                text.append(": successor is None");
            },
            ChordError::MissingFingerStart { node, index } => {
                push_decimal(&mut text, node);
                text.append(": cannot find start of index ");
                push_decimal(&mut text, index);
            },
            ChordError::MissingPredecessor { node } => {
                push_decimal(&mut text, node);
                text.append(": predecessor is None");
            },
        }
        text
    }
}

/// The first line of every dump of the peer `id`.
pub open spec fn header_line(id: u8) -> Seq<char> {
    "----------Node id:"@ + decimal(id) + "----------"@
}

/// The line of `header_line` as text.
pub fn header_record(id: u8) -> (line: String)
    ensures
        line@ == header_line(id),
{
    let mut line = String::from_str("----------Node id:");
    push_decimal(&mut line, id);
    line.append("----------");
    line
}

/// The line of a finger table that names the successor and the
/// predecessor.
pub open spec fn neighbours_line(successor: u8, predecessor: u8) -> Seq<char> {
    "Successor:  "@ + decimal(successor) + " Predecessor: "@ + decimal(predecessor)
}

/// The line of `neighbours_line` as text.
pub fn neighbours_record(successor: u8, predecessor: u8) -> (line: String)
    ensures
        line@ == neighbours_line(successor, predecessor),
{
    let mut line = String::from_str("Successor:  ");
    push_decimal(&mut line, successor);
    line.append(" Predecessor: ");
    push_decimal(&mut line, predecessor);
    line
}

/// The right end of the interval of finger `i` of the peer `id`: the start
/// of the next finger, and the peer itself for the last finger.
pub open spec fn interval_right(id: u8, i: int) -> u8 {
    if i < 8 {
        spec_finger_start(id, i + 1)
    } else {
        id
    }
}

/// The line of finger `i`, which covers `[start, right)` and points at
/// `node`.
pub open spec fn finger_line(i: u8, start: u8, right: u8, node: u8) -> Seq<char> {
    "| k =  "@ + decimal(i) + " [ "@ + decimal(start) + ", "@ + decimal(right) + " )\tsucc. = "@
        + decimal(node)
}

/// The line of `finger_line` as text.
pub fn finger_record(i: u8, start: u8, right: u8, node: u8) -> (line: String)
    ensures
        line@ == finger_line(i, start, right, node),
{
    let mut line = String::from_str("| k =  ");
    push_decimal(&mut line, i);
    line.append(" [ ");
    push_decimal(&mut line, start);
    line.append(", ");
    push_decimal(&mut line, right);
    line.append(" )\tsucc. = ");
    push_decimal(&mut line, node);
    line
}

/// The line that closes a dump.
pub open spec fn rule_line() -> Seq<char> {
    "------------------------------"@
}

/// The line that follows a finger table.
pub open spec fn star_line() -> Seq<char> {
    "******************************"@
}

/// The keys below `upto` of a key store with their values, as
/// `key: value`, in ascending order of the keys, with `, ` between two of them.
pub open spec fn key_entries(keys: Map<u8, Option<u8>>, upto: int) -> Seq<char>
    decreases upto,
{
    if upto <= 0 {
        Seq::empty()
    } else if keys.contains_key((upto - 1) as u8) {
        let before = key_entries(keys, upto - 1);
        let sep = if before.len() == 0 {
            Seq::<char>::empty()
        } else {
            ", "@
        };
        before + sep + decimal((upto - 1) as u8) + ": "@ + decimal_or_none(keys[(upto - 1) as u8])
    } else {
        key_entries(keys, upto - 1)
    }
}

/// The line that lists a key store.
pub open spec fn keys_line(keys: Map<u8, Option<u8>>) -> Seq<char> {
    "{"@ + key_entries(keys, 256) + "}"@
}

} // verus!
