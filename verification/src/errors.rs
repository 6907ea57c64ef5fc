//! The error of the engine, and the text that it carries.
use vstd::prelude::*;
use vstd::string::StringExecFns;

verus! {

/// What can go wrong while a graph is built.
#[derive(Debug)]
pub enum PagerankError {
    /// A new identifier needed an index, and every slot was taken.
    CapacityError(String),
}

/// The character of one decimal digit.
pub open spec fn digit_char(d: nat) -> char
    recommends
        d < 10,
{
    if d == 0 {
        '0'
    } else if d == 1 {
        '1'
    } else if d == 2 {
        '2'
    } else if d == 3 {
        '3'
    } else if d == 4 {
        '4'
    } else if d == 5 {
        '5'
    } else if d == 6 {
        '6'
    } else if d == 7 {
        '7'
    } else if d == 8 {
        '8'
    } else {
        '9'
    }
}

/// A number in decimal, without sign or leading zeros.
pub open spec fn decimal(n: nat) -> Seq<char>
    decreases n,
{
    if n < 10 {
        seq![digit_char(n)]
    } else {
        decimal(n / 10).push(digit_char(n % 10))
    }
}

/// What the message says before the index.
pub open spec fn message_head() -> Seq<char> {
    "Exceeded the capacity of nodes, current available index: "@
}

/// What the message says between the index and the capacity.
pub open spec fn message_middle() -> Seq<char> {
    ", capacity: "@
}

/// The text of a capacity error: the index that was asked for, then the
/// capacity that it did not fit in.
pub open spec fn capacity_message(index: nat, capacity: nat) -> Seq<char> {
    message_head() + decimal(index) + message_middle() + decimal(capacity)
}

fn digit_text(d: usize) -> (text: &'static str)
    requires
        d < 10,
    ensures
        text@ == seq![digit_char(d as nat)],
{
    proof {
        reveal_strlit("0");
        reveal_strlit("1");
        reveal_strlit("2");
        reveal_strlit("3");
        reveal_strlit("4");
        reveal_strlit("5");
        reveal_strlit("6");
        reveal_strlit("7");
        reveal_strlit("8");
        reveal_strlit("9");
    }
    let text = match d {
        0 => "0",
        1 => "1",
        2 => "2",
        3 => "3",
        4 => "4",
        5 => "5",
        6 => "6",
        7 => "7",
        8 => "8",
        _ => "9",
    };
    assert(text@ =~= seq![digit_char(d as nat)]);
    text
}

fn push_decimal(text: &mut String, n: usize)
    ensures
        final(text)@ == old(text)@ + decimal(n as nat),
    decreases n,
{
    if n >= 10 {
        push_decimal(text, n / 10);
    }
    text.append(digit_text(n % 10));
    assert(final(text)@ =~= old(text)@ + decimal(n as nat));
}

/// Writes the text of a capacity error.
pub fn capacity_error_message(index: usize, capacity: usize) -> (text: String)
    ensures
        text@ == capacity_message(index as nat, capacity as nat),
{
    let mut text = String::from_str("Exceeded the capacity of nodes, current available index: ");
    push_decimal(&mut text, index);
    text.append(", capacity: ");
    push_decimal(&mut text, capacity);
    assert(text@ =~= capacity_message(index as nat, capacity as nat));
    text
}

impl PagerankError {
    /// The text that the error carries, in the model.
    pub open spec fn text(self) -> Seq<char> {
        match self {
            PagerankError::CapacityError(message) => message@,
        }
    }

    /// The text that the error carries.
    pub fn message(&self) -> (text: String)
        ensures
            text@ == self.text(),
    {
        match self {
            PagerankError::CapacityError(message) => message.clone(),
        }
    }
}

} // verus!
