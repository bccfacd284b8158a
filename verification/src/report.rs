//! The user-visible result of a scan: one line for each open port.

use vstd::prelude::*;
use vstd::string::*;

verus! {

/// The character that stands for a digit from 0 to 9.
pub open spec fn digit_char(digit: nat) -> char {
    ((48 + digit) as u8) as char
}

/// The decimal spelling of a number, without sign or leading zeros.
pub open spec fn decimal(number: nat) -> Seq<char>
    decreases number,
{
    if number < 10 {
        seq![digit_char(number)]
    } else {
        decimal(number / 10).push(digit_char(number % 10))
    }
}

/// The line that announces an open port: its number in decimal, then ` is open!`.
pub open spec fn open_line(port: u16) -> Seq<char> {
    decimal(port as nat) + " is open!"@
}

/// The spelling of one decimal digit.
fn digit_str(digit: u16) -> (text: &'static str)
    requires
        digit < 10,
    ensures
        text@ == seq![digit_char(digit as nat)],
{
    proof {
        reveal_strlit("0");
        reveal_strlit("1");
        reveal_strlit("2");
        reveal_strlit("3");
        reveal_strlit("4");
        reveal_strlit("5");
        reveal_strlit("6");
        reveal_strlit("7");
        reveal_strlit("8");
        reveal_strlit("9");
    }
    let text = match digit {
        0 => "0",
        1 => "1",
        2 => "2",
        3 => "3",
        4 => "4",
        5 => "5",
        6 => "6",
        7 => "7",
        8 => "8",
        _ => "9",
    };
    assert(text@ =~= seq![digit_char(digit as nat)]);
    text
}

/// The decimal spelling of a port number.
pub fn port_number(port: u16) -> (text: String)
    ensures
        text@ == decimal(port as nat),
    decreases port,
{
    if port < 10 {
        String::from_str(digit_str(port))
    } else {
        let mut text = port_number(port / 10);
        let last = digit_str(port % 10);
        text.append(last);
        assert(text@ =~= decimal(port as nat / 10).push(digit_char(port as nat % 10)));
        text
    }
}

/// The line that announces `port` as open.
pub fn port_line(port: u16) -> (line: String)
    ensures
        line@ == open_line(port),
{
    let mut line = port_number(port);
    line.append(" is open!");
    line
}

/// The lines of the final report: one for each port of `ports`, in the same order.
pub fn report(ports: &Vec<u16>) -> (lines: Vec<String>)
    ensures
        lines.len() == ports.len(),
        forall|i: int| 0 <= i < lines.len() ==> (#[trigger] lines[i])@ == open_line(ports[i]),
{
    let mut lines: Vec<String> = Vec::new();
    let mut i: usize = 0;
    while i < ports.len()
        invariant
            i <= ports.len(),
            lines.len() == i,
            forall|k: int| 0 <= k < lines.len() ==> (#[trigger] lines[k])@ == open_line(ports[k]),
        decreases ports.len() - i,
    {
        lines.push(port_line(ports[i]));
        i += 1;
    }
    lines
}

} // verus!
