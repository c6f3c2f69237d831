//! Plain-text rendering helpers.  The layouts here are presentation only;
//! no downstream computation reads them back.

use vstd::prelude::*;
use vstd::string::StringExecFns;
use crate::parser_types::terminal_or_nonterminal::TerminalOrNonTerminal;

verus! {

/// Append one decimal digit.
fn append_digit(s: &mut String, d: u64)
    requires
        d < 10,
{
    match d {
        0 => s.append("0"),
        1 => s.append("1"),
        2 => s.append("2"),
        3 => s.append("3"),
        4 => s.append("4"),
        5 => s.append("5"),
        6 => s.append("6"),
        7 => s.append("7"),
        8 => s.append("8"),
        _ => s.append("9"),
    }
}

/// Render a number in decimal.
pub fn format_u64(n: u64) -> (r: String) {
    let mut digits: Vec<u64> = Vec::new();
    let mut m = n;
    if m == 0 {
        digits.push(0);
    }
    while m > 0
        invariant
            m > 0 ==> digits@.len() >= 0,
            forall|k: int| 0 <= k < digits@.len() ==> (#[trigger] digits@[k]) < 10,
            m == 0 ==> digits@.len() >= 1,
        decreases m,
    {
        digits.push(m % 10);
        m = m / 10;
    }
    let mut s = String::new();
    let mut i = digits.len();
    while i > 0
        invariant
            i <= digits@.len(),
            forall|k: int| 0 <= k < digits@.len() ==> (#[trigger] digits@[k]) < 10,
        decreases i,
    {
        i -= 1;
        append_digit(&mut s, digits[i]);
    }
    s
}

/// Render a state number or rule index in decimal.
pub fn format_usize(n: usize) -> (r: String) {
    let mut digits: Vec<usize> = Vec::new();
    let mut m = n;
    if m == 0 {
        digits.push(0);
    }
    while m > 0
        invariant
            forall|k: int| 0 <= k < digits@.len() ==> (#[trigger] digits@[k]) < 10,
            m == 0 ==> digits@.len() >= 1,
        decreases m,
    {
        digits.push(m % 10);
        m = m / 10;
    }
    let mut s = String::new();
    let mut i = digits.len();
    while i > 0
        invariant
            i <= digits@.len(),
            forall|k: int| 0 <= k < digits@.len() ==> (#[trigger] digits@[k]) < 10,
        decreases i,
    {
        i -= 1;
        let d = digits[i];
        append_digit(&mut s, d as u64);
    }
    s
}

/// A symbol label: `N` plus the code for a non-terminal, `T` plus the code
/// for a terminal, with `T0` (end-of-input) shown as `$`.
pub fn symbol_label(sym: &TerminalOrNonTerminal) -> (r: String) {
    match sym {
        TerminalOrNonTerminal::NonTerminal(code) => {
            let mut s = String::from_str("N");
            let num = format_u64(*code);
            s.append(num.as_str());
            s
        },
        TerminalOrNonTerminal::Terminal(code) => {
            if *code == crate::EOF_TERMINAL {
                String::from_str("$")
            } else {
                let mut s = String::from_str("T");
                let num = format_u64(*code);
                s.append(num.as_str());
                s
            }
        },
    }
}

} // verus!
