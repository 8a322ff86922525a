use vstd::prelude::*;
use crate::debug_options::DebugOptions;

verus! {

/// The character of a decimal digit.
pub open spec fn digit_char(d: nat) -> char {
    if d == 0 {
        '0'
    } else if d == 1 {
        '1'
    } else if d == 2 {
        '2'
    } else if d == 3 {
        '3'
    } else if d == 4 {
        '4'
    } else if d == 5 {
        '5'
    } else if d == 6 {
        '6'
    } else if d == 7 {
        '7'
    } else if d == 8 {
        '8'
    } else {
        '9'
    }
}

/// The decimal form of `n`, most significant digit first, with no leading zero.
pub open spec fn decimal(n: nat) -> Seq<char>
    decreases n,
{
    if n < 10 {
        seq![digit_char(n)]
    } else {
        decimal(n / 10) + seq![digit_char(n % 10)]
    }
}

/// The text of the options, as written after `debug.` in assembly source.
pub open spec fn options_text(o: DebugOptions) -> Seq<char> {
    match o {
        DebugOptions::StackAll => seq!['s', 't', 'a', 'c', 'k'],
        DebugOptions::StackTop(n) => seq!['s', 't', 'a', 'c', 'k', '.'] + decimal(n as nat),
        DebugOptions::MemAll => seq!['m', 'e', 'm'],
        DebugOptions::MemInterval(n, m) => seq!['m', 'e', 'm', '.'] + decimal(n as nat) + seq![
            '.',
        ] + decimal(m as nat),
        DebugOptions::LocalInterval(interval, _, print_all) => if print_all {
            seq!['l', 'o', 'c', 'a', 'l']
        } else {
            seq!['l', 'o', 'c', 'a', 'l', '.'] + decimal(interval.0 as nat) + seq!['.'] + decimal(
                interval.1 as nat,
            )
        },
        DebugOptions::All(_) => seq!['a', 'l', 'l'],
    }
}

fn digit_str(d: u32) -> (r: &'static str)
    requires
        d < 10,
    ensures
        r@ == seq![digit_char(d as nat)],
{
    proof {
        reveal_strlit("0");
        reveal_strlit("1");
        reveal_strlit("2");
        reveal_strlit("3");
        reveal_strlit("4");
        reveal_strlit("5");
        reveal_strlit("6");
        reveal_strlit("7");
        reveal_strlit("8");
        reveal_strlit("9");
    }
    if d == 0 {
        "0"
    } else if d == 1 {
        "1"
    } else if d == 2 {
        "2"
    } else if d == 3 {
        "3"
    } else if d == 4 {
        "4"
    } else if d == 5 {
        "5"
    } else if d == 6 {
        "6"
    } else if d == 7 {
        "7"
    } else if d == 8 {
        "8"
    } else {
        "9"
    }
}

/// Appends the decimal form of `n`.
pub fn append_decimal(s: &mut String, n: u32)
    ensures
        final(s)@ == old(s)@ + decimal(n as nat),
    decreases n,
{
    if n >= 10 {
        append_decimal(s, n / 10);
    }
    s.append(digit_str(n % 10));
    assert(final(s)@ =~= old(s)@ + decimal(n as nat));
}

impl DebugOptions {
    /// The text of the options, as written after `debug.` in assembly source (`stack.8`,
    /// `mem.0.7`, `local`).
    pub fn to_string(&self) -> (r: String)
        ensures
            r@ == options_text(*self),
    {
        let mut s = String::new();
        match self {
            DebugOptions::StackAll => {
                proof {
                    reveal_strlit("stack");
                }
                s.append("stack");
            },
            DebugOptions::StackTop(n) => {
                proof {
                    reveal_strlit("stack.");
                }
                s.append("stack.");
                append_decimal(&mut s, *n as u32);
            },
            DebugOptions::MemAll => {
                proof {
                    reveal_strlit("mem");
                }
                s.append("mem");
            },
            DebugOptions::MemInterval(n, m) => {
                proof {
                    reveal_strlit("mem.");
                    reveal_strlit(".");
                }
                s.append("mem.");
                append_decimal(&mut s, *n);
                s.append(".");
                append_decimal(&mut s, *m);
            },
            DebugOptions::LocalInterval(interval, _, print_all) => {
                if *print_all {
                    proof {
                        reveal_strlit("local");
                    }
                    s.append("local");
                } else {
                    proof {
                        reveal_strlit("local.");
                        reveal_strlit(".");
                    }
                    s.append("local.");
                    append_decimal(&mut s, interval.0);
                    s.append(".");
                    append_decimal(&mut s, interval.1);
                }
            },
            DebugOptions::All(_) => {
                proof {
                    reveal_strlit("all");
                }
                s.append("all");
            },
        }
        assert(s@ =~= options_text(*self));
        s
    }
}

} // verus!
