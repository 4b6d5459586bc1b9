//! The match record: an immutable value pairing a matched token with the
//! file and 1-based line number it was found on, with a fixed textual
//! rendering `{file}:{line_number}\t{token}`.

use vstd::prelude::*;
use vstd::string::StringExecFns;

verus! {

/// The mathematical content of a `Hit`: the matched token, the path of the
/// file it was found in, and its 1-based line number.
pub struct HitView {
    pub data: Seq<char>,
    pub file: Seq<char>,
    pub line_number: nat,
}

/// A match record: a token whose distance to the search target fell below
/// the threshold, together with the file and 1-based line it appeared on.
pub struct Hit {
    data: String,
    file: String,
    line_number: usize,
}

impl View for Hit {
    type V = HitView;

    closed spec fn view(&self) -> HitView {
        HitView { data: self.data@, file: self.file@, line_number: self.line_number as nat }
    }
}

impl DeepView for Hit {
    type V = HitView;

    open spec fn deep_view(&self) -> HitView {
        self.view()
    }
}

/// The character for a single decimal digit.
pub open spec fn digit_char(d: int) -> char {
    if d == 0 {
        '0'
    } else if d == 1 {
        '1'
    } else if d == 2 {
        '2'
    } else if d == 3 {
        '3'
    } else if d == 4 {
        '4'
    } else if d == 5 {
        '5'
    } else if d == 6 {
        '6'
    } else if d == 7 {
        '7'
    } else if d == 8 {
        '8'
    } else {
        '9'
    }
}

/// The decimal digit characters of `n`, most significant first, with no
/// leading zeros.
pub open spec fn dec_str(n: nat) -> Seq<char>
    decreases n,
{
    if n < 10 {
        seq![digit_char(n as int)]
    } else {
        dec_str(n / 10).push(digit_char((n % 10) as int))
    }
}

/// The fixed rendering of a match record: `{file}:{line_number}\t{token}`.
pub open spec fn render_spec(h: HitView) -> Seq<char> {
    h.file + seq![':'] + dec_str(h.line_number) + seq!['\t'] + h.data
}

/// Appends the character of the decimal digit `d`.
fn push_digit(s: &mut String, d: usize)
    requires
        d < 10,
    ensures
        final (s)@ == old(s)@ + seq![digit_char(d as int)],
{
    if d == 0 {
        s.append("0");
        proof {
            reveal_strlit("0");
            assert(s@ =~= old(s)@ + seq![digit_char(d as int)]);
        }
    } else if d == 1 {
        s.append("1");
        proof {
            reveal_strlit("1");
            assert(s@ =~= old(s)@ + seq![digit_char(d as int)]);
        }
    } else if d == 2 {
        s.append("2");
        proof {
            reveal_strlit("2");
            assert(s@ =~= old(s)@ + seq![digit_char(d as int)]);
        }
    } else if d == 3 {
        s.append("3");
        proof {
            reveal_strlit("3");
            assert(s@ =~= old(s)@ + seq![digit_char(d as int)]);
        }
    } else if d == 4 {
        s.append("4");
        proof {
            reveal_strlit("4");
            assert(s@ =~= old(s)@ + seq![digit_char(d as int)]);
        }
    } else if d == 5 {
        s.append("5");
        proof {
            reveal_strlit("5");
            assert(s@ =~= old(s)@ + seq![digit_char(d as int)]);
        }
    } else if d == 6 {
        s.append("6");
        proof {
            reveal_strlit("6");
            assert(s@ =~= old(s)@ + seq![digit_char(d as int)]);
        }
    } else if d == 7 {
        s.append("7");
        proof {
            reveal_strlit("7");
            assert(s@ =~= old(s)@ + seq![digit_char(d as int)]);
        }
    } else if d == 8 {
        s.append("8");
        proof {
            reveal_strlit("8");
            assert(s@ =~= old(s)@ + seq![digit_char(d as int)]);
        }
    } else {
        s.append("9");
        proof {
            reveal_strlit("9");
            assert(s@ =~= old(s)@ + seq![digit_char(d as int)]);
        }
    }
}

/// Appends the decimal rendering of `n`, most significant digit first.
pub fn push_decimal(s: &mut String, n: usize)
    ensures
        final (s)@ == old(s)@ + dec_str(n as nat),
    decreases n,
{
    if n < 10 {
        push_digit(s, n);
    } else {
        proof {
            assert(n / 10 < n) by (nonlinear_arith)
                requires
                    10 <= n,
            ;
        }
        push_decimal(s, n / 10);
        push_digit(s, n % 10);
        proof {
            assert(s@ =~= old(s)@ + dec_str(n as nat));
        }
    }
}

impl Hit {
    /// Wraps a matched token with its source file and 1-based line number.
    pub fn new(data: String, file: String, line_number: usize) -> (h: Hit)
        requires
            line_number >= 1,
        ensures
            h@ == (HitView { data: data@, file: file@, line_number: line_number as nat }),
    {
        Hit { data, file, line_number }
    }

    /// Renders the record as `{file}:{line_number}\t{token}`.
    pub fn render(&self) -> (s: String)
        ensures
            s@ == render_spec(self@),
    {
        let mut s = self.file.clone();
        s.append(":");
        push_decimal(&mut s, self.line_number);
        s.append("\t");
        s.append(self.data.as_str());
        proof {
            reveal_strlit(":");
            reveal_strlit("\t");
            assert(s@ =~= render_spec(self@));
        }
        s
    }
}

} // verus!
