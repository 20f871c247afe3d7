//! Plain-text rendering of numbers and matrices: decimal strings for machine
//! integers and rationals, and a tab-separated rendering of a rational
//! matrix, every character of which is pinned down by the contracts.

use crate::matrix_2d::Matrix2D;
use crate::rational::{Rat, SpecRat};
use vstd::prelude::*;

verus! {

/// The character for one decimal digit.
pub open spec fn digit_char(d: int) -> char {
    if d == 0 {
        '0'
    } else if d == 1 {
        '1'
    } else if d == 2 {
        '2'
    } else if d == 3 {
        '3'
    } else if d == 4 {
        '4'
    } else if d == 5 {
        '5'
    } else if d == 6 {
        '6'
    } else if d == 7 {
        '7'
    } else if d == 8 {
        '8'
    } else {
        '9'
    }
}

/// The decimal digits of a non-negative number, most significant first.
pub open spec fn spec_decimal(n: nat) -> Seq<char>
    decreases n,
{
    if n < 10 {
        seq![digit_char(n as int)]
    } else {
        spec_decimal(n / 10) + seq![digit_char((n % 10) as int)]
    }
}

/// The string for one decimal digit.
fn digit_str(d: u128) -> (s: &'static str)
    requires
        d < 10,
    ensures
        s@ == seq![digit_char(d as int)],
{
    let s: &'static str = match d {
        0 => "0",
        1 => "1",
        2 => "2",
        3 => "3",
        4 => "4",
        5 => "5",
        6 => "6",
        7 => "7",
        8 => "8",
        _ => "9",
    };
    proof {
        reveal_strlit("0");
        reveal_strlit("1");
        reveal_strlit("2");
        reveal_strlit("3");
        reveal_strlit("4");
        reveal_strlit("5");
        reveal_strlit("6");
        reveal_strlit("7");
        reveal_strlit("8");
        reveal_strlit("9");
        assert(s@ =~= seq![digit_char(d as int)]);
    }
    s
}

/// Appends the decimal digits of `n` to `s`.
fn push_decimal(s: &mut String, n: u128)
    ensures
        final(s)@ == old(s)@ + spec_decimal(n as nat),
    decreases n,
{
    if n < 10 {
        s.append(digit_str(n));
    } else {
        proof {
            vstd::arithmetic::div_mod::lemma_div_decreases(n as int, 10);
        }
        push_decimal(s, n / 10);
        s.append(digit_str(n % 10));
        proof {
            assert(old(s)@ + spec_decimal((n / 10) as nat) + seq![
                digit_char((n % 10) as int),
            ] =~= old(s)@ + spec_decimal(n as nat));
        }
    }
}

/// The decimal string of a non-negative number.
pub fn decimal_string(n: u128) -> (s: String)
    ensures
        s@ == spec_decimal(n as nat),
{
    let mut s = String::new();
    push_decimal(&mut s, n);
    proof {
        assert(Seq::<char>::empty() + spec_decimal(n as nat) =~= spec_decimal(n as nat));
    }
    s
}

/// A rational rendered with two decimal places: an optional minus sign, the
/// integer part, a point, and two digits.  The value is rounded to the
/// nearest hundredth, halves away from zero.
pub open spec fn spec_rat_decimal(a: SpecRat) -> Seq<char> {
    let mag = (if a.0 < 0 {
        -a.0
    } else {
        a.0
    }) * 100;
    let q = mag / a.1;
    let r = mag % a.1;
    let rounded = q + (if 2 * r >= a.1 {
        1int
    } else {
        0int
    });
    (if a.0 < 0 {
        seq!['-']
    } else {
        Seq::<char>::empty()
    }) + spec_decimal((rounded / 100) as nat) + seq!['.'] + seq![
        digit_char((rounded / 10) % 10),
        digit_char(rounded % 10),
    ]
}

impl Rat {
    /// This rational with two decimal places, rounded to the nearest
    /// hundredth with halves away from zero.
    pub fn to_decimal_string(&self) -> (s: String)
        requires
            self.wf(),
        ensures
            s@ == spec_rat_decimal(self@),
    {
        let num = self.numerator();
        let den = self.denominator();
        let neg = num < 0;
        let mag: u128 = (if neg {
            -(num as i128)
        } else {
            num as i128
        }) as u128 * 100;
        let d = den as u128;
        let q = mag / d;
        let r = mag % d;
        let rounded = q + (if 2 * r >= d {
            1
        } else {
            0
        });
        let mut s = String::new();
        if neg {
            proof {
                reveal_strlit("-");
            }
            s.append("-");
        }
        push_decimal(&mut s, rounded / 100);
        proof {
            reveal_strlit(".");
        }
        s.append(".");
        s.append(digit_str((rounded / 10) % 10));
        s.append(digit_str(rounded % 10));
        proof {
            if neg {
                assert("-"@ =~= seq!['-']);
            }
            assert(".".view() =~= seq!['.']);
            assert(s@ =~= spec_rat_decimal(self@));
        }
        s
    }
}

/// Row `i` of the matrix from column `j` on: each entry with two decimal
/// places and a trailing tab, then a newline.
pub open spec fn spec_render_row(m: &Matrix2D<Rat>, i: int, j: int) -> Seq<char>
    decreases m.spec_columns() - j,
{
    if j < 0 || j >= m.spec_columns() {
        seq!['\n']
    } else {
        spec_rat_decimal(m.spec_index(i, j)@) + seq!['\t'] + spec_render_row(m, i, j + 1)
    }
}

/// The matrix from row `i` on, one line per row.
pub open spec fn spec_render(m: &Matrix2D<Rat>, i: int) -> Seq<char>
    decreases m.spec_rows() - i,
{
    if i < 0 || i >= m.spec_rows() {
        Seq::<char>::empty()
    } else {
        spec_render_row(m, i, 0) + spec_render(m, i + 1)
    }
}

/// Appends row `i` of the matrix, from column `j` on, to `s`.
fn push_row(s: &mut String, m: &Matrix2D<Rat>, i: usize, j: usize)
    requires
        m.wf(),
        i < m.spec_rows(),
        j <= m.spec_columns(),
        forall|a: int, b: int|
            m.spec_indices_valid(a, b) ==> (#[trigger] m.spec_index(a, b)).wf(),
    ensures
        final(s)@ == old(s)@ + spec_render_row(m, i as int, j as int),
    decreases m.spec_columns() - j,
{
    if j < m.columns() {
        match m.get(i, j) {
            Some(v) => {
                let t = v.to_decimal_string();
                s.append(t.as_str());
            },
            None => {
                proof {
                    assert(false);
                }
            },
        }
        proof {
            reveal_strlit("\t");
        }
        s.append("\t");
        push_row(s, m, i, j + 1);
        proof {
            assert("\t"@ =~= seq!['\t']);
            assert(old(s)@ + spec_rat_decimal(m.spec_index(i as int, j as int)@) + seq!['\t']
                + spec_render_row(m, i as int, j as int + 1) =~= old(s)@ + spec_render_row(
                m,
                i as int,
                j as int,
            ));
        }
    } else {
        proof {
            reveal_strlit("\n");
        }
        s.append("\n");
        proof {
            assert("\n"@ =~= seq!['\n']);
            assert(old(s)@ + seq!['\n'] =~= old(s)@ + spec_render_row(m, i as int, j as int));
        }
    }
}

/// Appends the matrix, from row `i` on, to `s`.
fn push_rows(s: &mut String, m: &Matrix2D<Rat>, i: usize)
    requires
        m.wf(),
        i <= m.spec_rows(),
        forall|a: int, b: int|
            m.spec_indices_valid(a, b) ==> (#[trigger] m.spec_index(a, b)).wf(),
    ensures
        final(s)@ == old(s)@ + spec_render(m, i as int),
    decreases m.spec_rows() - i,
{
    if i < m.rows() {
        push_row(s, m, i, 0);
        push_rows(s, m, i + 1);
        proof {
            assert(old(s)@ + spec_render_row(m, i as int, 0) + spec_render(m, i as int + 1)
                =~= old(s)@ + spec_render(m, i as int));
        }
    } else {
        proof {
            assert(old(s)@ + spec_render(m, i as int) =~= old(s)@);
        }
    }
}

impl Matrix2D<Rat> {
    /// The matrix as text: each entry with two decimal places and a trailing
    /// tab, one line per row.
    pub fn render(&self) -> (s: String)
        requires
            self.wf(),
            forall|a: int, b: int|
                self.spec_indices_valid(a, b) ==> (#[trigger] self.spec_index(a, b)).wf(),
        ensures
            s@ == spec_render(self, 0),
    {
        let mut s = String::new();
        push_rows(&mut s, self, 0);
        proof {
            assert(Seq::<char>::empty() + spec_render(self, 0) =~= spec_render(self, 0));
        }
        s
    }
}

} // verus!
