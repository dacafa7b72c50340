//! Canonical human-readable text for the library's values.
//!
//! Polynomials and extension-field elements render highest-degree term
//! first, omit zero coefficients, omit a coefficient of exactly one except
//! for the constant term, and write `^k` only above degree one; an
//! identically zero polynomial renders as "0".  Vectors render as a
//! bracketed, comma-separated list; a matrix renders one such row per
//! line.  The contracts pin the produced character sequence exactly,
//! through the spec functions below.

use crate::field::Field;
use crate::matrix::Matrix;
use crate::poly::Poly;
use crate::rfq::RFq;
use crate::rzp::RZp;
use crate::vector::Vector;
use vstd::prelude::*;
use vstd::string::StringExecFns;

verus! {

/// The character of one decimal digit.
pub open spec fn digit_char(d: int) -> char {
    if d == 0 {
        '0'
    } else if d == 1 {
        '1'
    } else if d == 2 {
        '2'
    } else if d == 3 {
        '3'
    } else if d == 4 {
        '4'
    } else if d == 5 {
        '5'
    } else if d == 6 {
        '6'
    } else if d == 7 {
        '7'
    } else if d == 8 {
        '8'
    } else {
        '9'
    }
}

/// The decimal text of a non-negative integer.
pub open spec fn dec_chars(n: int) -> Seq<char>
    decreases n,
{
    if n < 10 {
        seq![digit_char(n)]
    } else {
        dec_chars(n / 10).push(digit_char(n % 10))
    }
}

/// The residues of a sequence of prime-field coefficients.
pub open spec fn residues(s: Seq<RZp>) -> Seq<int> {
    Seq::new(s.len(), |i: int| s[i].value_model()[0])
}

/// One rendered term: the coefficient (omitted when it is one and the
/// degree is positive), then the variable and its exponent.
pub open spec fn term_chars(v: int, i: int, var: Seq<char>) -> Seq<char> {
    (if v != 1 || i == 0 {
        dec_chars(v)
    } else {
        Seq::<char>::empty()
    }) + (if i > 0 {
        var + (if i > 1 {
            seq!['^'] + dec_chars(i)
        } else {
            Seq::<char>::empty()
        })
    } else {
        Seq::<char>::empty()
    })
}

/// The rendered terms from index `i` down to the constant term, skipping
/// zero coefficients; `first` says whether no term has been written yet,
/// so whether the next term still goes without a separator.
pub open spec fn terms_chars(cs: Seq<int>, i: int, first: bool, var: Seq<char>) -> Seq<char>
    decreases i + 1,
{
    if i < 0 {
        Seq::<char>::empty()
    } else if cs[i] == 0 {
        terms_chars(cs, i - 1, first, var)
    } else {
        (if first {
            Seq::<char>::empty()
        } else {
            seq![' ', '+', ' ']
        }) + term_chars(cs[i], i, var) + terms_chars(cs, i - 1, false, var)
    }
}

/// The full rendering of a polynomial given by its residues: its terms,
/// or "0" when it is identically zero.
pub open spec fn poly_chars(cs: Seq<int>, var: Seq<char>) -> Seq<char> {
    if forall|k: int| 0 <= k < cs.len() ==> cs[k] == 0 {
        seq!['0']
    } else {
        terms_chars(cs, cs.len() - 1, true, var)
    }
}

/// The rendered entries of a bracketed list from index `i` on, each after
/// its separator.
pub open spec fn entries_chars(cs: Seq<int>, i: int) -> Seq<char>
    decreases cs.len() - i,
{
    if i < 0 || i >= cs.len() {
        Seq::<char>::empty()
    } else {
        (if i > 0 {
            seq![',', ' ']
        } else {
            Seq::<char>::empty()
        }) + dec_chars(cs[i]) + entries_chars(cs, i + 1)
    }
}

/// The full rendering of a vector of residues.
pub open spec fn vector_chars(cs: Seq<int>) -> Seq<char> {
    seq!['['] + entries_chars(cs, 0) + seq![']']
}

/// The rendered rows of a row-major matrix from row `i` on, one bracketed
/// list per line.
pub open spec fn rows_chars(cs: Seq<int>, cols: int, rows: int, i: int) -> Seq<char>
    decreases rows - i,
{
    if i < 0 || i >= rows {
        Seq::<char>::empty()
    } else {
        vector_chars(cs.subrange(i * cols, (i + 1) * cols)) + seq!['\n'] + rows_chars(
            cs,
            cols,
            rows,
            i + 1,
        )
    }
}

/// The rendering of the low-order digits already pulled off a number,
/// least significant first in the sequence, most significant first in the
/// text.
pub open spec fn low_digits_chars(ds: Seq<u64>) -> Seq<char>
    decreases ds.len(),
{
    if ds.len() == 0 {
        Seq::<char>::empty()
    } else {
        low_digits_chars(ds.subrange(1, ds.len() as int)) + seq![digit_char(ds[0] as int)]
    }
}

/// Pulling off one more (more significant) digit prepends its character.
proof fn lemma_low_digits_push(ds: Seq<u64>, d: u64)
    ensures
        low_digits_chars(ds.push(d)) == seq![digit_char(d as int)] + low_digits_chars(ds),
    decreases ds.len(),
{
    let e = ds.push(d);
    if ds.len() == 0 {
        assert(e.subrange(1, e.len() as int) =~= Seq::<u64>::empty());
        assert(low_digits_chars(Seq::<u64>::empty()) == Seq::<char>::empty());
        assert(low_digits_chars(e) == low_digits_chars(e.subrange(1, e.len() as int)) + seq![
            digit_char(e[0] as int),
        ]);
        assert(low_digits_chars(e) =~= seq![digit_char(d as int)] + low_digits_chars(ds));
    } else {
        let tail = ds.subrange(1, ds.len() as int);
        assert(e.subrange(1, e.len() as int) =~= tail.push(d));
        lemma_low_digits_push(tail, d);
        assert(low_digits_chars(e) == low_digits_chars(tail.push(d)) + seq![
            digit_char(e[0] as int),
        ]);
        assert(e[0] == ds[0]);
        assert(low_digits_chars(ds) == low_digits_chars(tail) + seq![digit_char(ds[0] as int)]);
        assert((seq![digit_char(d as int)] + low_digits_chars(tail)) + seq![
            digit_char(ds[0] as int),
        ] =~= seq![digit_char(d as int)] + (low_digits_chars(tail) + seq![
            digit_char(ds[0] as int),
        ]));
        assert(low_digits_chars(e) =~= seq![digit_char(d as int)] + low_digits_chars(ds));
    }
}

/// On an identically zero coefficient sequence no term is rendered.
proof fn lemma_terms_all_zero(cs: Seq<int>, i: int, first: bool, var: Seq<char>)
    requires
        forall|k: int| 0 <= k < cs.len() ==> cs[k] == 0,
        i < cs.len(),
    ensures
        terms_chars(cs, i, first, var) == Seq::<char>::empty(),
    decreases i + 1,
{
    if i >= 0 {
        lemma_terms_all_zero(cs, i - 1, first, var);
    }
}

/// The text of one decimal digit.
fn digit_text(d: u64) -> (s: &'static str)
    requires
        d < 10,
    ensures
        s@ == seq![digit_char(d as int)],
{
    proof {
        reveal_strlit("0");
        reveal_strlit("1");
        reveal_strlit("2");
        reveal_strlit("3");
        reveal_strlit("4");
        reveal_strlit("5");
        reveal_strlit("6");
        reveal_strlit("7");
        reveal_strlit("8");
        reveal_strlit("9");
    }
    if d == 0 {
        "0"
    } else if d == 1 {
        "1"
    } else if d == 2 {
        "2"
    } else if d == 3 {
        "3"
    } else if d == 4 {
        "4"
    } else if d == 5 {
        "5"
    } else if d == 6 {
        "6"
    } else if d == 7 {
        "7"
    } else if d == 8 {
        "8"
    } else {
        "9"
    }
}

/// The decimal text of a machine integer.
#[verifier::rlimit(50)]
pub fn u64_text(n: u64) -> (s: String)
    ensures
        s@ == dec_chars(n as int),
{
    let mut digits: Vec<u64> = Vec::new();
    let mut m: u64 = n;
    while m >= 10
        invariant
            dec_chars(n as int) == dec_chars(m as int) + low_digits_chars(digits@),
            forall|k: int| 0 <= k < digits@.len() ==> digits@[k] < 10,
        decreases m,
    {
        let d: u64 = m % 10;
        proof {
            lemma_low_digits_push(digits@, d);
            assert(dec_chars(m as int) == dec_chars(m as int / 10).push(
                digit_char(m as int % 10),
            ));
            assert(dec_chars(m as int / 10).push(digit_char(d as int)) =~= dec_chars(
                m as int / 10,
            ) + seq![digit_char(d as int)]);
            assert(dec_chars(m as int / 10) + seq![digit_char(d as int)] + low_digits_chars(
                digits@,
            ) =~= dec_chars(m as int / 10) + (seq![digit_char(d as int)] + low_digits_chars(
                digits@,
            )));
        }
        digits.push(d);
        m = m / 10;
    }
    let mut s = String::new();
    s.append(digit_text(m));
    let mut i: usize = digits.len();
    proof {
        assert(digits@.subrange(0, i as int) =~= digits@);
        assert(Seq::<char>::empty() + seq![digit_char(m as int)] =~= seq![
            digit_char(m as int),
        ]);
    }
    while i > 0
        invariant
            i <= digits@.len(),
            forall|k: int| 0 <= k < digits@.len() ==> digits@[k] < 10,
            dec_chars(n as int) == s@ + low_digits_chars(digits@.subrange(0, i as int)),
        decreases i,
    {
        i -= 1;
        proof {
            assert(digits@.subrange(0, i as int + 1) =~= digits@.subrange(0, i as int).push(
                digits@[i as int],
            ));
            lemma_low_digits_push(digits@.subrange(0, i as int), digits@[i as int]);
        }
        let d: u64 = digits[i];
        proof {
            assert(d < 10);
            assert(s@ + (seq![digit_char(d as int)] + low_digits_chars(
                digits@.subrange(0, i as int),
            )) =~= (s@ + seq![digit_char(d as int)]) + low_digits_chars(
                digits@.subrange(0, i as int),
            ));
        }
        s.append(digit_text(d));
    }
    proof {
        assert(digits@.subrange(0, 0) =~= Seq::<u64>::empty());
        assert(s@ + Seq::<char>::empty() =~= s@);
    }
    s
}

/// Renders a prime-field coefficient sequence as a polynomial in the given
/// variable.
#[verifier::rlimit(80)]
fn render_terms(cs: &Vec<RZp>, var: &str) -> (s: String)
    ensures
        s@ == poly_chars(residues(cs@), var@),
{
    let ghost rs = residues(cs@);
    let ghost vr = var@;
    let mut s = String::new();
    let mut first: bool = true;
    let mut i: usize = cs.len();
    proof {
        assert(Seq::<char>::empty() + terms_chars(rs, rs.len() - 1, true, vr) =~= terms_chars(
            rs,
            rs.len() - 1,
            true,
            vr,
        ));
    }
    while i > 0
        invariant
            i <= cs@.len(),
            rs == residues(cs@),
            vr == var@,
            first <==> (forall|k: int| i as int <= k < rs.len() ==> rs[k] == 0),
            terms_chars(rs, rs.len() - 1, true, vr) == s@ + terms_chars(
                rs,
                i as int - 1,
                first,
                vr,
            ),
        decreases i,
    {
        i -= 1;
        let v: u64 = cs[i].val();
        let ghost s_before = s@;
        let ghost first_before = first;
        if v != 0 {
            if !first {
                proof {
                    reveal_strlit(" + ");
                }
                s.append(" + ");
            }
            if v != 1 || i == 0 {
                let t = u64_text(v);
                s.append(t.as_str());
            }
            if i > 0 {
                s.append(var);
                if i > 1 {
                    proof {
                        reveal_strlit("^");
                    }
                    s.append("^");
                    let e = u64_text(i as u64);
                    s.append(e.as_str());
                }
            }
            first = false;
            proof {
                let sep: Seq<char> = if first_before {
                    Seq::<char>::empty()
                } else {
                    seq![' ', '+', ' ']
                };
                assert(rs[i as int] == v as int);
                assert(s@ =~= s_before + sep + term_chars(rs[i as int], i as int, vr));
                assert(terms_chars(rs, i as int, first_before, vr) == sep + term_chars(
                    rs[i as int],
                    i as int,
                    vr,
                ) + terms_chars(rs, i as int - 1, false, vr));
                assert(s_before + (sep + term_chars(rs[i as int], i as int, vr) + terms_chars(
                    rs,
                    i as int - 1,
                    false,
                    vr,
                )) =~= (s_before + sep + term_chars(rs[i as int], i as int, vr)) + terms_chars(
                    rs,
                    i as int - 1,
                    false,
                    vr,
                ));
            }
        } else {
            proof {
                assert(rs[i as int] == 0);
            }
        }
    }
    if first {
        proof {
            reveal_strlit("0");
            lemma_terms_all_zero(rs, rs.len() - 1, true, vr);
            assert(s@ + terms_chars(rs, -1, first, vr) =~= s@);
            assert(s@ =~= Seq::<char>::empty());
        }
        s.append("0");
        proof {
            assert(s@ =~= seq!['0']);
        }
    } else {
        proof {
            assert(s@ + terms_chars(rs, -1, false, vr) =~= s@);
            assert(!(forall|k: int| 0 <= k < rs.len() ==> rs[k] == 0));
        }
    }
    s
}

impl RZp {
    /// The canonical text of this element: its residue in decimal.
    pub fn to_text(&self) -> (s: String)
        ensures
            s@ == dec_chars(self.value_model()[0]),
    {
        u64_text(self.val())
    }
}

impl Poly<RZp> {
    /// The canonical text of this polynomial, in the variable `x`.
    pub fn to_text(&self) -> (s: String)
        ensures
            s@ == poly_chars(residues(self@), seq!['x']),
    {
        proof {
            reveal_strlit("x");
            assert("x"@ =~= seq!['x']);
        }
        render_terms(self.coefficients(), "x")
    }
}

impl RFq {
    /// The canonical text of this element: its representative polynomial
    /// in the fixed generator `a`.
    pub fn to_text(&self) -> (s: String)
        ensures
            s@ == poly_chars(self.value_model(), seq!['a']),
    {
        proof {
            reveal_strlit("a");
            assert("a"@ =~= seq!['a']);
        }
        let rep = self.representative();
        proof {
            assert(residues(rep@) =~= crate::rfq::flat(crate::poly::models(rep@)));
        }
        render_terms(rep.coefficients(), "a")
    }
}

impl Vector<RZp> {
    /// The canonical text of this vector: a bracketed, comma-separated
    /// list of residues.
    pub fn to_text(&self) -> (s: String)
        ensures
            s@ == vector_chars(residues(self@)),
    {
        let ghost rs = residues(self@);
        let mut s = String::new();
        proof {
            reveal_strlit("[");
            reveal_strlit("]");
            reveal_strlit(", ");
        }
        s.append("[");
        proof {
            assert(Seq::<char>::empty() + seq!['['] =~= seq!['[']);
        }
        let mut i: usize = 0;
        while i < self.len()
            invariant
                i <= self@.len(),
                rs == residues(self@),
                seq!['['] + entries_chars(rs, 0) == s@ + entries_chars(rs, i as int),
            decreases self@.len() - i,
        {
            let ghost s_before = s@;
            proof {
                reveal_strlit(", ");
            }
            if i > 0 {
                s.append(", ");
            }
            let t = u64_text(self.get(i).val());
            s.append(t.as_str());
            proof {
                let sep: Seq<char> = if i as int > 0 {
                    seq![',', ' ']
                } else {
                    Seq::<char>::empty()
                };
                assert(s@ =~= s_before + sep + dec_chars(rs[i as int]));
                assert(entries_chars(rs, i as int) == sep + dec_chars(rs[i as int])
                    + entries_chars(rs, i as int + 1));
                assert(s_before + (sep + dec_chars(rs[i as int]) + entries_chars(
                    rs,
                    i as int + 1,
                )) =~= (s_before + sep + dec_chars(rs[i as int])) + entries_chars(
                    rs,
                    i as int + 1,
                ));
            }
            i += 1;
        }
        proof {
            reveal_strlit("]");
            assert(entries_chars(rs, rs.len() as int) =~= Seq::<char>::empty());
            assert(s@ + Seq::<char>::empty() =~= s@);
        }
        s.append("]");
        s
    }
}

impl Matrix<RZp> {
    /// The canonical text of this matrix: one bracketed row per line.
    pub fn to_text(&self) -> (s: String)
        requires
            self.well_sized(),
        ensures
            s@ == rows_chars(residues(self@), self.ncols(), self.nrows(), 0),
    {
        let ghost rs = residues(self@);
        let rows = self.rows();
        let cols = self.cols();
        let mut s = String::new();
        proof {
            reveal_strlit("[");
            reveal_strlit("]");
            reveal_strlit(", ");
            reveal_strlit("\n");
            assert(Seq::<char>::empty() + rows_chars(rs, cols as int, rows as int, 0)
                =~= rows_chars(rs, cols as int, rows as int, 0));
        }
        let mut i: usize = 0;
        while i < rows
            invariant
                i <= rows,
                rows as int == self.nrows(),
                cols as int == self.ncols(),
                self.well_sized(),
                rs == residues(self@),
                rows_chars(rs, cols as int, rows as int, 0) == s@ + rows_chars(
                    rs,
                    cols as int,
                    rows as int,
                    i as int,
                ),
            decreases rows - i,
        {
            proof {
                reveal_strlit("[");
                reveal_strlit("]");
                reveal_strlit("\n");
                assert(0 <= (i as int) * (cols as int) && ((i as int) + 1) * (cols as int) <= (
                rows as int) * (cols as int)) by (nonlinear_arith)
                    requires
                        0 <= (i as int) < (rows as int),
                        0 <= (cols as int),
                ;
            }
            let ghost row = rs.subrange(i as int * cols as int, (i as int + 1) * cols as int);
            proof {
                assert(((i as int) + 1) * (cols as int) == (i as int) * (cols as int) + (
                cols as int)) by (nonlinear_arith);
                assert(row.len() == cols as int);
            }
            let ghost s_row_start = s@;
            s.append("[");
            proof {
                assert(s@ =~= s_row_start + seq!['[']);
            }
            let mut j: usize = 0;
            while j < cols
                invariant
                    j <= cols,
                    i < rows,
                    rows as int == self.nrows(),
                    cols as int == self.ncols(),
                    self.well_sized(),
                    rs == residues(self@),
                    row == rs.subrange(i as int * cols as int, (i as int + 1) * cols as int),
                    row.len() == cols as int,
                    s_row_start + seq!['['] + entries_chars(row, 0) == s@ + entries_chars(
                        row,
                        j as int,
                    ),
                decreases cols - j,
            {
                let ghost s_before = s@;
                proof {
                    reveal_strlit(", ");
                    assert(0 <= (i as int) * (cols as int) && ((i as int) + 1) * (cols as int)
                        <= (rows as int) * (cols as int)) by (nonlinear_arith)
                        requires
                            0 <= (i as int) < (rows as int),
                            0 <= (cols as int),
                    ;
                    assert((i as int) * (cols as int) + (j as int) < ((i as int) + 1) * (
                    cols as int)) by (nonlinear_arith)
                        requires
                            0 <= (j as int) < (cols as int),
                    ;
                }
                if j > 0 {
                    s.append(", ");
                }
                let t = u64_text(self.get(i, j).val());
                s.append(t.as_str());
                proof {
                    let sep: Seq<char> = if j as int > 0 {
                        seq![',', ' ']
                    } else {
                        Seq::<char>::empty()
                    };
                    assert(row[j as int] == rs[i as int * cols as int + j as int]);
                    assert(s@ =~= s_before + sep + dec_chars(row[j as int]));
                    assert(entries_chars(row, j as int) == sep + dec_chars(row[j as int])
                        + entries_chars(row, j as int + 1));
                    assert(s_before + (sep + dec_chars(row[j as int]) + entries_chars(
                        row,
                        j as int + 1,
                    )) =~= (s_before + sep + dec_chars(row[j as int])) + entries_chars(
                        row,
                        j as int + 1,
                    ));
                }
                j += 1;
            }
            proof {
                reveal_strlit("]");
                reveal_strlit("\n");
            }
            s.append("]");
            s.append("\n");
            proof {
                assert(entries_chars(row, cols as int) =~= Seq::<char>::empty());
                assert(s@ =~= s_row_start + (vector_chars(row) + seq!['\n']));
                assert(rows_chars(rs, cols as int, rows as int, i as int) == vector_chars(row)
                    + seq!['\n'] + rows_chars(rs, cols as int, rows as int, i as int + 1));
                assert(s_row_start + (vector_chars(row) + seq!['\n'] + rows_chars(
                    rs,
                    cols as int,
                    rows as int,
                    i as int + 1,
                )) =~= (s_row_start + (vector_chars(row) + seq!['\n'])) + rows_chars(
                    rs,
                    cols as int,
                    rows as int,
                    i as int + 1,
                ));
            }
            i += 1;
        }
        proof {
            assert(rows_chars(rs, cols as int, rows as int, rows as int) =~= Seq::<char>::empty());
            assert(s@ + Seq::<char>::empty() =~= s@);
        }
        s
    }
}

} // verus!
