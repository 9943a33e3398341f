use vstd::prelude::*;
use vstd::string::*;
use crate::number::{
    digits_of, digits_wf, lemma_digits_of_wf, push_digits, DecSpec, JsNumber, NumSpec,
};

verus! {

// Text form of an engine number, following the engine's own rendering rules
// for decimals: plain positional notation for moderate magnitudes, a leading
// "0." block for small ones, and exponential notation beyond 21 digits of
// integer part or below 10^-6.

pub open spec fn char_of_digit(d: u8) -> char {
    if d == 0 {
        '0'
    } else if d == 1 {
        '1'
    } else if d == 2 {
        '2'
    } else if d == 3 {
        '3'
    } else if d == 4 {
        '4'
    } else if d == 5 {
        '5'
    } else if d == 6 {
        '6'
    } else if d == 7 {
        '7'
    } else if d == 8 {
        '8'
    } else {
        '9'
    }
}

pub open spec fn digits_chars(s: Seq<u8>) -> Seq<char> {
    s.map_values(|d: u8| char_of_digit(d))
}

pub open spec fn zeros_chars(n: nat) -> Seq<char>
    decreases n,
{
    if n == 0 {
        Seq::empty()
    } else {
        zeros_chars((n - 1) as nat).push('0')
    }
}

pub open spec fn uint_chars(n: nat) -> Seq<char> {
    digits_chars(digits_of(n))
}

pub open spec fn int_chars(i: int) -> Seq<char> {
    if i < 0 {
        seq!['-'] + uint_chars((-i) as nat)
    } else {
        uint_chars(i as nat)
    }
}

/// Text of a nonzero finite decimal, by the engine's number-to-string rules.
pub open spec fn dec_chars(d: DecSpec) -> Seq<char> {
    let k = d.digits.len() as int;
    let n = k + d.scale;
    let body = if d.scale >= 0 && n <= 21 {
        digits_chars(d.digits) + zeros_chars(d.scale as nat)
    } else if 0 < n <= 21 {
        digits_chars(d.digits.subrange(0, n)) + seq!['.'] + digits_chars(d.digits.subrange(n, k))
    } else if -6 < n <= 0 {
        seq!['0', '.'] + zeros_chars((-n) as nat) + digits_chars(d.digits)
    } else {
        let mant = if k == 1 {
            digits_chars(d.digits)
        } else {
            digits_chars(d.digits.subrange(0, 1)) + seq!['.'] + digits_chars(d.digits.subrange(1, k))
        };
        let e = n - 1;
        mant + seq!['e'] + (if e >= 0 {
            seq!['+'] + uint_chars(e as nat)
        } else {
            seq!['-'] + uint_chars((-e) as nat)
        })
    };
    if d.neg {
        seq!['-'] + body
    } else {
        body
    }
}

/// Text of an engine number under the engine's to-string coercion.
pub open spec fn num_chars(n: NumSpec) -> Seq<char> {
    match n {
        NumSpec::NaN => "NaN"@,
        NumSpec::Infinite(neg) => if neg { "-Infinity"@ } else { "Infinity"@ },
        NumSpec::Zero(_) => "0"@,
        NumSpec::Fin(d) => dec_chars(d),
    }
}

fn digit_str(d: u8) -> (r: &'static str)
    requires
        d <= 9,
    ensures
        r@ == seq![char_of_digit(d)],
{
    proof {
        reveal_strlit("0");
        reveal_strlit("1");
        reveal_strlit("2");
        reveal_strlit("3");
        reveal_strlit("4");
        reveal_strlit("5");
        reveal_strlit("6");
        reveal_strlit("7");
        reveal_strlit("8");
        reveal_strlit("9");
    }
    let r: &'static str = if d == 0 {
        "0"
    } else if d == 1 {
        "1"
    } else if d == 2 {
        "2"
    } else if d == 3 {
        "3"
    } else if d == 4 {
        "4"
    } else if d == 5 {
        "5"
    } else if d == 6 {
        "6"
    } else if d == 7 {
        "7"
    } else if d == 8 {
        "8"
    } else {
        "9"
    };
    assert(r@ =~= seq![char_of_digit(d)]);
    r
}

pub fn push_zeros(count: u64, out: &mut String)
    ensures
        final(out)@ == old(out)@ + zeros_chars(count as nat),
{
    let mut i: u64 = 0;
    while i < count
        invariant
            i <= count,
            out@ == old(out)@ + zeros_chars(i as nat),
        decreases count - i,
    {
        out.append("0");
        proof {
            reveal_strlit("0");
            assert(zeros_chars((i + 1) as nat) =~= zeros_chars(i as nat).push('0'));
            assert(out@ =~= old(out)@ + zeros_chars((i + 1) as nat));
        }
        i = i + 1;
    }
}

pub fn push_digit_range(digits: &Vec<u8>, from: usize, to: usize, out: &mut String)
    requires
        from <= to <= digits@.len(),
        digits_wf(digits@),
    ensures
        final(out)@ == old(out)@ + digits_chars(digits@.subrange(from as int, to as int)),
{
    let mut i: usize = from;
    proof {
        assert(digits@.subrange(from as int, from as int) =~= Seq::<u8>::empty());
        assert(out@ =~= old(out)@ + digits_chars(digits@.subrange(from as int, from as int)));
    }
    while i < to
        invariant
            from <= i <= to <= digits@.len(),
            digits_wf(digits@),
            out@ == old(out)@ + digits_chars(digits@.subrange(from as int, i as int)),
        decreases to - i,
    {
        let d = digits[i];
        out.append(digit_str(d));
        proof {
            assert(digits@.subrange(from as int, (i + 1) as int) =~= digits@.subrange(
                from as int,
                i as int,
            ).push(digits@[i as int]));
            assert(digits_chars(digits@.subrange(from as int, (i + 1) as int)) =~= digits_chars(
                digits@.subrange(from as int, i as int),
            ).push(char_of_digit(digits@[i as int])));
            assert(out@ =~= old(out)@ + digits_chars(digits@.subrange(from as int, (i + 1) as int)));
        }
        i = i + 1;
    }
}

pub fn push_uint_chars(n: u64, out: &mut String)
    ensures
        final(out)@ == old(out)@ + uint_chars(n as nat),
{
    let mut digits: Vec<u8> = Vec::new();
    push_digits(n, &mut digits);
    proof {
        lemma_digits_of_wf(n as nat);
        assert(digits@ =~= digits_of(n as nat));
    }
    push_digit_range(&digits, 0, digits.len(), out);
    proof {
        assert(digits@.subrange(0, digits@.len() as int) =~= digits@);
    }
}

pub fn push_int_chars(i: i64, out: &mut String)
    ensures
        final(out)@ == old(out)@ + int_chars(i as int),
{
    if i < 0 {
        out.append("-");
        proof {
            reveal_strlit("-");
        }
        let mag: u64 = (-(i as i128)) as u64;
        push_uint_chars(mag, out);
        assert(out@ =~= old(out)@ + int_chars(i as int));
    } else {
        push_uint_chars(i as u64, out);
    }
}

/// Renders an engine number as the engine's to-string coercion would.
#[verifier::rlimit(100)]
pub fn number_text(n: &JsNumber) -> (r: String)
    requires
        n.wf(),
    ensures
        r@ == num_chars(n.deep_view()),
{
    match n {
        JsNumber::NaN => String::from_str("NaN"),
        JsNumber::Infinite(neg) => {
            if *neg {
                String::from_str("-Infinity")
            } else {
                String::from_str("Infinity")
            }
        },
        JsNumber::Zero(_) => String::from_str("0"),
        JsNumber::Fin(d) => {
            let ghost dv = d.deep_view();
            let k: usize = d.digits.len();
            let n_pos: i64 = k as i64 + d.scale;
            let mut out = String::new();
            if d.neg {
                out.append("-");
                proof {
                    reveal_strlit("-");
                }
            }
            let ghost signed = out@;
            proof {
                assert(signed =~= if dv.neg { seq!['-'] } else { Seq::<char>::empty() });
            }
            if d.scale >= 0 && n_pos <= 21 {
                push_digit_range(&d.digits, 0, k, &mut out);
                push_zeros(d.scale as u64, &mut out);
                proof {
                    assert(dv.digits.subrange(0, k as int) =~= dv.digits);
                    assert(out@ =~= signed + (digits_chars(dv.digits) + zeros_chars(
                        dv.scale as nat,
                    )));
                    assert(out@ =~= num_chars(n.deep_view()));
                }
            } else if 0 < n_pos && n_pos <= 21 {
                let split: usize = n_pos as usize;
                push_digit_range(&d.digits, 0, split, &mut out);
                out.append(".");
                push_digit_range(&d.digits, split, k, &mut out);
                proof {
                    reveal_strlit(".");
                    assert(out@ =~= signed + (digits_chars(dv.digits.subrange(0, n_pos as int))
                        + seq!['.'] + digits_chars(
                        dv.digits.subrange(n_pos as int, k as int),
                    )));
                    assert(out@ =~= num_chars(n.deep_view()));
                }
            } else if -6 < n_pos && n_pos <= 0 {
                out.append("0.");
                push_zeros((-n_pos) as u64, &mut out);
                push_digit_range(&d.digits, 0, k, &mut out);
                proof {
                    reveal_strlit("0.");
                    assert("0."@ =~= seq!['0', '.']);
                    assert(dv.digits.subrange(0, k as int) =~= dv.digits);
                    assert(out@ =~= signed + (seq!['0', '.'] + zeros_chars((-n_pos) as nat)
                        + digits_chars(dv.digits)));
                    assert(out@ =~= num_chars(n.deep_view()));
                }
            } else {
                push_digit_range(&d.digits, 0, 1, &mut out);
                if k > 1 {
                    out.append(".");
                    push_digit_range(&d.digits, 1, k, &mut out);
                }
                out.append("e");
                let e: i64 = n_pos - 1;
                if e >= 0 {
                    out.append("+");
                } else {
                    out.append("-");
                }
                let e_mag: u64 = if e < 0 {
                    (-e) as u64
                } else {
                    e as u64
                };
                push_uint_chars(e_mag, &mut out);
                proof {
                    reveal_strlit(".");
                    reveal_strlit("e");
                    reveal_strlit("+");
                    reveal_strlit("-");
                    let mant = if k as int == 1 {
                        digits_chars(dv.digits)
                    } else {
                        digits_chars(dv.digits.subrange(0, 1)) + seq!['.'] + digits_chars(
                            dv.digits.subrange(1, k as int),
                        )
                    };
                    if k == 1 {
                        assert(dv.digits.subrange(0, 1) =~= dv.digits);
                    }
                    let etail = if e as int >= 0 {
                        seq!['+'] + uint_chars(e as nat)
                    } else {
                        seq!['-'] + uint_chars((-(e as int)) as nat)
                    };
                    assert(out@ =~= signed + (mant + seq!['e'] + etail));
                    assert(out@ =~= num_chars(n.deep_view()));
                }
            }
            out
        },
    }
}

} // verus!
