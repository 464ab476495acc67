use vstd::prelude::*;

verus! {

/// Integer division rounded toward zero.
pub open spec fn trunc_div(a: int, b: int) -> int {
    let q = abs(a) / abs(b);
    if (a < 0) == (b < 0) {
        q
    } else {
        -q
    }
}

pub open spec fn abs(a: int) -> int {
    if a < 0 {
        -a
    } else {
        a
    }
}

/// The exact value of `a op b` for one of the four operators.
pub open spec fn op_value(op: char, a: int, b: int) -> int {
    if op == '+' {
        a + b
    } else if op == '-' {
        a - b
    } else if op == '*' {
        a * b
    } else {
        trunc_div(a, b)
    }
}

pub open spec fn is_arith_op(op: char) -> bool {
    op == '+' || op == '-' || op == '*' || op == '/'
}

pub open spec fn in_i32(v: int) -> bool {
    i32::MIN <= v <= i32::MAX
}

/// The operator an operator's text names, if it names one of the four.
pub open spec fn operator_char(text: Seq<char>) -> Option<char> {
    if text.len() == 1 && is_arith_op(text[0]) {
        Some(text[0])
    } else {
        None
    }
}

/// Reads an operator's text.
pub fn operator_of(text: &str) -> (r: Option<char>)
    ensures
        r == operator_char(text@),
{
    if text.unicode_len() != 1 {
        return None;
    }
    let c = text.get_char(0);
    if c == '+' || c == '-' || c == '*' || c == '/' {
        Some(c)
    } else {
        None
    }
}

/// `a op b`, where it fits in an `i32`.
pub fn compute(op: char, a: i32, b: i32) -> (r: Option<i32>)
    requires
        is_arith_op(op),
        op == '/' ==> b != 0,
    ensures
        r == if in_i32(op_value(op, a as int, b as int)) {
            Some(op_value(op, a as int, b as int) as i32)
        } else {
            None::<i32>
        },
{
    let x = a as i64;
    let y = b as i64;
    let v: i64 = if op == '+' {
        x + y
    } else if op == '-' {
        x - y
    } else if op == '*' {
        assert(-0x4000_0000_0000_0000 <= x * y <= 0x4000_0000_0000_0000) by (nonlinear_arith)
            requires
                -0x8000_0000 <= x <= 0x7fff_ffff,
                -0x8000_0000 <= y <= 0x7fff_ffff,
        ;
        x * y
    } else {
        let ux: u64 = if x < 0 {
            (-x) as u64
        } else {
            x as u64
        };
        let uy: u64 = if y < 0 {
            (-y) as u64
        } else {
            y as u64
        };
        let q = ux / uy;
        assert(q <= ux) by (nonlinear_arith)
            requires
                uy >= 1,
                q == ux / uy,
        ;
        if (x < 0) == (y < 0) {
            q as i64
        } else {
            -(q as i64)
        }
    };
    if v < i32::MIN as i64 || v > i32::MAX as i64 {
        None
    } else {
        Some(v as i32)
    }
}

} // verus!
