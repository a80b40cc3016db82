//! Decimal text of small integers, as Rust's `{}` and `{:2}` write them.
use vstd::prelude::*;

verus! {

/// The character of a decimal digit.
pub open spec fn digito(d: int) -> char {
    if d == 0 {
        '0'
    } else if d == 1 {
        '1'
    } else if d == 2 {
        '2'
    } else if d == 3 {
        '3'
    } else if d == 4 {
        '4'
    } else if d == 5 {
        '5'
    } else if d == 6 {
        '6'
    } else if d == 7 {
        '7'
    } else if d == 8 {
        '8'
    } else {
        '9'
    }
}

/// Each decimal digit is written with the character whose code is that of '0'
/// plus the digit.
pub proof fn digito_codigo(d: int)
    requires
        0 <= d < 10,
    ensures
        digito(d) as u32 == 48 + d,
{
}

/// The number that a text of decimal digits stands for.
pub open spec fn valor(s: Seq<char>) -> int
    decreases s.len(),
{
    if s.len() == 0 {
        0
    } else {
        valor(s.drop_last()) * 10 + (s.last() as u32 - 48)
    }
}

/// The decimal text of a number is made of digit characters, starts with no
/// zero unless it is "0", and reads back as the number.
pub proof fn digitos_leidos(n: nat)
    ensures
        valor(digitos(n)) == n,
        digitos(n).len() > 0,
        forall|i: int| 0 <= i < digitos(n).len() ==> 48 <= #[trigger] (digitos(n)[i] as u32) < 58,
        digitos(n).len() > 1 ==> digitos(n)[0] != '0',
        n >= 10 ==> digitos(n).len() > 1,
    decreases n,
{
    if n < 10 {
        digito_codigo(n as int);
        assert(digitos(n).drop_last() =~= Seq::<char>::empty());
        assert(valor(Seq::<char>::empty()) == 0);
        assert(valor(digitos(n)) == valor(digitos(n).drop_last()) * 10 + (digitos(n).last() as u32 - 48));
    } else {
        digitos_leidos(n / 10);
        digito_codigo((n % 10) as int);
        let s = digitos(n);
        assert(s.drop_last() =~= digitos(n / 10));
        assert(s.last() == digito((n % 10) as int));
        assert((n / 10) * 10 + n % 10 == n) by (nonlinear_arith);
        assert(valor(s) == valor(digitos(n / 10)) * 10 + (s.last() as u32 - 48));
        assert forall|i: int| 0 <= i < s.len() implies 48 <= #[trigger] (s[i] as u32) < 58 by {
            if i < s.len() - 1 {
                assert(s[i] == digitos(n / 10)[i]);
            }
        }
        assert(s[0] == digitos(n / 10)[0]);
        if n / 10 < 10 {
            assert(n / 10 >= 1);
            digito_codigo((n / 10) as int);
            assert(digitos(n / 10)[0] == digito((n / 10) as int));
        }
        assert(valor(s) == (n / 10) * 10 + n % 10);
    }
}

/// The decimal digits of `n`, without leading zeros.
pub open spec fn digitos(n: nat) -> Seq<char>
    decreases n,
{
    if n < 10 {
        seq![digito(n as int)]
    } else {
        digitos(n / 10).push(digito((n % 10) as int))
    }
}

/// The decimal text of `v`, with a minus sign when it is negative.
pub open spec fn decimal(v: int) -> Seq<char> {
    if v < 0 {
        seq!['-'] + digitos((-v) as nat)
    } else {
        digitos(v as nat)
    }
}

/// The text right-aligned in two columns (longer text is left as it is).
pub open spec fn ancho_dos(s: Seq<char>) -> Seq<char> {
    if s.len() < 2 {
        seq![' '] + s
    } else {
        s
    }
}

/// The number that a decimal text with an optional minus sign stands for.
pub open spec fn valor_con_signo(s: Seq<char>) -> int {
    if s.len() > 0 && s[0] == '-' {
        -valor(s.drop_first())
    } else {
        valor(s)
    }
}

/// The decimal text of a number reads back as that number, and starts with
/// a minus sign exactly when the number is negative.
pub proof fn decimal_leido(v: int)
    ensures
        valor_con_signo(decimal(v)) == v,
        decimal(v).len() > 0,
        decimal(v)[0] == '-' <==> v < 0,
{
    if v < 0 {
        digitos_leidos((-v) as nat);
        assert(decimal(v).drop_first() =~= digitos((-v) as nat));
    } else {
        digitos_leidos(v as nat);
        assert(digitos(v as nat)[0] as u32 >= 48);
    }
}

/// A text of at least one character, right-aligned in two columns: spaces
/// in front up to a width of two, then the text itself.
pub proof fn ancho_dos_alineado(s: Seq<char>)
    requires
        s.len() > 0,
    ensures
        ancho_dos(s).len() == (if s.len() < 2 {
            2
        } else {
            s.len() as int
        }),
        ancho_dos(s).skip(ancho_dos(s).len() - s.len()) == s,
        forall|i: int| 0 <= i < ancho_dos(s).len() - s.len() ==> ancho_dos(s)[i] == ' ',
{
    assert(ancho_dos(s).skip(ancho_dos(s).len() - s.len()) =~= s);
}

fn cifra(d: u8) -> (r: &'static str)
    requires
        d < 10,
    ensures
        r@ == seq![digito(d as int)],
        r@.len() == 1,
        r@[0] as u32 == 48 + d,
{
    proof {
        digito_codigo(d as int);
    }
    proof {
        reveal_strlit("0");
        reveal_strlit("1");
        reveal_strlit("2");
        reveal_strlit("3");
        reveal_strlit("4");
        reveal_strlit("5");
        reveal_strlit("6");
        reveal_strlit("7");
        reveal_strlit("8");
        reveal_strlit("9");
    }
    if d == 0 {
        "0"
    } else if d == 1 {
        "1"
    } else if d == 2 {
        "2"
    } else if d == 3 {
        "3"
    } else if d == 4 {
        "4"
    } else if d == 5 {
        "5"
    } else if d == 6 {
        "6"
    } else if d == 7 {
        "7"
    } else if d == 8 {
        "8"
    } else {
        "9"
    }
}

/// Appends the decimal text of `v`, right-aligned in two columns when `dos` holds.
pub(crate) fn anexa_numero(s: &mut String, v: i8, dos: bool)
    ensures
        final(s)@ == old(s)@ + (if dos {
            ancho_dos(decimal(v as int))
        } else {
            decimal(v as int)
        }),
{
    let neg = v < 0;
    let m: u8 = if neg {
        (0i16 - (v as i16)) as u8
    } else {
        v as u8
    };
    let ghost dm = digitos(m as nat);
    proof {
        reveal_with_fuel(digitos, 3);
        if m >= 100 {
            assert(dm == seq![digito((m / 100) as int), digito(((m / 10) % 10) as int), digito((m % 10) as int)]);
        } else if m >= 10 {
            assert(dm == seq![digito(((m / 10) % 10) as int), digito((m % 10) as int)]);
        } else {
            assert(dm == seq![digito(m as int)]);
        }
        reveal_strlit(" ");
        reveal_strlit("-");
    }
    let ghost inicio = s@;
    let corto = m < 10 && !neg;
    if dos && corto {
        s.append(" ");
    }
    if neg {
        s.append("-");
    }
    if m >= 100 {
        s.append(cifra(m / 100));
    }
    if m >= 10 {
        s.append(cifra((m / 10) % 10));
    }
    s.append(cifra(m % 10));
    proof {
        let d = decimal(v as int);
        assert(d == if neg { seq!['-'] + dm } else { dm });
        assert(d.len() < 2 <==> corto);
        let t = if dos { ancho_dos(d) } else { d };
        assert(s@ =~= inicio + t);
    }
}

} // verus!
