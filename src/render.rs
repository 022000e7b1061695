//! The text form of readings: one line per reading,
//! `bthome_<kind>{name="<device>"} <value>`, with the value written as an
//! exact decimal in the reading's own unit.
use vstd::prelude::*;
use vstd::string::StringExecFns;

use crate::object::Object;

verus! {

/// The prefix of every metric name.
pub open spec fn metric_prefix() -> Seq<char> {
    "bthome_"@
}

/// The metric name suffix that belongs to a reading's kind.
pub open spec fn suffix_text(o: Object) -> Seq<char> {
    match o {
        Object::Battery(_) => "battery"@,
        Object::Temperature(_) => "temperature"@,
        Object::Humidity(_) => "humidity"@,
        Object::Voltage(_) => "voltage"@,
        Object::Power(_) => "power"@,
        Object::Rssi(_) => "rssi"@,
    }
}

pub open spec fn digit_text(d: int) -> Seq<char> {
    if d == 0 {
        "0"@
    } else if d == 1 {
        "1"@
    } else if d == 2 {
        "2"@
    } else if d == 3 {
        "3"@
    } else if d == 4 {
        "4"@
    } else if d == 5 {
        "5"@
    } else if d == 6 {
        "6"@
    } else if d == 7 {
        "7"@
    } else if d == 8 {
        "8"@
    } else {
        "9"@
    }
}

/// The decimal digits of `n`, without leading zeros.
pub open spec fn decimal(n: nat) -> Seq<char>
    decreases n,
{
    if n < 10 {
        digit_text(n as int)
    } else {
        decimal(n / 10) + digit_text((n % 10) as int)
    }
}

/// The lowest `w` decimal digits of `n`, padded with leading zeros.
pub open spec fn padded(n: nat, w: nat) -> Seq<char>
    decreases w,
{
    if w == 0 {
        Seq::empty()
    } else {
        padded(n / 10, (w - 1) as nat) + digit_text((n % 10) as int)
    }
}

pub open spec fn pow10(w: nat) -> nat
    decreases w,
{
    if w == 0 {
        1
    } else {
        10 * pow10((w - 1) as nat)
    }
}

pub open spec fn abs(v: int) -> nat {
    if v < 0 {
        (-v) as nat
    } else {
        v as nat
    }
}

/// The lowest `w` decimal digits of `n`, with the trailing zeros dropped.
pub open spec fn trimmed(n: nat, w: nat) -> Seq<char>
    decreases w,
{
    if w == 0 {
        Seq::empty()
    } else if n % 10 == 0 {
        trimmed(n / 10, (w - 1) as nat)
    } else {
        padded(n, w)
    }
}

/// `v / 10^w` written as the shortest exact decimal: a minus sign for a
/// negative value, the whole part, then, where the fraction is not zero, a
/// point and the fraction's digits without trailing zeros.
pub open spec fn fixed_point(v: int, w: nat) -> Seq<char> {
    let frac = trimmed(abs(v), w);
    (if v < 0 { "-"@ } else { Seq::empty() }) + decimal(abs(v) / pow10(w)) + (if frac.len() > 0 {
        "."@ + frac
    } else {
        Seq::empty()
    })
}

/// A reading's value in its unit: percent, degrees Celsius, percent, volts,
/// `1` or `0`, dBm.
pub open spec fn value_text(o: Object) -> Seq<char> {
    match o {
        Object::Battery(v) => fixed_point(v as int, 0),
        Object::Temperature(v) => fixed_point(v as int, 2),
        Object::Humidity(v) => fixed_point(v as int, 2),
        Object::Voltage(v) => fixed_point(v as int, 3),
        Object::Power(b) => if b {
            "1"@
        } else {
            "0"@
        },
        Object::Rssi(v) => fixed_point(v as int, 0),
    }
}

/// The line for one reading of the device named `name`.
pub open spec fn line_text(name: Seq<char>, o: Object) -> Seq<char> {
    metric_prefix() + suffix_text(o) + "{name=\""@ + name + "\"} "@ + value_text(o) + "\n"@
}

/// The lines for the readings `objs` of the device named `name`, in order.
pub open spec fn device_text(name: Seq<char>, objs: Seq<Object>) -> Seq<char>
    decreases objs.len(),
{
    if objs.len() == 0 {
        Seq::empty()
    } else {
        device_text(name, objs.drop_last()) + line_text(name, objs.last())
    }
}

impl Object {
    /// The metric name suffix of this reading's kind.
    pub fn metric_suffix(&self) -> (r: &'static str)
        ensures
            r@ == suffix_text(*self),
    {
        match self {
            Object::Battery(_) => "battery",
            Object::Temperature(_) => "temperature",
            Object::Humidity(_) => "humidity",
            Object::Voltage(_) => "voltage",
            Object::Power(_) => "power",
            Object::Rssi(_) => "rssi",
        }
    }
}

fn digit_str(d: u32) -> (r: &'static str)
    requires
        d < 10,
    ensures
        r@ == digit_text(d as int),
{
    match d {
        0 => "0",
        1 => "1",
        2 => "2",
        3 => "3",
        4 => "4",
        5 => "5",
        6 => "6",
        7 => "7",
        8 => "8",
        _ => "9",
    }
}

fn push_decimal(out: &mut String, n: u32)
    ensures
        final(out)@ == old(out)@ + decimal(n as nat),
    decreases n,
{
    if n >= 10 {
        push_decimal(out, n / 10);
        out.append(digit_str(n % 10));
        assert(old(out)@ + decimal((n / 10) as nat) + digit_text((n % 10) as int) =~= old(out)@
            + decimal(n as nat));
    } else {
        out.append(digit_str(n));
    }
}

fn push_padded(out: &mut String, n: u32, w: u32)
    ensures
        final(out)@ == old(out)@ + padded(n as nat, w as nat),
    decreases w,
{
    if w > 0 {
        push_padded(out, n / 10, w - 1);
        out.append(digit_str(n % 10));
        assert(old(out)@ + padded((n / 10) as nat, (w - 1) as nat) + digit_text((n % 10) as int)
            =~= old(out)@ + padded(n as nat, w as nat));
    } else {
        assert(old(out)@ + Seq::<char>::empty() =~= old(out)@);
    }
}

proof fn lemma_digit_len(d: int)
    ensures
        digit_text(d).len() == 1,
{
    reveal_strlit("0");
    reveal_strlit("1");
    reveal_strlit("2");
    reveal_strlit("3");
    reveal_strlit("4");
    reveal_strlit("5");
    reveal_strlit("6");
    reveal_strlit("7");
    reveal_strlit("8");
    reveal_strlit("9");
}

proof fn lemma_padded_len(n: nat, w: nat)
    ensures
        padded(n, w).len() == w,
    decreases w,
{
    if w > 0 {
        lemma_padded_len(n / 10, (w - 1) as nat);
        lemma_digit_len((n % 10) as int);
    }
}

fn fraction_is_zero(n: u32, w: u32) -> (r: bool)
    ensures
        r == (trimmed(n as nat, w as nat).len() == 0),
    decreases w,
{
    if w == 0 {
        true
    } else if n % 10 == 0 {
        fraction_is_zero(n / 10, w - 1)
    } else {
        proof {
            lemma_padded_len(n as nat, w as nat);
        }
        false
    }
}

fn push_trimmed(out: &mut String, n: u32, w: u32)
    ensures
        final(out)@ == old(out)@ + trimmed(n as nat, w as nat),
    decreases w,
{
    if w == 0 {
        assert(old(out)@ + Seq::<char>::empty() =~= old(out)@);
    } else if n % 10 == 0 {
        push_trimmed(out, n / 10, w - 1);
    } else {
        push_padded(out, n, w);
    }
}

fn pow10_of(w: u32) -> (r: u32)
    requires
        w <= 3,
    ensures
        r == pow10(w as nat),
        r >= 1,
{
    proof {
        reveal_with_fuel(pow10, 4);
    }
    if w == 0 {
        1
    } else if w == 1 {
        10
    } else if w == 2 {
        100
    } else {
        1000
    }
}

fn push_fixed(out: &mut String, v: i32, w: u32)
    requires
        w <= 3,
    ensures
        final(out)@ == old(out)@ + fixed_point(v as int, w as nat),
{
    let ghost start = old(out)@;
    if v < 0 {
        out.append("-");
    }
    let ghost signed = out@;
    assert(signed == start + (if v < 0 { "-"@ } else { Seq::<char>::empty() })) by {
        if v >= 0 {
            assert(start + Seq::<char>::empty() =~= start);
        }
    }
    let a: u32 = if v < 0 { (0i64 - v as i64) as u32 } else { v as u32 };
    assert(a == abs(v as int));
    let p = pow10_of(w);
    push_decimal(out, a / p);
    let ghost whole = out@;
    if !fraction_is_zero(a, w) {
        out.append(".");
        push_trimmed(out, a, w);
        assert(out@ =~= whole + ("."@ + trimmed(abs(v as int), w as nat)));
    } else {
        assert(out@ =~= whole + Seq::<char>::empty());
    }
    assert(out@ =~= start + fixed_point(v as int, w as nat));
}

/// Appends the value of a reading in its unit.
pub fn push_value(out: &mut String, o: &Object)
    ensures
        final(out)@ == old(out)@ + value_text(*o),
{
    match o {
        Object::Battery(v) => push_fixed(out, *v as i32, 0),
        Object::Temperature(v) => push_fixed(out, *v as i32, 2),
        Object::Humidity(v) => push_fixed(out, *v as i32, 2),
        Object::Voltage(v) => push_fixed(out, *v as i32, 3),
        Object::Power(b) => {
            if *b {
                out.append("1");
            } else {
                out.append("0");
            }
        },
        Object::Rssi(v) => push_fixed(out, *v as i32, 0),
    }
}

/// Appends the line for one reading of the device named `name`.
pub fn push_line(out: &mut String, name: &String, o: &Object)
    ensures
        final(out)@ == old(out)@ + line_text(name@, *o),
{
    let ghost start = old(out)@;
    out.append("bthome_");
    out.append(o.metric_suffix());
    out.append("{name=\"");
    out.append(name.as_str());
    out.append("\"} ");
    push_value(out, o);
    out.append("\n");
    assert(out@ =~= start + line_text(name@, *o));
}

} // verus!
