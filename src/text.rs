use vstd::prelude::*;
use vstd::string::StringExecFns;
use crate::ranking::WorldResult;

verus! {

/// The character of a decimal digit.
pub open spec fn digit_char(d: nat) -> char {
    if d == 0 {
        '0'
    } else if d == 1 {
        '1'
    } else if d == 2 {
        '2'
    } else if d == 3 {
        '3'
    } else if d == 4 {
        '4'
    } else if d == 5 {
        '5'
    } else if d == 6 {
        '6'
    } else if d == 7 {
        '7'
    } else if d == 8 {
        '8'
    } else {
        '9'
    }
}

/// The decimal digits of `n`, without leading zeros.
pub open spec fn decimal_text(n: nat) -> Seq<char>
    decreases n,
{
    if n < 10 {
        seq![digit_char(n)]
    } else {
        decimal_text(n / 10).push(digit_char(n % 10))
    }
}

/// A world number as text, with a minus sign when negative.
pub open spec fn world_text(id: int) -> Seq<char> {
    if id < 0 {
        seq!['-'] + decimal_text((-id) as nat)
    } else {
        decimal_text(id as nat)
    }
}

/// The fractional digits of a latency: the three places of its
/// microseconds, without trailing zeros but one.
pub open spec fn fraction_text(f: nat) -> Seq<char> {
    if f % 100 == 0 {
        seq![digit_char(f / 100)]
    } else if f % 10 == 0 {
        seq![digit_char(f / 100), digit_char((f / 10) % 10)]
    } else {
        seq![digit_char(f / 100), digit_char((f / 10) % 10), digit_char(f % 10)]
    }
}

/// A latency given in microseconds, written in milliseconds.
pub open spec fn latency_text(micros: nat) -> Seq<char> {
    decimal_text(micros / 1000) + seq!['.'] + fraction_text(micros % 1000)
}

fn push_digit(s: &mut String, d: u64)
    requires
        d < 10,
    ensures
        final(s)@ == old(s)@.push(digit_char(d as nat)),
{
    proof {
        reveal_strlit("0");
        reveal_strlit("1");
        reveal_strlit("2");
        reveal_strlit("3");
        reveal_strlit("4");
        reveal_strlit("5");
        reveal_strlit("6");
        reveal_strlit("7");
        reveal_strlit("8");
        reveal_strlit("9");
    }
    let t = if d == 0 {
        "0"
    } else if d == 1 {
        "1"
    } else if d == 2 {
        "2"
    } else if d == 3 {
        "3"
    } else if d == 4 {
        "4"
    } else if d == 5 {
        "5"
    } else if d == 6 {
        "6"
    } else if d == 7 {
        "7"
    } else if d == 8 {
        "8"
    } else {
        "9"
    };
    assert(t@ =~= seq![digit_char(d as nat)]);
    s.append(t);
}

fn push_decimal(s: &mut String, n: u64)
    ensures
        final(s)@ == old(s)@ + decimal_text(n as nat),
    decreases n,
{
    if n < 10 {
        push_digit(s, n);
        assert(old(s)@.push(digit_char(n as nat)) =~= old(s)@ + decimal_text(n as nat));
    } else {
        push_decimal(s, n / 10);
        push_digit(s, n % 10);
        assert(old(s)@ + decimal_text((n / 10) as nat) + seq![digit_char((n % 10) as nat)]
            =~= old(s)@ + decimal_text(n as nat));
    }
}

fn push_world(s: &mut String, id: i64)
    ensures
        final(s)@ == old(s)@ + world_text(id as int),
{
    if id < 0 {
        proof { reveal_strlit("-"); }
        s.append("-");
        let magnitude: u64 = ((-(id + 1)) as u64) + 1;
        push_decimal(s, magnitude);
        assert(old(s)@ + seq!['-'] + decimal_text(magnitude as nat) =~= old(s)@ + world_text(
            id as int,
        ));
    } else {
        push_decimal(s, id as u64);
    }
}

fn push_latency(s: &mut String, micros: u64)
    ensures
        final(s)@ == old(s)@ + latency_text(micros as nat),
{
    let ghost s0 = s@;
    push_decimal(s, micros / 1000);
    proof { reveal_strlit("."); }
    s.append(".");
    let f = micros % 1000;
    push_digit(s, f / 100);
    if f % 100 != 0 {
        push_digit(s, (f / 10) % 10);
        if f % 10 != 0 {
            push_digit(s, f % 10);
        }
    }
    assert(s@ =~= s0 + latency_text(micros as nat));
}

/// The host that the probe of world `id` is sent to.
pub fn probe_host(id: i64) -> (r: String)
    ensures
        r@ == "world"@ + world_text(id as int) + ".runescape.com"@,
{
    let mut s = String::from_str("world");
    push_world(&mut s, id);
    s.append(".runescape.com");
    s
}

/// One line of the final report.
pub fn report_line(r: &WorldResult) -> (t: String)
    ensures
        t@ == "World "@ + world_text(r.world_id as int) + " ("@ + latency_text(
            r.average_ping as nat,
        ) + "ms)"@,
{
    let mut s = String::from_str("World ");
    push_world(&mut s, r.world_id);
    s.append(" (");
    push_latency(&mut s, r.average_ping);
    s.append("ms)");
    s
}

/// The progress line: the current best record and the number of records so
/// far, or that nothing has been found yet.
pub fn status_line(best: Option<(WorldResult, usize)>) -> (t: String)
    ensures
        best is None ==> t@ == "No match found"@,
        best matches Some((r, n)) ==> t@ == "Current best match: World "@ + world_text(
            r.world_id as int,
        ) + " ("@ + latency_text(r.average_ping as nat) + "ms); Checked "@ + decimal_text(n as nat)
            + " servers"@,
{
    match best {
        None => String::from_str("No match found"),
        Some((r, n)) => {
            let mut s = String::from_str("Current best match: World ");
            push_world(&mut s, r.world_id);
            s.append(" (");
            push_latency(&mut s, r.average_ping);
            s.append("ms); Checked ");
            push_decimal(&mut s, n as u64);
            s.append(" servers");
            s
        },
    }
}

} // verus!
