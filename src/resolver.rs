use vstd::prelude::*;
use crate::worlds::{member_worlds, ftp_worlds, member_worlds_spec, ftp_worlds_spec};

verus! {

/// Which worlds a run probes.
#[derive(Debug)]
pub enum SelectionMode {
    AllWorlds,
    MembersOnly,
    FreeToPlayOnly,
    Explicit(Vec<String>),
}

#[derive(Clone, Copy, Debug, PartialEq, Eq, Structural)]
pub enum ResolveError {
    /// More than one selection was asked for.
    ConflictingModes,
    /// The explicit token at this position is not an integer.
    InvalidWorldToken(usize),
}

/// Picks the one selection mode that the given choices name; all worlds when
/// none is given.
pub fn select_mode(members_only: bool, ftp_only: bool, worlds: Option<Vec<String>>) -> (r: Result<
    SelectionMode,
    ResolveError,
>)
    ensures
        (members_only as int) + (ftp_only as int) + (if worlds is Some { 1int } else { 0int }) > 1
            <==> r == Err::<SelectionMode, ResolveError>(ResolveError::ConflictingModes),
        r matches Ok(m) ==> {
            &&& members_only ==> m is MembersOnly
            &&& ftp_only ==> m is FreeToPlayOnly
            &&& worlds matches Some(w) ==> (m matches SelectionMode::Explicit(t) && t@ == w@)
            &&& (!members_only && !ftp_only && worlds is None) ==> m is AllWorlds
        },
        r is Ok || r == Err::<SelectionMode, ResolveError>(ResolveError::ConflictingModes),
{
    match worlds {
        Some(w) => {
            if members_only || ftp_only {
                Err(ResolveError::ConflictingModes)
            } else {
                Ok(SelectionMode::Explicit(w))
            }
        },
        None => {
            if members_only && ftp_only {
                Err(ResolveError::ConflictingModes)
            } else if members_only {
                Ok(SelectionMode::MembersOnly)
            } else if ftp_only {
                Ok(SelectionMode::FreeToPlayOnly)
            } else {
                Ok(SelectionMode::AllWorlds)
            }
        },
    }
}

pub open spec fn is_digit_char(c: char) -> bool {
    '0' <= c <= '9'
}

/// The number that a run of decimal digits denotes.
pub open spec fn digits_value(d: Seq<char>) -> int
    decreases d.len(),
{
    if d.len() == 0 {
        0
    } else {
        digits_value(d.drop_last()) * 10 + (d.last() as int - '0' as int)
    }
}

/// Whether the token carries a leading sign.
pub open spec fn has_sign(t: Seq<char>) -> bool {
    t.len() > 0 && (t[0] == '+' || t[0] == '-')
}

/// The digits of a token, after its sign if any.
pub open spec fn token_digits(t: Seq<char>) -> Seq<char> {
    if has_sign(t) {
        t.skip(1)
    } else {
        t
    }
}

/// The integer a token denotes: an optional `+` or `-`, then one or more
/// decimal digits, with a value that fits in an `i64`.
pub open spec fn token_value(t: Seq<char>) -> Option<i64> {
    let d = token_digits(t);
    let v = if has_sign(t) && t[0] == '-' { -digits_value(d) } else { digits_value(d) };
    if d.len() > 0 && (forall|j: int| 0 <= j < d.len() ==> is_digit_char(#[trigger] d[j]))
        && i64::MIN <= v <= i64::MAX {
        Some(v as i64)
    } else {
        None
    }
}

proof fn lemma_digits_value_grows(d: Seq<char>, j: int)
    requires
        0 <= j <= d.len(),
        forall|k: int| 0 <= k < d.len() ==> is_digit_char(#[trigger] d[k]),
    ensures
        0 <= digits_value(d.take(j)) <= digits_value(d),
    decreases d.len(),
{
    if j < d.len() {
        assert(d.drop_last().take(j) =~= d.take(j));
        lemma_digits_value_grows(d.drop_last(), j);
    } else {
        assert(d.take(j) =~= d);
        lemma_digits_value_nonneg(d);
    }
}

proof fn lemma_digits_value_nonneg(d: Seq<char>)
    requires
        forall|k: int| 0 <= k < d.len() ==> is_digit_char(#[trigger] d[k]),
    ensures
        0 <= digits_value(d),
    decreases d.len(),
{
    if d.len() > 0 {
        lemma_digits_value_nonneg(d.drop_last());
    }
}

/// Reads one explicit world token as an integer.
pub fn parse_world_token(t: &str) -> (r: Option<i64>)
    ensures
        r == token_value(t@),
{
    let n = t.unicode_len();
    let ghost s = t@;
    let mut start: usize = 0;
    let mut negative = false;
    if n > 0 {
        let c = t.get_char(0);
        if c == '+' || c == '-' {
            start = 1;
            negative = c == '-';
        }
    }
    assert(negative == (has_sign(s) && s[0] == '-'));
    let ghost d = token_digits(s);
    assert(d =~= s.skip(start as int));
    if start >= n {
        return None;
    }
    let limit: u64 = if negative { 9223372036854775808 } else { 9223372036854775807 };
    let mut acc: u64 = 0;
    let mut i: usize = start;
    while i < n
        invariant
            t@ == s,
            n == s.len(),
            start <= i <= n,
            d == s.skip(start as int),
            d == token_digits(s),
            acc <= limit,
            negative == (has_sign(s) && s[0] == '-'),
            limit == if negative { 9223372036854775808u64 } else { 9223372036854775807u64 },
            forall|k: int| 0 <= k < i - start ==> is_digit_char(#[trigger] d[k]),
            acc == digits_value(d.take(i - start)),
        decreases n - i,
    {
        let c = t.get_char(i);
        if !('0' <= c && c <= '9') {
            assert(d[i - start] == c);
            assert(!is_digit_char(d[i - start]));
            assert(!(forall|j: int| 0 <= j < d.len() ==> is_digit_char(#[trigger] d[j])));
            assert(token_value(s) is None);
            return None;
        }
        let v = (c as u32 - '0' as u32) as u64;
        assert(d.take(i - start + 1).drop_last() =~= d.take(i - start));
        if acc > (limit - v) / 10 {
            proof {
                assert(acc * 10 + v > limit) by (nonlinear_arith)
                    requires
                        acc > (limit - v) / 10,
                        v <= 9,
                ;
                if forall|k: int| 0 <= k < d.len() ==> is_digit_char(#[trigger] d[k]) {
                    assert(d.take(i - start + 1).last() == c);
                    lemma_digits_value_grows(d, i - start + 1);
                    assert(digits_value(d) > limit);
                }
                assert(token_value(s) is None);
            }
            return None;
        }
        acc = acc * 10 + v;
        i = i + 1;
    }
    assert(d.take(d.len() as int) =~= d);
    if negative {
        if acc == 9223372036854775808 {
            Some(i64::MIN)
        } else {
            Some(-(acc as i64))
        }
    } else {
        Some(acc as i64)
    }
}

/// A world of either reference list.
pub open spec fn is_known(id: i64) -> bool {
    member_worlds_spec().contains(id) || ftp_worlds_spec().contains(id)
}

/// The known worlds among `ids`, in order.
pub open spec fn known_of(ids: Seq<i64>) -> Seq<i64>
    decreases ids.len(),
{
    if ids.len() == 0 {
        ids
    } else if is_known(ids.last()) {
        known_of(ids.drop_last()).push(ids.last())
    } else {
        known_of(ids.drop_last())
    }
}

/// The unknown worlds among `ids`, in order.
pub open spec fn unknown_of(ids: Seq<i64>) -> Seq<i64>
    decreases ids.len(),
{
    if ids.len() == 0 {
        ids
    } else if is_known(ids.last()) {
        unknown_of(ids.drop_last())
    } else {
        unknown_of(ids.drop_last()).push(ids.last())
    }
}

/// The integers that the tokens denote (zero for one that denotes none).
pub open spec fn token_ids(ts: Seq<String>) -> Seq<i64> {
    Seq::new(
        ts.len(),
        |i: int|
            match token_value(ts[i]@) {
                Some(v) => v,
                None => 0,
            },
    )
}

fn list_contains(v: &Vec<i64>, x: i64) -> (r: bool)
    ensures
        r == v@.contains(x),
{
    let mut i: usize = 0;
    while i < v.len()
        invariant
            i <= v@.len(),
            forall|j: int| 0 <= j < i ==> v@[j] != x,
        decreases v@.len() - i,
    {
        if v[i] == x {
            return true;
        }
        i = i + 1;
    }
    false
}

/// Whether `id` is in either reference list.
pub fn is_known_world(id: i64) -> (r: bool)
    ensures
        r == is_known(id),
{
    list_contains(&member_worlds(), id) || list_contains(&ftp_worlds(), id)
}

/// Turns a selection into the ordered list of worlds to probe, and the
/// explicit worlds skipped because neither reference list has them.
/// An explicit token that is not an integer fails the whole resolution,
/// naming the first such token.
pub fn get_target_worlds(mode: &SelectionMode) -> (r: Result<(Vec<i64>, Vec<i64>), ResolveError>)
    ensures
        match mode {
            SelectionMode::AllWorlds => r matches Ok((t, u)) && t@ == member_worlds_spec()
                + ftp_worlds_spec() && u@.len() == 0,
            SelectionMode::MembersOnly => r matches Ok((t, u)) && t@ == member_worlds_spec()
                && u@.len() == 0,
            SelectionMode::FreeToPlayOnly => r matches Ok((t, u)) && t@ == ftp_worlds_spec()
                && u@.len() == 0,
            SelectionMode::Explicit(ts) => {
                &&& (r is Ok <==> forall|i: int|
                    0 <= i < ts@.len() ==> (#[trigger] token_value(ts@[i]@)) is Some)
                &&& (r matches Ok((t, u)) ==> t@ == known_of(token_ids(ts@)) && u@ == unknown_of(
                    token_ids(ts@),
                ))
                &&& (r matches Err(e) ==> e matches ResolveError::InvalidWorldToken(k) && k
                    < ts@.len() && token_value(ts@[k as int]@) is None && forall|i: int|
                    0 <= i < k ==> (#[trigger] token_value(ts@[i]@)) is Some)
            },
        },
{
    match mode {
        SelectionMode::AllWorlds => {
            let mut t = member_worlds();
            let mut f = ftp_worlds();
            t.append(&mut f);
            Ok((t, Vec::new()))
        },
        SelectionMode::MembersOnly => Ok((member_worlds(), Vec::new())),
        SelectionMode::FreeToPlayOnly => Ok((ftp_worlds(), Vec::new())),
        SelectionMode::Explicit(ts) => {
            let ghost ids = token_ids(ts@);
            let mut known: Vec<i64> = Vec::new();
            let mut unknown: Vec<i64> = Vec::new();
            let mut i: usize = 0;
            while i < ts.len()
                invariant
                    *mode == SelectionMode::Explicit(*ts),
                    ids == token_ids(ts@),
                    i <= ts@.len(),
                    forall|j: int| 0 <= j < i ==> (#[trigger] token_value(ts@[j]@)) is Some,
                    known@ == known_of(ids.take(i as int)),
                    unknown@ == unknown_of(ids.take(i as int)),
                decreases ts@.len() - i,
            {
                match parse_world_token(ts[i].as_str()) {
                    None => {
                        assert(token_value(ts@[i as int]@) is None);
                        return Err(ResolveError::InvalidWorldToken(i));
                    },
                    Some(id) => {
                        assert(ids.take(i + 1).drop_last() =~= ids.take(i as int));
                        assert(ids.take(i + 1).last() == id);
                        if is_known_world(id) {
                            known.push(id);
                        } else {
                            unknown.push(id);
                        }
                    },
                }
                i = i + 1;
            }
            assert(ids.take(ts@.len() as int) =~= ids);
            Ok((known, unknown))
        },
    }
}

} // verus!
