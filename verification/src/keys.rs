//! The cache-key encoding: a deterministic string for a
//! `(domain, descriptor, window)` bucket, written
//! `domain:step1:...:stepN:window_index`, where a step is `key` for an empty
//! value and `key_value` otherwise.

use vstd::prelude::*;
use vstd::string::StringExecFns;

verus! {

/// One path step: `key` when the value is empty, else `key_value`.
pub open spec fn step_view(key: Seq<char>, value: Seq<char>) -> Seq<char> {
    if value.len() == 0 {
        key
    } else {
        key + seq!['_'] + value
    }
}

/// The steps of a sequence of `(key, value)` entries, in order.
pub open spec fn steps_of(entries: Seq<(Seq<char>, Seq<char>)>) -> Seq<Seq<char>> {
    entries.map_values(|e: (Seq<char>, Seq<char>)| step_view(e.0, e.1))
}

/// The views of owned `(key, value)` string pairs.
pub open spec fn entry_views(entries: Seq<(String, String)>) -> Seq<(Seq<char>, Seq<char>)> {
    entries.map_values(|e: (String, String)| (e.0@, e.1@))
}

/// The views of borrowed `(key, value)` string pairs.
pub open spec fn str_entry_views(entries: Seq<(&str, &str)>) -> Seq<(Seq<char>, Seq<char>)> {
    entries.map_values(|e: (&str, &str)| (e.0@, e.1@))
}

/// Parts joined with a single `:` between consecutive parts.
pub open spec fn join_colon(parts: Seq<Seq<char>>) -> Seq<char>
    decreases parts.len(),
{
    if parts.len() == 0 {
        Seq::empty()
    } else if parts.len() == 1 {
        parts[0]
    } else {
        parts[0] + seq![':'] + join_colon(parts.skip(1))
    }
}

/// Appending one more part appends `:` and the part.
pub proof fn lemma_join_colon_push(parts: Seq<Seq<char>>, p: Seq<char>)
    requires
        parts.len() >= 1,
    ensures
        join_colon(parts.push(p)) == join_colon(parts) + seq![':'] + p,
    decreases parts.len(),
{
    if parts.len() == 1 {
        assert(parts.push(p)[0] == parts[0]);
        assert(parts.push(p).skip(1) =~= seq![p]);
        assert(join_colon(seq![p]) == p);
    } else {
        lemma_join_colon_push(parts.skip(1), p);
        assert(parts.push(p).skip(1) =~= parts.skip(1).push(p));
        assert(join_colon(parts) + seq![':'] + p =~= parts[0] + seq![':'] + (join_colon(
            parts.skip(1),
        ) + seq![':'] + p));
    }
}

/// The digit character for `d` in `0 ..= 9`.
pub open spec fn dec_digit(d: int) -> char {
    if d == 0 {
        '0'
    } else if d == 1 {
        '1'
    } else if d == 2 {
        '2'
    } else if d == 3 {
        '3'
    } else if d == 4 {
        '4'
    } else if d == 5 {
        '5'
    } else if d == 6 {
        '6'
    } else if d == 7 {
        '7'
    } else if d == 8 {
        '8'
    } else {
        '9'
    }
}

/// The decimal representation of a nonnegative integer, most significant
/// digit first, with no leading zeros (`0` is written `"0"`).
pub open spec fn dec_rep(n: int) -> Seq<char>
    decreases n,
{
    if n < 10 {
        seq![dec_digit(n)]
    } else {
        dec_rep(n / 10).push(dec_digit(n % 10))
    }
}

/// The one-character string for a decimal digit.
fn digit_str(d: u64) -> (r: &'static str)
    requires
        d < 10,
    ensures
        r@ == seq![dec_digit(d as int)],
{
    let r: &'static str = match d {
        0 => "0",
        1 => "1",
        2 => "2",
        3 => "3",
        4 => "4",
        5 => "5",
        6 => "6",
        7 => "7",
        8 => "8",
        _ => "9",
    };
    proof {
        reveal_strlit("0");
        reveal_strlit("1");
        reveal_strlit("2");
        reveal_strlit("3");
        reveal_strlit("4");
        reveal_strlit("5");
        reveal_strlit("6");
        reveal_strlit("7");
        reveal_strlit("8");
        reveal_strlit("9");
        assert(r@ =~= seq![dec_digit(d as int)]);
    }
    r
}

/// Append the decimal representation of `n` to `s`.
pub fn push_decimal(s: &mut String, n: u64)
    ensures
        final(s)@ == old(s)@ + dec_rep(n as int),
    decreases n,
{
    if n >= 10 {
        push_decimal(s, n / 10);
    }
    let d = digit_str(n % 10);
    s.append(d);
    proof {
        assert(final(s)@ =~= old(s)@ + dec_rep(n as int));
    }
}

/// A sequence of characters that holds no `:`.
pub open spec fn colon_free(s: Seq<char>) -> bool {
    forall|i: int| 0 <= i < s.len() ==> s[i] != ':'
}

/// A sequence of characters that holds neither separator, `:` nor `_`:
/// the documented assumption on descriptor keys and values.
pub open spec fn sep_free(s: Seq<char>) -> bool {
    forall|i: int| 0 <= i < s.len() ==> s[i] != ':' && s[i] != '_'
}

/// The documented assumption under which cache keys are unambiguous: the
/// domain holds no `:`, and every key and value holds neither `:` nor `_`.
pub open spec fn key_material_ok(domain: Seq<char>, entries: Seq<(Seq<char>, Seq<char>)>) -> bool {
    colon_free(domain) && (forall|i: int|
        0 <= i < entries.len() ==> sep_free((#[trigger] entries[i]).0) && sep_free(entries[i].1))
}

/// A step built from separator-free pieces holds no `:`.
proof fn lemma_step_colon_free(e: (Seq<char>, Seq<char>))
    requires
        sep_free(e.0),
        sep_free(e.1),
    ensures
        colon_free(step_view(e.0, e.1)),
{
    let s = step_view(e.0, e.1);
    if e.1.len() != 0 {
        assert forall|i: int| 0 <= i < s.len() implies s[i] != ':' by {
            if i < e.0.len() {
                assert(s[i] == e.0[i]);
            } else if i == e.0.len() {
                assert(s[i] == '_');
            } else {
                assert(s[i] == e.1[i - e.0.len() - 1]);
            }
        }
    }
}

/// Steps of separator-free pieces determine the pieces: the first `_`, if
/// any, separates key from value.
proof fn lemma_step_injective(e1: (Seq<char>, Seq<char>), e2: (Seq<char>, Seq<char>))
    requires
        sep_free(e1.0),
        sep_free(e1.1),
        sep_free(e2.0),
        sep_free(e2.1),
        step_view(e1.0, e1.1) == step_view(e2.0, e2.1),
    ensures
        e1.0 == e2.0,
        e1.1 == e2.1,
{
    let s1 = step_view(e1.0, e1.1);
    let s2 = step_view(e2.0, e2.1);
    if e1.1.len() == 0 && e2.1.len() == 0 {
    } else if e1.1.len() == 0 {
        assert(s2[e2.0.len() as int] == '_');
        assert(s1[e2.0.len() as int] != '_');
        assert(false);
    } else if e2.1.len() == 0 {
        assert(s1[e1.0.len() as int] == '_');
        assert(s2[e1.0.len() as int] != '_');
        assert(false);
    } else {
        assert(s1.len() == e1.0.len() + 1 + e1.1.len());
        assert(s2.len() == e2.0.len() + 1 + e2.1.len());
        if e1.0.len() < e2.0.len() {
            assert(s1[e1.0.len() as int] == '_');
            assert(s2[e1.0.len() as int] == e2.0[e1.0.len() as int]);
            assert(false);
        }
        if e2.0.len() < e1.0.len() {
            assert(s2[e2.0.len() as int] == '_');
            assert(s1[e2.0.len() as int] == e1.0[e2.0.len() as int]);
            assert(false);
        }
        assert forall|i: int| 0 <= i < e1.0.len() implies e1.0[i] == e2.0[i] by {
            assert(s1[i] == e1.0[i]);
            assert(s2[i] == e2.0[i]);
        }
        assert(e1.0 =~= e2.0);
        assert forall|i: int| 0 <= i < e1.1.len() implies e1.1[i] == e2.1[i] by {
            assert(s1[e1.0.len() + 1 + i] == e1.1[i]);
            assert(s2[e2.0.len() + 1 + i] == e2.1[i]);
        }
        assert(e1.1 =~= e2.1);
    }
}

/// Whether `c` is a decimal digit character.
pub open spec fn is_digit_char(c: char) -> bool {
    c == '0' || c == '1' || c == '2' || c == '3' || c == '4' || c == '5' || c == '6' || c == '7'
        || c == '8' || c == '9'
}

/// A decimal representation is nonempty and made of digits only.
proof fn lemma_dec_rep_digits(n: int)
    ensures
        dec_rep(n).len() >= 1,
        forall|i: int| 0 <= i < dec_rep(n).len() ==> is_digit_char(#[trigger] dec_rep(n)[i]),
    decreases n,
{
    if n >= 10 {
        lemma_dec_rep_digits(n / 10);
        assert forall|i: int| 0 <= i < dec_rep(n).len() implies is_digit_char(
            #[trigger] dec_rep(n)[i],
        ) by {
            if i < dec_rep(n / 10).len() {
                assert(dec_rep(n)[i] == dec_rep(n / 10)[i]);
            } else {
                assert(dec_rep(n)[i] == dec_digit(n % 10));
            }
        }
    }
}

/// Distinct digits have distinct characters.
proof fn lemma_dec_digit_injective(a: int, b: int)
    requires
        0 <= a < 10,
        0 <= b < 10,
        dec_digit(a) == dec_digit(b),
    ensures
        a == b,
{
}

/// Decimal representations determine their number.
proof fn lemma_dec_rep_injective(a: int, b: int)
    requires
        a >= 0,
        b >= 0,
        dec_rep(a) == dec_rep(b),
    ensures
        a == b,
    decreases a,
{
    lemma_dec_rep_digits(a);
    lemma_dec_rep_digits(b);
    if a < 10 && b < 10 {
        assert(dec_rep(a)[0] == dec_digit(a));
        assert(dec_rep(b)[0] == dec_digit(b));
        lemma_dec_digit_injective(a, b);
    } else if a < 10 {
        lemma_dec_rep_digits(b / 10);
        assert(dec_rep(b).len() == dec_rep(b / 10).len() + 1);
        assert(false);
    } else if b < 10 {
        lemma_dec_rep_digits(a / 10);
        assert(dec_rep(a).len() == dec_rep(a / 10).len() + 1);
        assert(false);
    } else {
        vstd::arithmetic::div_mod::lemma_mod_division_less_than_divisor(a, 10);
        vstd::arithmetic::div_mod::lemma_mod_division_less_than_divisor(b, 10);
        assert(dec_rep(a).last() == dec_digit(a % 10));
        assert(dec_rep(b).last() == dec_digit(b % 10));
        lemma_dec_digit_injective(a % 10, b % 10);
        assert(dec_rep(a).drop_last() =~= dec_rep(a / 10));
        assert(dec_rep(b).drop_last() =~= dec_rep(b / 10));
        lemma_dec_rep_injective(a / 10, b / 10);
        vstd::arithmetic::div_mod::lemma_fundamental_div_mod(a, 10);
        vstd::arithmetic::div_mod::lemma_fundamental_div_mod(b, 10);
    }
}

/// Joins of nonempty lists of `:`-free parts determine the parts: the key
/// can be split on every `:`.
proof fn lemma_join_colon_injective(a: Seq<Seq<char>>, b: Seq<Seq<char>>)
    requires
        a.len() >= 1,
        b.len() >= 1,
        forall|i: int| 0 <= i < a.len() ==> colon_free(#[trigger] a[i]),
        forall|i: int| 0 <= i < b.len() ==> colon_free(#[trigger] b[i]),
        join_colon(a) == join_colon(b),
    ensures
        a == b,
    decreases a.len(),
{
    let ja = join_colon(a);
    let jb = join_colon(b);
    if a.len() == 1 && b.len() == 1 {
        assert(a =~= b);
    } else if a.len() == 1 {
        assert(jb == b[0] + seq![':'] + join_colon(b.skip(1)));
        assert(jb[b[0].len() as int] == ':');
        assert(ja == a[0]);
        assert(ja[b[0].len() as int] != ':');
        assert(false);
    } else if b.len() == 1 {
        assert(ja == a[0] + seq![':'] + join_colon(a.skip(1)));
        assert(ja[a[0].len() as int] == ':');
        assert(jb == b[0]);
        assert(jb[a[0].len() as int] != ':');
        assert(false);
    } else {
        let ra = join_colon(a.skip(1));
        let rb = join_colon(b.skip(1));
        assert(ja == a[0] + seq![':'] + ra);
        assert(jb == b[0] + seq![':'] + rb);
        if a[0].len() < b[0].len() {
            assert(ja[a[0].len() as int] == ':');
            assert(jb[a[0].len() as int] == b[0][a[0].len() as int]);
            assert(false);
        }
        if b[0].len() < a[0].len() {
            assert(jb[b[0].len() as int] == ':');
            assert(ja[b[0].len() as int] == a[0][b[0].len() as int]);
            assert(false);
        }
        assert forall|i: int| 0 <= i < a[0].len() implies a[0][i] == b[0][i] by {
            assert(ja[i] == a[0][i]);
            assert(jb[i] == b[0][i]);
        }
        assert(a[0] =~= b[0]);
        assert(ra.len() == rb.len());
        assert forall|i: int| 0 <= i < ra.len() implies ra[i] == rb[i] by {
            assert(ja[a[0].len() + 1 + i] == ra[i]);
            assert(jb[b[0].len() + 1 + i] == rb[i]);
        }
        assert(ra =~= rb);
        assert forall|i: int| 0 <= i < a.skip(1).len() implies colon_free(
            #[trigger] a.skip(1)[i],
        ) by {
            assert(a.skip(1)[i] == a[i + 1]);
        }
        assert forall|i: int| 0 <= i < b.skip(1).len() implies colon_free(
            #[trigger] b.skip(1)[i],
        ) by {
            assert(b.skip(1)[i] == b[i + 1]);
        }
        lemma_join_colon_injective(a.skip(1), b.skip(1));
        assert forall|i: int| 0 <= i < a.len() implies a[i] == b[i] by {
            if i > 0 {
                assert(a.skip(1)[i - 1] == a[i]);
                assert(b.skip(1)[i - 1] == b[i]);
            }
        }
        assert(a =~= b);
    }
}

/// The cache-key encoder is injective: under the documented separator
/// assumption, equal keys mean equal domain, equal entries, and equal
/// window index. The unit enters the key only through its window index.
pub proof fn lemma_cache_key_injective(
    d1: Seq<char>,
    e1: Seq<(Seq<char>, Seq<char>)>,
    w1: int,
    d2: Seq<char>,
    e2: Seq<(Seq<char>, Seq<char>)>,
    w2: int,
)
    requires
        key_material_ok(d1, e1),
        key_material_ok(d2, e2),
        w1 >= 0,
        w2 >= 0,
        cache_key_view(d1, e1, w1) == cache_key_view(d2, e2, w2),
    ensures
        d1 == d2,
        e1 == e2,
        w1 == w2,
{
    let p1 = seq![d1] + steps_of(e1) + seq![dec_rep(w1)];
    let p2 = seq![d2] + steps_of(e2) + seq![dec_rep(w2)];
    lemma_dec_rep_digits(w1);
    lemma_dec_rep_digits(w2);
    assert forall|i: int| 0 <= i < p1.len() implies colon_free(#[trigger] p1[i]) by {
        if i == 0 {
            assert(p1[i] == d1);
        } else if i <= e1.len() {
            assert(p1[i] == step_view(e1[i - 1].0, e1[i - 1].1));
            lemma_step_colon_free(e1[i - 1]);
        } else {
            assert(p1[i] == dec_rep(w1));
        }
    }
    assert forall|i: int| 0 <= i < p2.len() implies colon_free(#[trigger] p2[i]) by {
        if i == 0 {
            assert(p2[i] == d2);
        } else if i <= e2.len() {
            assert(p2[i] == step_view(e2[i - 1].0, e2[i - 1].1));
            lemma_step_colon_free(e2[i - 1]);
        } else {
            assert(p2[i] == dec_rep(w2));
        }
    }
    lemma_join_colon_injective(p1, p2);
    assert(p1.len() == e1.len() + 2);
    assert(p2.len() == e2.len() + 2);
    assert(e1.len() == e2.len());
    assert(d1 == p1[0]);
    assert(d2 == p2[0]);
    assert forall|i: int| 0 <= i < e1.len() implies e1[i] == e2[i] by {
        assert(p1[i + 1] == step_view(e1[i].0, e1[i].1));
        assert(p2[i + 1] == step_view(e2[i].0, e2[i].1));
        lemma_step_injective(e1[i], e2[i]);
        assert(e1[i].0 == e2[i].0 && e1[i].1 == e2[i].1);
    }
    assert(e1 =~= e2);
    assert(p1[e1.len() as int + 1] == dec_rep(w1));
    assert(p2[e2.len() as int + 1] == dec_rep(w2));
    lemma_dec_rep_injective(w1, w2);
}

/// After a window rotation the encoder emits a fresh key: with the same
/// domain, entries, and unit, a different window index gives a different
/// key, so a fresh counter starts.
pub proof fn lemma_rotated_key_fresh(
    domain: Seq<char>,
    entries: Seq<(Seq<char>, Seq<char>)>,
    w1: int,
    w2: int,
)
    requires
        key_material_ok(domain, entries),
        w1 >= 0,
        w2 >= 0,
        w1 != w2,
    ensures
        cache_key_view(domain, entries, w1) != cache_key_view(domain, entries, w2),
{
    if cache_key_view(domain, entries, w1) == cache_key_view(domain, entries, w2) {
        lemma_cache_key_injective(domain, entries, w1, domain, entries, w2);
    }
}

/// Borrow the entries of a descriptor as string slices, views unchanged.
pub(crate) fn entry_refs<'a>(entries: &'a Vec<(String, String)>) -> (r: Vec<(&'a str, &'a str)>)
    ensures
        str_entry_views(r@) == entry_views(entries@),
{
    let n = entries.len();
    let mut r: Vec<(&str, &str)> = Vec::new();
    for i in 0..n
        invariant
            n == entries@.len(),
            r@.len() == i,
            str_entry_views(r@) == entry_views(entries@.take(i as int)),
    {
        let ghost r0 = r@;
        r.push((entries[i].0.as_str(), entries[i].1.as_str()));
        proof {
            let sv = str_entry_views(r@);
            let ev = entry_views(entries@.take(i + 1));
            assert(sv.len() == i + 1);
            assert(ev.len() == i + 1);
            assert forall|k: int| 0 <= k < i + 1 implies sv[k] == ev[k] by {
                assert(sv[k] == (r@[k].0@, r@[k].1@));
                assert(entries@.take(i + 1)[k] == entries@[k]);
                assert(ev[k] == (entries@[k].0@, entries@[k].1@));
                if k < i {
                    assert(r@[k] == r0[k]);
                    assert(str_entry_views(r0)[k] == (r0[k].0@, r0[k].1@));
                    assert(entry_views(entries@.take(i as int))[k] == (entries@[k].0@,
                    entries@[k].1@));
                }
            }
            assert(sv =~= ev);
        }
    }
    proof {
        assert(entries@.take(n as int) =~= entries@);
    }
    r
}

/// The cache key for a `(domain, entries, window)` bucket.
pub open spec fn cache_key_view(
    domain: Seq<char>,
    entries: Seq<(Seq<char>, Seq<char>)>,
    window: int,
) -> Seq<char> {
    join_colon(seq![domain] + steps_of(entries) + seq![dec_rep(window)])
}

/// Build the cache key for `domain`, the entries, and the window that `now`
/// falls into for `unit`.
pub fn build_cache_key(
    domain: &str,
    descriptors: &[(&str, &str)],
    unit: crate::utils::Unit,
    now: u64,
) -> (r: String)
    ensures
        r@ == cache_key_view(
            domain@,
            str_entry_views(descriptors@),
            crate::utils::spec_window(now, unit),
        ),
{
    let ghost views = str_entry_views(descriptors@);
    let mut s = domain.to_owned();
    proof {
        reveal_strlit(":");
        reveal_strlit("_");
        assert(seq![domain@] + steps_of(views.take(0)) =~= seq![domain@]);
        assert(join_colon(seq![domain@]) == domain@);
    }
    let n = descriptors.len();
    for i in 0..n
        invariant
            n == descriptors.len(),
            views == str_entry_views(descriptors@),
            s@ == join_colon(seq![domain@] + steps_of(views.take(i as int))),
    {
        let ghost prev_parts = seq![domain@] + steps_of(views.take(i as int));
        let (key, value) = descriptors[i];
        s.append(":");
        s.append(key);
        if !value.is_empty() {
            s.append("_");
            s.append(value);
        }
        proof {
            reveal_strlit(":");
            reveal_strlit("_");
            assert(":"@ =~= seq![':']);
            assert("_"@ =~= seq!['_']);
            let step = step_view(key@, value@);
            assert(s@ =~= join_colon(prev_parts) + seq![':'] + step);
            lemma_join_colon_push(prev_parts, step);
            assert(views.take(i + 1).map_values(
                |e: (Seq<char>, Seq<char>)| step_view(e.0, e.1),
            ) =~= steps_of(views.take(i as int)).push(step));
            assert(prev_parts.push(step) =~= seq![domain@] + steps_of(views.take(i + 1)));
        }
    }
    proof {
        assert(views.take(n as int) =~= views);
    }
    let ghost entry_parts = seq![domain@] + steps_of(views);
    s.append(":");
    let w = crate::utils::window_index(now, unit);
    push_decimal(&mut s, w);
    proof {
        assert(":"@ =~= seq![':']);
        lemma_join_colon_push(entry_parts, dec_rep(w as int));
        assert(s@ =~= join_colon(entry_parts) + seq![':'] + dec_rep(w as int));
        assert(entry_parts.push(dec_rep(w as int)) =~= seq![domain@] + steps_of(views) + seq![
            dec_rep(w as int),
        ]);
    }
    s
}

} // verus!
