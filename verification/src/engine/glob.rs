//! Glob patterns for KEYS and SCAN.
use vstd::prelude::*;

verus! {

/// The byte `*`.
pub const STAR: u8 = 42;

/// The byte `?`.
pub const ANY: u8 = 63;

/// `s` matches the pattern `p`: `*` stands for any sequence of bytes, `?` for any single one, any
/// other byte for itself.
pub open spec fn glob(p: Seq<u8>, s: Seq<u8>) -> bool
    decreases p.len() + s.len(),
{
    if p.len() == 0 {
        s.len() == 0
    } else if p[0] == STAR {
        glob(p.skip(1), s) || (s.len() > 0 && glob(p, s.skip(1)))
    } else {
        s.len() > 0 && (p[0] == ANY || p[0] == s[0]) && glob(p.skip(1), s.skip(1))
    }
}

/// A leading `*` takes in what stands before a match.
proof fn lemma_star_absorbs(p: Seq<u8>, s: Seq<u8>, n: int)
    requires
        p.len() > 0,
        p[0] == STAR,
        0 <= n <= s.len(),
        glob(p, s.skip(n)),
    ensures
        glob(p, s),
    decreases n,
{
    if n > 0 {
        assert(s.skip(1).skip(n - 1) =~= s.skip(n));
        lemma_star_absorbs(p, s.skip(1), n - 1);
    } else {
        assert(s.skip(0) =~= s);
    }
}

/// The bytes of the pattern from `a` up to `b`, none of them a `*`, take up as many bytes.
proof fn lemma_literal(p: Seq<u8>, a: int, b: int, t: Seq<u8>)
    requires
        0 <= a <= b <= p.len(),
        forall|i: int| a <= i < b ==> p[i] != STAR,
        glob(p.skip(a), t),
    ensures
        t.len() >= b - a,
        glob(p.skip(b), t.skip(b - a)),
    decreases b - a,
{
    if a < b {
        assert(p.skip(a)[0] == p[a]);
        assert(p.skip(a).skip(1) =~= p.skip(a + 1));
        lemma_literal(p, a + 1, b, t.skip(1));
        assert(t.skip(1).skip(b - a - 1) =~= t.skip(b - a));
    } else {
        assert(t.skip(0) =~= t);
    }
}

/// A match of `*` and the bytes behind it up to `b` leaves a match of the rest, no earlier than
/// where the `*` takes in nothing.
proof fn lemma_star_literal(p: Seq<u8>, star: int, b: int, t: Seq<u8>) -> (n: int)
    requires
        0 <= star < b <= p.len(),
        p[star] == STAR,
        forall|i: int| star < i < b ==> p[i] != STAR,
        glob(p.skip(star), t),
    ensures
        b - star - 1 <= n <= t.len(),
        glob(p.skip(b), t.skip(n)),
    decreases t.len(),
{
    assert(p.skip(star)[0] == p[star]);
    assert(p.skip(star).skip(1) =~= p.skip(star + 1));
    if glob(p.skip(star + 1), t) {
        lemma_literal(p, star + 1, b, t);
        b - star - 1
    } else {
        let m = lemma_star_literal(p, star, b, t.skip(1));
        assert(t.skip(1).skip(m) =~= t.skip(m + 1));
        m + 1
    }
}

/// Minimal glob matching: `*` (any sequence), `?` (any single byte).
pub fn glob_match(pattern: &[u8], s: &[u8]) -> (r: bool)
    ensures
        r == glob(pattern@, s@),
{
    let ghost p = pattern@;
    let ghost t = s@;
    let mut pi: usize = 0;
    let mut si: usize = 0;
    // The last `*` that was met, and how far into `s` it has to reach.
    let mut star: Option<(usize, usize)> = None;
    proof {
        assert(p.skip(0) =~= p);
        assert(t.skip(0) =~= t);
    }
    while si < s.len()
        invariant
            p == pattern@,
            t == s@,
            pi <= p.len(),
            si <= t.len(),
            match star {
                None => glob(p, t) == glob(p.skip(pi as int), t.skip(si as int)),
                Some((sp, ss)) => {
                    &&& sp < pi
                    &&& ss <= si
                    &&& si - ss == pi - sp - 1
                    &&& p[sp as int] == STAR
                    &&& forall|i: int| sp < i < pi ==> p[i] != STAR
                    &&& glob(p, t) == (glob(p.skip(pi as int), t.skip(si as int)) || (ss
                        < t.len() && glob(p.skip(sp as int), t.skip(ss + 1))))
                },
            },
        decreases
                (match star {
                    None => t.len() as int + 1,
                    Some((_, ss)) => t.len() - ss,
                }),
                p.len() - pi,
    {
        proof {
            assert(t.skip(si as int).skip(1) =~= t.skip(si + 1));
            assert(t.skip(si as int)[0] == t[si as int]);
            if pi < p.len() {
                assert(p.skip(pi as int).skip(1) =~= p.skip(pi + 1));
                assert(p.skip(pi as int)[0] == p[pi as int]);
            }
        }
        if pi < pattern.len() && pattern[pi] == STAR {
            proof {
                if let Some((sp, ss)) = star {
                    if ss < t.len() && glob(p.skip(sp as int), t.skip(ss + 1)) {
                        let n = lemma_star_literal(p, sp as int, pi as int, t.skip(ss + 1));
                        assert(t.skip(ss + 1).skip(n) =~= t.skip(ss + 1 + n));
                        assert(t.skip(si as int).skip(ss + 1 + n - si) =~= t.skip(ss + 1 + n));
                        lemma_star_absorbs(p.skip(pi as int), t.skip(si as int), ss + 1 + n - si);
                    }
                }
            }
            star = Some((pi, si));
            pi = pi + 1;
        } else if pi < pattern.len() && (pattern[pi] == ANY || pattern[pi] == s[si]) {
            pi = pi + 1;
            si = si + 1;
        } else {
            match star {
                Some((sp, ss)) => {
                    proof {
                        assert(p.skip(sp as int)[0] == p[sp as int]);
                        assert(p.skip(sp as int).skip(1) =~= p.skip(sp + 1));
                        if ss + 1 < t.len() {
                            assert(t.skip(ss + 1).skip(1) =~= t.skip(ss + 2));
                        }
                    }
                    pi = sp + 1;
                    si = ss + 1;
                    star = Some((sp, ss + 1));
                },
                None => {
                    return false;
                },
            }
        }
    }
    proof {
        if let Some((sp, ss)) = star {
            if ss < t.len() && glob(p.skip(sp as int), t.skip(ss + 1)) {
                let n = lemma_star_literal(p, sp as int, pi as int, t.skip(ss + 1));
            }
        }
    }
    assert(t.skip(si as int).len() == 0);
    while pi < pattern.len() && pattern[pi] == STAR
        invariant
            p == pattern@,
            t == s@,
            si == t.len(),
            pi <= p.len(),
            glob(p, t) == glob(p.skip(pi as int), t.skip(si as int)),
        decreases p.len() - pi,
    {
        assert(p.skip(pi as int).skip(1) =~= p.skip(pi + 1));
        assert(p.skip(pi as int)[0] == p[pi as int]);
        pi = pi + 1;
    }
    proof {
        if pi < p.len() {
            assert(p.skip(pi as int)[0] == p[pi as int]);
        }
    }
    pi == pattern.len()
}

/// A `*` alone matches everything.
pub proof fn lemma_star_matches_all(s: Seq<u8>)
    ensures
        glob(seq![STAR], s),
    decreases s.len(),
{
    let p = seq![STAR];
    reveal_with_fuel(glob, 2);
    assert(p.skip(1) =~= seq![]);
    if s.len() > 0 {
        lemma_star_matches_all(s.skip(1));
    }
}

/// A pattern without `*` and `?` matches itself and nothing else.
pub proof fn lemma_plain_pattern(p: Seq<u8>, s: Seq<u8>)
    requires
        forall|i: int| 0 <= i < p.len() ==> p[i] != STAR && p[i] != ANY,
    ensures
        glob(p, s) <==> p == s,
    decreases p.len(),
{
    if p.len() > 0 {
        if s.len() > 0 {
            assert forall|i: int| 0 <= i < p.skip(1).len() implies p.skip(1)[i] != STAR && p.skip(
                1,
            )[i] != ANY by {
                assert(p.skip(1)[i] == p[i + 1]);
            }
            lemma_plain_pattern(p.skip(1), s.skip(1));
            if p[0] == s[0] && p.skip(1) == s.skip(1) {
                assert(p =~= seq![p[0]] + p.skip(1));
                assert(s =~= seq![s[0]] + s.skip(1));
            }
        }
    } else if s.len() == 0 {
        assert(p =~= s);
    }
}

/// The piece of `s` for the byte of the pattern at `i`: a `?` (63) has a piece of one byte, a `*`
/// (42) any piece, and any other byte a piece that is that byte.
pub open spec fn piece(p: Seq<u8>, s: Seq<u8>, cuts: Seq<int>, i: int) -> bool {
    if p[i] == 42 {
        cuts[i] <= cuts[i + 1]
    } else if p[i] == 63 {
        cuts[i + 1] == cuts[i] + 1
    } else {
        cuts[i + 1] == cuts[i] + 1 && 0 <= cuts[i] < s.len() && s[cuts[i]] == p[i]
    }
}

/// `s` falls into pieces, one for each byte of the pattern and in its order, that end at these
/// places.
pub open spec fn splits(p: Seq<u8>, s: Seq<u8>, cuts: Seq<int>) -> bool {
    &&& cuts.len() == p.len() + 1
    &&& cuts[0] == 0
    &&& cuts[p.len() as int] == s.len()
    &&& forall|i: int| 0 <= i < p.len() ==> #[trigger] piece(p, s, cuts, i)
}

/// A pattern matches exactly what can be cut into pieces, one for each of its bytes.
pub proof fn lemma_glob_splits(p: Seq<u8>, s: Seq<u8>)
    ensures
        glob(p, s) <==> exists|cuts: Seq<int>| splits(p, s, cuts),
{
    if glob(p, s) {
        let cuts = lemma_glob_has_cuts(p, s);
    }
    if exists|cuts: Seq<int>| splits(p, s, cuts) {
        let cuts = choose|cuts: Seq<int>| splits(p, s, cuts);
        lemma_cuts_make_glob(p, s, cuts);
    }
}

proof fn lemma_glob_has_cuts(p: Seq<u8>, s: Seq<u8>) -> (cuts: Seq<int>)
    requires
        glob(p, s),
    ensures
        splits(p, s, cuts),
    decreases p.len() + s.len(),
{
    if p.len() == 0 {
        seq![0int]
    } else if p[0] == STAR && glob(p.skip(1), s) {
        let rest = lemma_glob_has_cuts(p.skip(1), s);
        let cuts = seq![0int] + rest;
        assert forall|i: int| 0 <= i < p.len() implies #[trigger] piece(p, s, cuts, i) by {
            if i > 0 {
                assert(cuts[i] == rest[i - 1] && cuts[i + 1] == rest[i]);
                assert(p.skip(1)[i - 1] == p[i]);
                assert(piece(p.skip(1), s, rest, i - 1));
            }
        }
        cuts
    } else if p[0] == STAR {
        // The `*` takes in one byte more.
        let t = s.skip(1);
        let rest = lemma_glob_has_cuts(p, t);
        let cuts = Seq::new(
            rest.len(),
            |i: int|
                if i == 0 {
                    0
                } else {
                    rest[i] + 1
                },
        );
        lemma_cuts_grow(p, t, rest);
        assert forall|i: int| 0 <= i < p.len() implies #[trigger] piece(p, s, cuts, i) by {
            assert(piece(p, t, rest, i));
            assert(0 <= rest[i + 1]);
            if i > 0 && p[i] != 42 && p[i] != 63 {
                assert(t[rest[i]] == s[rest[i] + 1]);
            }
        }
        cuts
    } else {
        let t = s.skip(1);
        let rest = lemma_glob_has_cuts(p.skip(1), t);
        let cuts = seq![0int] + rest.map_values(|c: int| c + 1);
        assert forall|i: int| 0 <= i < p.len() implies #[trigger] piece(p, s, cuts, i) by {
            if i > 0 {
                let c = rest[i - 1];
                assert(cuts[i] == c + 1 && cuts[i + 1] == rest[i] + 1);
                assert(p.skip(1)[i - 1] == p[i]);
                assert(piece(p.skip(1), t, rest, i - 1));
                if 0 <= c < t.len() {
                    assert(t[c] == s[c + 1]);
                }
            } else {
                assert(cuts[1] == rest[0] + 1);
            }
        }
        cuts
    }
}

/// The cuts ascend.
proof fn lemma_cuts_grow(p: Seq<u8>, s: Seq<u8>, cuts: Seq<int>)
    requires
        splits(p, s, cuts),
    ensures
        forall|i: int| 0 <= i <= p.len() ==> 0 <= #[trigger] cuts[i] <= s.len(),
{
    lemma_cuts_bounded(p, s, cuts, p.len() as int);
    assert forall|i: int| 0 <= i <= p.len() implies 0 <= #[trigger] cuts[i] <= s.len() by {
        lemma_cuts_bounded(p, s, cuts, i);
        lemma_cuts_end(p, s, cuts, i);
    }
}

proof fn lemma_cuts_bounded(p: Seq<u8>, s: Seq<u8>, cuts: Seq<int>, n: int)
    requires
        splits(p, s, cuts),
        0 <= n <= p.len(),
    ensures
        cuts[n] >= 0,
    decreases n,
{
    if n > 0 {
        lemma_cuts_bounded(p, s, cuts, n - 1);
        assert(piece(p, s, cuts, n - 1));
    }
}

proof fn lemma_cuts_end(p: Seq<u8>, s: Seq<u8>, cuts: Seq<int>, n: int)
    requires
        splits(p, s, cuts),
        0 <= n <= p.len(),
    ensures
        cuts[n] <= s.len(),
    decreases p.len() - n,
{
    if n < p.len() {
        lemma_cuts_end(p, s, cuts, n + 1);
        assert(piece(p, s, cuts, n));
    }
}

proof fn lemma_cuts_make_glob(p: Seq<u8>, s: Seq<u8>, cuts: Seq<int>)
    requires
        splits(p, s, cuts),
    ensures
        glob(p, s),
    decreases p.len(),
{
    if p.len() > 0 {
        lemma_cuts_grow(p, s, cuts);
        let n = cuts[1];
        assert(piece(p, s, cuts, 0));
        assert(0 <= n <= s.len());
        let t = s.skip(n);
        let rest = cuts.skip(1).map_values(|c: int| c - n);
        assert forall|i: int| 0 <= i < p.skip(1).len() implies #[trigger] piece(
            p.skip(1),
            t,
            rest,
            i,
        ) by {
            let c = cuts[i + 1];
            assert(rest[i] == c - n && rest[i + 1] == cuts[i + 2] - n);
            lemma_cuts_from_first(p, s, cuts, i + 1);
            assert(piece(p, s, cuts, i + 1));
            if p[i + 1] != 42 && p[i + 1] != 63 {
                assert(t[c - n] == s[c]);
            }
        }
        lemma_cuts_make_glob(p.skip(1), t, rest);
        if p[0] == STAR {
            
            assert(glob(p, t)) by {
                assert(glob(p.skip(1), t));
            }
            lemma_star_absorbs(p, s, n);
        }
    }
}

proof fn lemma_cuts_from_first(p: Seq<u8>, s: Seq<u8>, cuts: Seq<int>, n: int)
    requires
        splits(p, s, cuts),
        1 <= n <= p.len(),
    ensures
        cuts[1] <= cuts[n],
    decreases n,
{
    if n > 1 {
        lemma_cuts_from_first(p, s, cuts, n - 1);
        assert(piece(p, s, cuts, n - 1));
    }
}

/// A `?` between plain bytes stands for any single byte: such a pattern matches every string that
/// has some byte in its place, and no other.
pub proof fn lemma_any_stands_for_every_byte(a: Seq<u8>, b: Seq<u8>, s: Seq<u8>)
    requires
        forall|i: int| 0 <= i < a.len() ==> a[i] != 42 && a[i] != 63,
        forall|i: int| 0 <= i < b.len() ==> b[i] != 42 && b[i] != 63,
    ensures
        glob(a + seq![63u8] + b, s) <==> s.len() == a.len() + 1 + b.len() && s.take(
            a.len() as int,
        ) == a && s.skip(a.len() as int + 1) == b,
    decreases a.len(),
{
    let p = a + seq![63u8] + b;
    if a.len() == 0 {
        assert(p.skip(1) =~= b);
        if s.len() > 0 {
            lemma_plain_pattern(b, s.skip(1));
            assert(s.take(0) =~= a);
        }
    } else {
        assert(p[0] == a[0]);
        assert(p.skip(1) =~= a.skip(1) + seq![63u8] + b);
        if s.len() > 0 {
            lemma_any_stands_for_every_byte(a.skip(1), b, s.skip(1));
            let n = a.len() as int;
            if s.len() == n + 1 + b.len() {
                assert(s.skip(1).skip(n) =~= s.skip(n + 1));
                assert(s.skip(1).take(n - 1) =~= s.take(n).skip(1));
                if a[0] == s[0] && s.skip(1).take(n - 1) == a.skip(1) {
                    assert(s.take(n) =~= seq![s[0]] + s.skip(1).take(n - 1));
                    assert(a =~= seq![a[0]] + a.skip(1));
                }
                if s.take(n) == a {
                    assert(s.take(n)[0] == s[0]);
                }
            }
        }
    }
}

/// A `*` between plain bytes stands for any bytes: such a pattern matches every string that begins
/// with what is before it and ends with what is behind it, and no other.
pub proof fn lemma_star_stands_for_any_bytes(a: Seq<u8>, b: Seq<u8>, s: Seq<u8>)
    requires
        forall|i: int| 0 <= i < a.len() ==> a[i] != 42 && a[i] != 63,
        forall|i: int| 0 <= i < b.len() ==> b[i] != 42 && b[i] != 63,
    ensures
        glob(a + seq![42u8] + b, s) <==> s.len() >= a.len() + b.len() && s.take(a.len() as int)
            == a && s.skip(s.len() - b.len()) == b,
    decreases a.len() + s.len(),
{
    let p = a + seq![42u8] + b;
    if a.len() == 0 {
        assert(p.skip(1) =~= b);
        assert(p[0] == 42);
        lemma_plain_pattern(b, s);
        assert(s.skip(0) =~= s);
        if s.len() > 0 {
            lemma_star_stands_for_any_bytes(a, b, s.skip(1));
            assert(a + seq![42u8] + b =~= p);
            assert(s.skip(1).take(0) =~= a);
            if s.len() > b.len() {
                assert(s.skip(1).skip(s.len() - 1 - b.len()) =~= s.skip(s.len() - b.len()));
            }
        }
        assert(s.take(0) =~= a);
    } else {
        assert(p[0] == a[0]);
        assert(p.skip(1) =~= a.skip(1) + seq![42u8] + b);
        if s.len() > 0 {
            lemma_star_stands_for_any_bytes(a.skip(1), b, s.skip(1));
            let n = a.len() as int;
            if s.len() >= n + b.len() {
                assert(s.skip(1).skip(s.len() - 1 - b.len()) =~= s.skip(s.len() - b.len()));
                assert(s.skip(1).take(n - 1) =~= s.take(n).skip(1));
                if a[0] == s[0] && s.skip(1).take(n - 1) == a.skip(1) {
                    assert(s.take(n) =~= seq![s[0]] + s.skip(1).take(n - 1));
                    assert(a =~= seq![a[0]] + a.skip(1));
                }
                if s.take(n) == a {
                    assert(s.take(n)[0] == s[0]);
                }
            }
        }
    }
}

} // verus!
