//! Connection identifiers: `source:destination:nonce`.
use vstd::prelude::*;

verus! {

/// A segment of a connection identifier holds no colon.
pub open spec fn no_colon(s: Seq<char>) -> bool {
    forall|i: int| 0 <= i < s.len() ==> s[i] != ':'
}

/// `s` is the three segments `a`, `b`, `c` joined by single colons.
pub open spec fn is_split(s: Seq<char>, a: Seq<char>, b: Seq<char>, c: Seq<char>) -> bool {
    &&& no_colon(a)
    &&& no_colon(b)
    &&& no_colon(c)
    &&& s == a + seq![':'] + b + seq![':'] + c
}

/// The identifier joined from three segments.
pub open spec fn join(a: Seq<char>, b: Seq<char>, c: Seq<char>) -> Seq<char> {
    a + seq![':'] + b + seq![':'] + c
}

/// `s` holds exactly two colons, so it splits into three segments.
pub open spec fn well_formed(s: Seq<char>) -> bool {
    exists|t: (Seq<char>, Seq<char>, Seq<char>)| is_split(s, t.0, t.1, t.2)
}

/// The three segments of a well-formed identifier.
pub open spec fn segments(s: Seq<char>) -> (Seq<char>, Seq<char>, Seq<char>) {
    choose|t: (Seq<char>, Seq<char>, Seq<char>)| is_split(s, t.0, t.1, t.2)
}

/// The segment that names the agent that opened the connection.
pub open spec fn source(s: Seq<char>) -> Seq<char> {
    segments(s).0
}

/// The segment that names the destination agent.
pub open spec fn destination(s: Seq<char>) -> Seq<char> {
    segments(s).1
}

/// An identifier splits in one way only.
pub proof fn lemma_split_unique(
    s: Seq<char>,
    a: Seq<char>,
    b: Seq<char>,
    c: Seq<char>,
    a2: Seq<char>,
    b2: Seq<char>,
    c2: Seq<char>,
)
    requires
        is_split(s, a, b, c),
        is_split(s, a2, b2, c2),
    ensures
        a == a2,
        b == b2,
        c == c2,
{
    let la = a.len() as int;
    let la2 = a2.len() as int;
    if la < la2 {
        assert(s[la] == ':');
        assert(s[la] == a2[la]);
    } else if la2 < la {
        assert(s[la2] == ':');
        assert(s[la2] == a[la2]);
    }
    assert(a =~= s.subrange(0, la));
    assert(a2 =~= s.subrange(0, la));
    let lb = b.len() as int;
    let lb2 = b2.len() as int;
    if lb < lb2 {
        assert(s[la + 1 + lb] == ':');
        assert(s[la + 1 + lb] == b2[lb]);
    } else if lb2 < lb {
        assert(s[la + 1 + lb2] == ':');
        assert(s[la + 1 + lb2] == b[lb2]);
    }
    assert(b =~= s.subrange(la + 1, la + 1 + lb));
    assert(b2 =~= s.subrange(la + 1, la + 1 + lb));
    assert(c =~= s.subrange(la + lb + 2, s.len() as int));
    assert(c2 =~= s.subrange(la + lb + 2, s.len() as int));
}

/// The segments of an identifier joined from colon-free parts are those parts.
pub proof fn lemma_segments_of_join(a: Seq<char>, b: Seq<char>, c: Seq<char>)
    requires
        no_colon(a),
        no_colon(b),
        no_colon(c),
    ensures
        well_formed(join(a, b, c)),
        segments(join(a, b, c)) == (a, b, c),
        source(join(a, b, c)) == a,
        destination(join(a, b, c)) == b,
{
    let s = join(a, b, c);
    let w = (a, b, c);
    assert(is_split(s, w.0, w.1, w.2));
    let t = segments(s);
    lemma_split_unique(s, a, b, c, t.0, t.1, t.2);
}

/// Splits a connection identifier into its source, destination and nonce
/// segments; `None` unless it holds exactly two colons.
pub fn parse_conn(conn: &str) -> (r: Option<(String, String, String)>)
    ensures
        r is Some <==> well_formed(conn@),
        r matches Some((a, b, c)) ==> is_split(conn@, a@, b@, c@) && segments(conn@) == (
            a@,
            b@,
            c@,
        ),
{
    let n = conn.unicode_len();
    let mut first: Option<usize> = None;
    let mut second: Option<usize> = None;
    let mut i: usize = 0;
    while i < n
        invariant
            n == conn@.len(),
            i <= n,
            first is None ==> second is None && no_colon(conn@.subrange(0, i as int)),
            first matches Some(p) ==> p < i && conn@[p as int] == ':' && no_colon(
                conn@.subrange(0, p as int),
            ),
            second is None ==> (first matches Some(p) ==> no_colon(
                conn@.subrange(p + 1, i as int),
            )),
            second matches Some(q) ==> first matches Some(p) && p < q && q < i && conn@[q as int]
                == ':' && no_colon(conn@.subrange(p + 1, q as int)) && no_colon(
                conn@.subrange(q + 1, i as int),
            ),
        decreases n - i,
    {
        let ch = conn.get_char(i);
        if ch == ':' {
            if first.is_none() {
                first = Some(i);
            } else if second.is_none() {
                second = Some(i);
            } else {
                let ghost p = first.unwrap();
                let ghost q = second.unwrap();
                proof {
                    assert forall|t: (Seq<char>, Seq<char>, Seq<char>)|
                        !is_split(conn@, t.0, t.1, t.2) by {
                        lemma_three_colons(conn@, t.0, t.1, t.2, p as int, q as int, i as int);
                    }
                }
                return None;
            }
        }
        proof {
            if first is Some && second is None && first.unwrap() < i {
                assert(conn@.subrange(first.unwrap() + 1, i + 1) =~= conn@.subrange(
                    first.unwrap() + 1,
                    i as int,
                ).push(ch));
            }
            if second is Some && second.unwrap() < i {
                assert(conn@.subrange(second.unwrap() + 1, i + 1) =~= conn@.subrange(
                    second.unwrap() + 1,
                    i as int,
                ).push(ch));
            }
            if first is None {
                assert(conn@.subrange(0, i + 1) =~= conn@.subrange(0, i as int).push(ch));
            }
        }
        i = i + 1;
    }
    match (first, second) {
        (Some(p), Some(q)) => {
            let a = String::from_str(conn.substring_char(0, p));
            let b = String::from_str(conn.substring_char(p + 1, q));
            let c = String::from_str(conn.substring_char(q + 1, n));
            proof {
                assert(conn@ =~= a@ + seq![':'] + b@ + seq![':'] + c@);
                let w = (a@, b@, c@);
                assert(is_split(conn@, w.0, w.1, w.2));
                let t = segments(conn@);
                lemma_split_unique(conn@, a@, b@, c@, t.0, t.1, t.2);
            }
            Some((a, b, c))
        },
        _ => {
            proof {
                assert forall|t: (Seq<char>, Seq<char>, Seq<char>)|
                    !is_split(conn@, t.0, t.1, t.2) by {
                    let x = t.0;
                    let y = t.1;
                    let z = t.2;
                    if is_split(conn@, x, y, z) {
                        let k = x.len() as int;
                        let m = k + 1 + y.len();
                        assert(conn@[k] == ':');
                        assert(conn@[m] == ':');
                        if first is None {
                            assert(conn@.subrange(0, n as int)[k] == ':');
                        } else {
                            let p = first.unwrap() as int;
                            if k < p {
                                assert(conn@.subrange(0, p)[k] == ':');
                            } else if k > p {
                                assert(x[p] == ':');
                            } else {
                                assert(conn@.subrange(p + 1, n as int)[m - p - 1] == ':');
                            }
                        }
                    }
                }
            }
            None
        },
    }
}

/// An identifier with three colons at `p < q < i` splits in no way.
proof fn lemma_three_colons(
    s: Seq<char>,
    a: Seq<char>,
    b: Seq<char>,
    c: Seq<char>,
    p: int,
    q: int,
    i: int,
)
    requires
        0 <= p < q < i < s.len(),
        s[p] == ':',
        s[q] == ':',
        s[i] == ':',
    ensures
        !is_split(s, a, b, c),
{
    if is_split(s, a, b, c) {
        let k = a.len() as int;
        let m = k + 1 + b.len();
        // every colon of s sits at k or at m
        assert forall|j: int| 0 <= j < s.len() && s[j] == ':' implies j == k || j == m by {
            if j < k {
                assert(a[j] == s[j]);
            } else if k < j < m {
                assert(b[j - k - 1] == s[j]);
            } else if j > m {
                assert(c[j - m - 1] == s[j]);
            }
        }
    }
}

} // verus!
