//! Hint paths written as JSON-Pointer-like strings.
use vstd::prelude::*;
use vstd::string::{StrSliceExecFns, StringExecFns};

verus! {

/// Every non-overlapping occurrence of the pair `a b`, left to right, replaced
/// by `c`.
pub open spec fn replace_pair(s: Seq<char>, a: char, b: char, c: char) -> Seq<char>
    decreases s.len(),
{
    if s.len() < 2 {
        s
    } else if s[0] == a && s[1] == b {
        seq![c] + replace_pair(s.subrange(2, s.len() as int), a, b, c)
    } else {
        seq![s[0]] + replace_pair(s.drop_first(), a, b, c)
    }
}

/// A segment with its escapes decoded: `~1` becomes `/`, then `!0` becomes `~`.
pub open spec fn decode_segment(s: Seq<char>) -> Seq<char> {
    replace_pair(replace_pair(s, '~', '1', '/'), '!', '0', '~')
}

/// The pieces of `s` between slashes, in order; there is one more piece than
/// there are slashes.
pub open spec fn pieces(s: Seq<char>) -> Seq<Seq<char>>
    decreases s.len(),
{
    if s.len() == 0 {
        seq![Seq::empty()]
    } else {
        let r = pieces(s.drop_last());
        if s.last() == '/' {
            r.push(Seq::empty())
        } else {
            r.update(r.len() - 1, r.last().push(s.last()))
        }
    }
}

/// The segments of a hint path: none for the empty string; otherwise the pieces
/// after the first slash-separated one, each decoded.
pub open spec fn pointer_segments(s: Seq<char>) -> Seq<Seq<char>> {
    if s.len() == 0 {
        Seq::empty()
    } else {
        pieces(s).drop_first().map_values(|p: Seq<char>| decode_segment(p))
    }
}

/// `s` with every pair `a b` replaced by `c`, as [`replace_pair`] says.
fn replace_all_pairs(s: &str, a: char, b: char, c: &str) -> (r: String)
    requires
        c@.len() == 1,
    ensures
        r@ == replace_pair(s@, a, b, c@[0]),
{
    let n = s.unicode_len();
    let mut out = String::new();
    let mut i: usize = 0;
    proof {
        assert(s@.subrange(0, n as int) =~= s@);
    }
    while i < n
        invariant
            n == s@.len(),
            i <= n,
            c@.len() == 1,
            out@ + replace_pair(s@.subrange(i as int, n as int), a, b, c@[0]) == replace_pair(
                s@,
                a,
                b,
                c@[0],
            ),
        decreases n - i,
    {
        let ghost rest = s@.subrange(i as int, n as int);
        let ghost before = out@;
        if i + 1 < n && s.get_char(i) == a && s.get_char(i + 1) == b {
            proof {
                assert(rest.subrange(2, rest.len() as int) =~= s@.subrange(i + 2, n as int));
                assert(c@ =~= seq![c@[0]]);
            }
            out.append(c);
            proof {
                assert(out@ + replace_pair(s@.subrange(i + 2, n as int), a, b, c@[0]) =~= before
                    + replace_pair(rest, a, b, c@[0]));
            }
            i = i + 2;
        } else {
            let one = s.substring_char(i, i + 1);
            proof {
                assert(rest.drop_first() =~= s@.subrange(i + 1, n as int));
                assert(one@ =~= seq![rest[0]]);
                if rest.len() < 2 {
                    assert(rest =~= seq![rest[0]]);
                    assert(s@.subrange(i + 1, n as int) =~= Seq::<char>::empty());
                }
            }
            out.append(one);
            proof {
                assert(out@ + replace_pair(s@.subrange(i + 1, n as int), a, b, c@[0]) =~= before
                    + replace_pair(rest, a, b, c@[0]));
            }
            i = i + 1;
        }
    }
    proof {
        assert(s@.subrange(n as int, n as int) =~= Seq::<char>::empty());
        assert(out@ + Seq::<char>::empty() =~= out@);
    }
    out
}

/// One segment with its escapes decoded, as [`decode_segment`] says.
fn decode(seg: &str) -> (r: String)
    ensures
        r@ == decode_segment(seg@),
{
    proof {
        reveal_strlit("/");
        reveal_strlit("~");
    }
    let once = replace_all_pairs(seg, '~', '1', "/");
    replace_all_pairs(once.as_str(), '!', '0', "~")
}

/// The segments of a hint path written as a JSON-Pointer-like string: the empty
/// string is the root; otherwise the text is split on `/`, what comes before the
/// first `/` is dropped, and in each segment `~1` stands for `/` and `!0` for `~`.
pub fn parse_json_pointer(s: &str) -> (r: Vec<String>)
    ensures
        r@.len() == pointer_segments(s@).len(),
        forall|i: int| 0 <= i < r@.len() ==> #[trigger] r@[i]@ == pointer_segments(s@)[i],
{
    let n = s.unicode_len();
    let mut out: Vec<String> = Vec::new();
    if n == 0 {
        return out;
    }
    // `start` is where the current piece begins; `seen` counts the pieces ended so far.
    let mut start: usize = 0;
    let mut seen: usize = 0;
    let mut i: usize = 0;
    proof {
        assert(s@.subrange(0, 0) =~= Seq::<char>::empty());
    }
    while i < n
        invariant
            n == s@.len(),
            start <= i <= n,
            seen <= i,
            pieces(s@.subrange(0, i as int)).len() == seen + 1,
            pieces(s@.subrange(0, i as int))[seen as int] == s@.subrange(start as int, i as int),
            seen == 0 ==> out@.len() == 0,
            seen > 0 ==> out@.len() == seen - 1,
            forall|j: int|
                0 <= j < out@.len() ==> #[trigger] out@[j]@ == decode_segment(
                    pieces(s@.subrange(0, i as int))[j + 1],
                ),
        decreases n - i,
    {
        let ghost prev = pieces(s@.subrange(0, i as int));
        proof {
            assert(s@.subrange(0, i + 1).drop_last() =~= s@.subrange(0, i as int));
            assert(s@.subrange(0, i + 1).last() == s@[i as int]);
        }
        if s.get_char(i) == '/' {
            if seen > 0 {
                let piece = s.substring_char(start, i);
                let d = decode(piece);
                out.push(d);
            }
            seen = seen + 1;
            start = i + 1;
            proof {
                assert(s@.subrange(start as int, i + 1) =~= Seq::<char>::empty());
            }
        } else {
            proof {
                assert(s@.subrange(start as int, i + 1) =~= s@.subrange(start as int, i as int).push(
                    s@[i as int],
                ));
            }
        }
        i = i + 1;
    }
    let piece = s.substring_char(start, n);
    proof {
        assert(s@.subrange(0, n as int) =~= s@);
    }
    if seen > 0 {
        let d = decode(piece);
        out.push(d);
    }
    proof {
        let ps = pieces(s@);
        assert(pointer_segments(s@) == ps.drop_first().map_values(|p: Seq<char>| decode_segment(p)));
        assert(out@.len() == pointer_segments(s@).len());
        assert forall|j: int| 0 <= j < out@.len() implies #[trigger] out@[j]@ == pointer_segments(s@)[j] by {
            assert(ps.drop_first()[j] == ps[j + 1]);
        }
    }
    out
}

} // verus!
