//! Small verified text-building utilities shared by the hint index and the
//! code generator: indentation, joining, decimal rendering and splitting on
//! the pointer separator.

use vstd::prelude::*;

verus! {

use vstd::string::StringExecFns;
use vstd::string::StrSliceExecFns;

/// Four spaces per indentation level.
pub open spec fn spec_indent(n: nat) -> Seq<char>
    decreases n,
{
    if n == 0 {
        Seq::empty()
    } else {
        spec_indent((n - 1) as nat) + "    "@
    }
}

/// The indentation prefix for `n` nesting levels.
pub fn indent(n: usize) -> (r: String)
    ensures
        r@ == spec_indent(n as nat),
{
    let mut r = String::new();
    let mut i: usize = 0;
    while i < n
        invariant
            i <= n,
            r@ == spec_indent(i as nat),
        decreases n - i,
    {
        r.append("    ");
        i = i + 1;
    }
    r
}

/// The decimal digit character for `d` (`d <= 9`).
pub open spec fn digit_char(d: nat) -> char {
    "0123456789"@[d as int]
}

/// The canonical base-10 rendering of `n`: no sign, no superfluous leading
/// zero.
pub open spec fn spec_decimal(n: nat) -> Seq<char>
    decreases n,
{
    if n < 10 {
        seq![digit_char(n)]
    } else {
        spec_decimal(n / 10).push(digit_char(n % 10))
    }
}

/// Every character of a decimal rendering is a digit.
pub proof fn lemma_decimal_digits(n: nat)
    ensures
        spec_decimal(n).len() >= 1,
        forall|i: int|
            0 <= i < spec_decimal(n).len() ==> 48 <= (#[trigger] spec_decimal(n)[i]) as u32 <= 57,
    decreases n,
{
    reveal_strlit("0123456789");
    if n >= 10 {
        lemma_decimal_digits(n / 10);
    }
}

/// Renders `i` in decimal.
pub fn usize_to_decimal(i: usize) -> (r: String)
    ensures
        r@ == spec_decimal(i as nat),
    decreases i,
{
    let digits = "0123456789";
    proof {
        reveal_strlit("0123456789");
    }
    let d: usize = i % 10;
    let last = digits.substring_char(d, d + 1);
    proof {
        assert(last@ =~= seq![digit_char((i as nat) % 10)]);
    }
    if i < 10 {
        last.to_owned()
    } else {
        proof {
            assert(i / 10 < i) by (nonlinear_arith)
                requires i >= 10;
        }
        let mut s = usize_to_decimal(i / 10);
        s.append(last);
        proof {
            assert(spec_decimal((i as nat) / 10).push(digit_char((i as nat) % 10)) =~= spec_decimal(
                (i as nat) / 10,
            ) + seq![digit_char((i as nat) % 10)]);
        }
        s
    }
}

/// The views of a list of strings, in order.
pub open spec fn strs_model(v: Seq<String>) -> Seq<Seq<char>> {
    Seq::new(v.len(), |i: int| v[i]@)
}

/// `parts` joined with `sep` between consecutive parts.
pub open spec fn spec_join(sep: Seq<char>, parts: Seq<Seq<char>>) -> Seq<char>
    decreases parts,
{
    if parts.len() == 0 {
        Seq::empty()
    } else if parts.len() == 1 {
        parts[0]
    } else {
        spec_join(sep, parts.drop_last()) + sep + parts.last()
    }
}

/// Joins `parts` with `sep`.
pub fn join(sep: &str, parts: &Vec<String>) -> (r: String)
    ensures
        r@ == spec_join(sep@, strs_model(parts@)),
{
    let mut r = String::new();
    let mut i: usize = 0;
    while i < parts.len()
        invariant
            i <= parts.len(),
            r@ == spec_join(sep@, strs_model(parts@).take(i as int)),
        decreases parts.len() - i,
    {
        if i > 0 {
            r.append(sep);
        }
        r.append(parts[i].as_str());
        proof {
            let m = strs_model(parts@);
            assert(m.take(i + 1).drop_last() =~= m.take(i as int));
            assert(m.take(i + 1).last() == parts@[i as int]@);
            if i == 0 {
                assert(spec_join(sep@, m.take(1)) == m.take(1)[0]);
            }
        }
        i = i + 1;
    }
    proof {
        assert(strs_model(parts@).take(parts@.len() as int) =~= strs_model(parts@));
    }
    r
}

/// Splitting on `/`: one part more than there are separators; characters
/// between consecutive separators form the parts, in order.
pub open spec fn spec_split(s: Seq<char>) -> Seq<Seq<char>>
    decreases s,
{
    if s.len() == 0 {
        seq![Seq::<char>::empty()]
    } else {
        let rest = spec_split(s.drop_last());
        if s.last() == '/' {
            rest.push(Seq::empty())
        } else {
            rest.update(rest.len() - 1, rest.last().push(s.last()))
        }
    }
}

/// A split always yields at least one part.
pub proof fn lemma_split_len(s: Seq<char>)
    ensures
        spec_split(s).len() >= 1,
    decreases s,
{
    if s.len() > 0 {
        lemma_split_len(s.drop_last());
    }
}

/// Splitting a string that starts with the separator yields at least two
/// parts.
pub proof fn lemma_nonroot_split_len(s: Seq<char>)
    requires
        s.len() > 0,
        s[0] == '/',
    ensures
        spec_split(s).len() >= 2,
    decreases s,
{
    if s.len() == 1 {
        assert(s.drop_last().len() == 0);
    } else {
        lemma_nonroot_split_len(s.drop_last());
        lemma_split_len(s.drop_last());
    }
}

/// Splits `s` on `/`.
pub fn split_slash(s: &str) -> (r: Vec<String>)
    ensures
        strs_model(r@) == spec_split(s@),
{
    let n = s.unicode_len();
    let mut segs: Vec<String> = Vec::new();
    let mut start: usize = 0;
    let mut i: usize = 0;
    while i < n
        invariant
            start <= i <= n,
            n == s@.len(),
            spec_split(s@.take(i as int)) =~~= strs_model(segs@).push(
                s@.subrange(start as int, i as int),
            ),
        decreases n - i,
    {
        let c = s.get_char(i);
        proof {
            lemma_split_len(s@.take(i as int));
            assert(s@.take(i + 1).drop_last() =~~= s@.take(i as int));
        }
        if c == '/' {
            let seg = s.substring_char(start, i);
            segs.push(seg.to_owned());
            proof {
                assert(strs_model(segs@).push(s@.subrange(i + 1, i + 1)) =~~= spec_split(
                    s@.take(i + 1),
                ));
            }
            start = i + 1;
        } else {
            proof {
                let old_parts = strs_model(segs@).push(s@.subrange(start as int, i as int));
                assert(old_parts.last() == s@.subrange(start as int, i as int));
                assert(old_parts.update(old_parts.len() - 1, old_parts.last().push(s@[i as int]))
                    =~~= strs_model(segs@).push(s@.subrange(start as int, i + 1)));
            }
        }
        i = i + 1;
    }
    let seg = s.substring_char(start, n);
    segs.push(seg.to_owned());
    proof {
        assert(s@.take(n as int) =~~= s@);
        assert(strs_model(segs@) =~~= spec_split(s@));
    }
    segs
}

/// The character position where part `i` starts inside a join.
pub open spec fn join_offset(sep: Seq<char>, parts: Seq<Seq<char>>, i: int) -> int
    decreases i,
{
    if i <= 0 {
        0
    } else {
        join_offset(sep, parts, i - 1) + parts[i - 1].len() + sep.len()
    }
}

proof fn lemma_join_offset_nonneg(sep: Seq<char>, parts: Seq<Seq<char>>, i: int)
    ensures
        0 <= join_offset(sep, parts, i),
    decreases i,
{
    if i > 0 {
        lemma_join_offset_nonneg(sep, parts, i - 1);
    }
}

proof fn lemma_join_offset_prefix(sep: Seq<char>, a: Seq<Seq<char>>, b: Seq<Seq<char>>, i: int)
    requires
        0 <= i,
        forall|k: int| 0 <= k < i ==> a[k] == b[k],
    ensures
        join_offset(sep, a, i) == join_offset(sep, b, i),
    decreases i,
{
    if i > 0 {
        lemma_join_offset_prefix(sep, a, b, i - 1);
    }
}

/// A join is exactly long enough to hold every part at its offset.
pub proof fn lemma_join_len(sep: Seq<char>, parts: Seq<Seq<char>>)
    requires
        parts.len() >= 1,
    ensures
        spec_join(sep, parts).len() + sep.len() == join_offset(sep, parts, parts.len() as int),
    decreases parts,
{
    if parts.len() == 1 {
        assert(join_offset(sep, parts, 0) == 0);
    } else {
        lemma_join_len(sep, parts.drop_last());
        lemma_join_offset_prefix(sep, parts, parts.drop_last(), parts.len() - 1);
    }
}

/// Later parts start after earlier parts end: a join keeps the order of
/// its parts.
pub proof fn lemma_join_offsets_ordered(sep: Seq<char>, parts: Seq<Seq<char>>, i: int, j: int)
    requires
        0 <= i < j <= parts.len(),
    ensures
        join_offset(sep, parts, i) + parts[i].len() <= join_offset(sep, parts, j),
    decreases j,
{
    if j == i + 1 {
    } else {
        lemma_join_offsets_ordered(sep, parts, i, j - 1);
    }
}

/// Part `i` of a join stands unchanged at its offset: joining preserves
/// every part and, with `lemma_join_offsets_ordered`, their order.
pub proof fn lemma_join_positions(sep: Seq<char>, parts: Seq<Seq<char>>, i: int)
    requires
        0 <= i < parts.len(),
    ensures
        0 <= join_offset(sep, parts, i),
        join_offset(sep, parts, i) + parts[i].len() <= spec_join(sep, parts).len(),
        spec_join(sep, parts).subrange(
            join_offset(sep, parts, i),
            join_offset(sep, parts, i) + parts[i].len(),
        ) =~= parts[i],
    decreases parts,
{
    lemma_join_offset_nonneg(sep, parts, i);
    if parts.len() == 1 {
        assert(spec_join(sep, parts).subrange(0, parts[0].len() as int) =~= parts[0]);
    } else if i == parts.len() - 1 {
        lemma_join_len(sep, parts.drop_last());
        lemma_join_offset_prefix(sep, parts, parts.drop_last(), i);
        let jb = spec_join(sep, parts.drop_last());
        assert forall|k: int|
            0 <= k < i implies parts[k] == parts.drop_last()[k] by {}
        assert(join_offset(sep, parts, i) == jb.len() + sep.len());
        assert(spec_join(sep, parts).subrange(
            (jb.len() + sep.len()) as int,
            (jb.len() + sep.len() + parts[i].len()) as int,
        ) =~= parts[i]);
    } else {
        lemma_join_positions(sep, parts.drop_last(), i);
        lemma_join_offset_prefix(sep, parts, parts.drop_last(), i);
        let jb = spec_join(sep, parts.drop_last());
        let o = join_offset(sep, parts, i);
        assert(parts.drop_last()[i] == parts[i]);
        lemma_join_offsets_ordered(sep, parts.drop_last(), i, parts.drop_last().len() as int);
        lemma_join_len(sep, parts.drop_last());
        assert(o + parts[i].len() <= jb.len());
        assert(spec_join(sep, parts).subrange(o, o + parts[i].len()) =~= jb.subrange(
            o,
            o + parts[i].len(),
        ));
    }
}

} // verus!

