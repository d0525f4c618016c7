//! Pointer-path-scoped override rules and the index that narrows them as a
//! shape tree is walked.

use vstd::prelude::*;

verus! {

use crate::text::{spec_decimal, spec_split, strs_model, usize_to_decimal};
use crate::text::{split_slash, lemma_decimal_digits, lemma_nonroot_split_len};
use vstd::string::StrSliceExecFns;

/// What an override rule substitutes at the node it applies to.
pub enum HintType {
    UseType(String),
    UseMap(String),
    UseName(String),
}

/// One override annotation. `used` is a diagnostic flag, written by the
/// owner of the annotation list after generation; it is never consulted
/// while generating.
pub struct Hint {
    pub hint_type: HintType,
    pub used: bool,
}

impl Hint {
    /// The default annotation for map-like nodes.
    pub fn default_map() -> (r: Hint)
        ensures
            r.hint_type matches HintType::UseMap(name) && name@
                == "::std::collections::HashMap"@,
            r.used == false,
    {
        Hint {
            hint_type: HintType::UseMap("::std::collections::HashMap".to_owned()),
            used: false,
        }
    }
}

/// Whether a path segment names an array position: the wildcard `-`, or a
/// non-empty base-10 numeral with no superfluous leading zero.
pub open spec fn is_index_model(s: Seq<char>) -> bool {
    s == "-"@ || (s.len() >= 1 && (s.len() == 1 || s[0] as u32 != 48) && (forall|i: int|
        0 <= i < s.len() ==> 48 <= (#[trigger] s[i]) as u32 <= 57))
}

/// Whether `s` names an array position.
pub fn is_index(s: &str) -> (r: bool)
    ensures
        r == is_index_model(s@),
{
    let n = s.unicode_len();
    proof {
        reveal_strlit("-");
    }
    if n == 1 && s.get_char(0) == '-' {
        proof {
            assert(s@ =~= "-"@);
        }
        return true;
    }
    if n == 0 {
        return false;
    }
    if n > 1 && s.get_char(0) == '0' {
        proof {
            assert(s@ != "-"@);
        }
        return false;
    }
    let mut i: usize = 0;
    let mut all_digits = true;
    while all_digits && i < n
        invariant
            i <= n,
            n == s@.len(),
            all_digits ==> forall|k: int| 0 <= k < i ==> 48 <= (#[trigger] s@[k]) as u32 <= 57,
            !all_digits ==> i < n && !(48 <= s@[i as int] as u32 <= 57),
            !(n == 1 && s@[0] == '-'),
        decreases n - i + (if all_digits { 1int } else { 0int }),
    {
        let c = s.get_char(i);
        if c as u32 >= 48 && c as u32 <= 57 {
            i = i + 1;
        } else {
            all_digits = false;
        }
    }
    proof {
        if all_digits {
        } else {
            assert(s@ != "-"@);
        }
    }
    all_digits
}

/// A one-segment test applied by a narrowing step.
pub enum SegTest {
    /// The segment must be this exact text.
    Lit(String),
    /// The segment must name an array position (a numeral or the wildcard).
    AnyIndex,
    /// Any segment passes.
    Always,
}

/// The mathematical counterpart of `SegTest`.
pub enum SegMatch {
    Lit(Seq<char>),
    AnyIndex,
    Always,
}

impl View for SegTest {
    type V = SegMatch;

    open spec fn view(&self) -> SegMatch {
        match self {
            SegTest::Lit(t) => SegMatch::Lit(t@),
            SegTest::AnyIndex => SegMatch::AnyIndex,
            SegTest::Always => SegMatch::Always,
        }
    }
}

/// Whether a segment passes a test.
pub open spec fn seg_matches(m: SegMatch, seg: Seq<char>) -> bool {
    match m {
        SegMatch::Lit(t) => seg == t,
        SegMatch::AnyIndex => is_index_model(seg),
        SegMatch::Always => true,
    }
}

/// The rules kept by one narrowing step: those whose first segment passes
/// and whose pattern is not thereby exhausted, with that segment consumed.
pub open spec fn step_pairs_model(ps: Seq<(Seq<Seq<char>>, usize)>, m: SegMatch) -> Seq<
    (Seq<Seq<char>>, usize),
>
    decreases ps,
{
    if ps.len() == 0 {
        Seq::empty()
    } else {
        let prev = step_pairs_model(ps.drop_last(), m);
        let p = ps.last();
        if p.0.len() > 1 && seg_matches(m, p.0[0]) {
            prev.push((p.0.drop_first(), p.1))
        } else {
            prev
        }
    }
}

/// The annotations resolved by one narrowing step: those of the rules whose
/// single remaining segment passes.
pub open spec fn step_applicable_model(ps: Seq<(Seq<Seq<char>>, usize)>, m: SegMatch) -> Seq<usize>
    decreases ps,
{
    if ps.len() == 0 {
        Seq::empty()
    } else {
        let prev = step_applicable_model(ps.drop_last(), m);
        let p = ps.last();
        if p.0.len() == 1 && seg_matches(m, p.0[0]) {
            prev.push(p.1)
        } else {
            prev
        }
    }
}

/// The index of override rules not yet resolved at the current node, plus
/// the annotations (as handles into the caller's annotation list) that have
/// become applicable here. Narrowing never mutates an index: each step
/// returns a new one, so one index can be reused across sibling subtrees.
///
/// When several rules become applicable at one node they stand in the
/// applicable list in registration order; callers that must pick one apply
/// that order as the precedence.
pub struct Hints {
    pub hints: Vec<(Vec<String>, usize)>,
    pub applicable: Vec<usize>,
}

impl Hints {
    /// The pending rules: each a non-empty remaining pattern and a handle.
    pub open spec fn pairs_model(self) -> Seq<(Seq<Seq<char>>, usize)> {
        Seq::new(self.hints@.len(), |i: int| (strs_model(self.hints@[i].0@), self.hints@[i].1))
    }

    /// The handles applicable at the current node, in resolution order.
    pub open spec fn applicable_model(self) -> Seq<usize> {
        self.applicable@
    }

    /// Every pending rule has at least one remaining segment.
    pub open spec fn wf(self) -> bool {
        forall|i: int|
            0 <= i < self.pairs_model().len() ==> (#[trigger] self.pairs_model()[i]).0.len() >= 1
    }

    /// An empty index.
    pub fn new() -> (r: Hints)
        ensures
            r.wf(),
            r.pairs_model() == Seq::<(Seq<Seq<char>>, usize)>::empty(),
            r.applicable_model() == Seq::<usize>::empty(),
    {
        let r = Hints { hints: Vec::new(), applicable: Vec::new() };
        proof {
            assert(r.pairs_model() =~= Seq::<(Seq<Seq<char>>, usize)>::empty());
        }
        r
    }

    /// Registers a rule. The empty pointer registers the annotation as
    /// immediately applicable; any other pointer must start with `/` (a
    /// malformed pointer is a configuration error, excluded by contract)
    /// and appends one rule holding the pointer's segments.
    pub fn add(&mut self, pointer: &str, hint: usize)
        requires
            old(self).wf(),
            pointer@.len() == 0 || pointer@[0] == '/',
        ensures
            final(self).wf(),
            pointer@.len() == 0 ==> final(self).pairs_model() == old(self).pairs_model()
                && final(self).applicable_model() == old(self).applicable_model().push(hint),
            pointer@.len() > 0 ==> final(self).applicable_model() == old(
                self,
            ).applicable_model() && final(self).pairs_model() == old(self).pairs_model().push(
                (spec_split(pointer@).drop_first(), hint),
            ),
    {
        if pointer.is_empty() {
            self.applicable.push(hint);
            proof {
                assert(self.pairs_model() =~~= old(self).pairs_model());
            }
        } else {
            let toks = split_slash(pointer);
            proof {
                lemma_nonroot_split_len(pointer@);
            }
            let mut rest: Vec<String> = Vec::new();
            let mut j: usize = 1;
            while j < toks.len()
                invariant
                    1 <= j <= toks.len(),
                    strs_model(rest@) =~= strs_model(toks@).subrange(1, j as int),
                decreases toks.len() - j,
            {
                let c = toks[j].clone();
                proof {
                    assert(c@ == toks@[j as int]@);
                    assert(strs_model(toks@)[j as int] == toks@[j as int]@);
                }
                let ghost prev = rest@;
                rest.push(c);
                proof {
                    assert(rest@ == prev.push(c));
                    assert(strs_model(prev).len() == prev.len());
                    assert(strs_model(prev) =~= strs_model(toks@).subrange(1, j as int));
                    assert(strs_model(prev).len() == j - 1);
                    assert(rest@.len() == prev.len() + 1);
                    assert(strs_model(rest@).len() == rest@.len());
                    assert(strs_model(rest@).len() == j);
                    assert forall|k: int| 0 <= k < j implies strs_model(rest@)[k] == strs_model(
                        toks@,
                    ).subrange(1, j + 1)[k] by {
                        if k < j - 1 {
                            assert(strs_model(rest@)[k] == strs_model(prev)[k]);
                            assert(strs_model(prev)[k] == strs_model(toks@).subrange(
                                1,
                                j as int,
                            )[k]);
                        } else {
                            assert(strs_model(rest@)[k] == c@);
                        }
                    }
                    assert(strs_model(rest@) =~= strs_model(toks@).subrange(1, j + 1));
                }
                j = j + 1;
            }
            proof {
                lemma_nonroot_split_len(pointer@);
                assert(strs_model(rest@) =~~= spec_split(pointer@).drop_first());
            }
            let ghost prev = self.pairs_model();
            self.hints.push((rest, hint));
            proof {
                assert(self.pairs_model() =~~= prev.push(
                    (spec_split(pointer@).drop_first(), hint),
                ));
                assert forall|i: int|
                    0 <= i < self.pairs_model().len() implies (#[trigger] self.pairs_model()[i]).0.len()
                    >= 1 by {
                    if i < prev.len() {
                        assert(self.pairs_model()[i] == old(self).pairs_model()[i]);
                    } else {
                        assert(self.pairs_model()[i].0 == spec_split(pointer@).drop_first());
                    }
                }
            }
        }
    }

    /// One narrowing step: keeps the rules whose first segment passes
    /// `test`, consuming that segment; rules thereby exhausted resolve into
    /// the new index's applicable list.
    #[verifier::loop_isolation(false)]
    pub fn step(&self, test: &SegTest) -> (r: Hints)
        requires
            self.wf(),
        ensures
            r.wf(),
            r.pairs_model() == step_pairs_model(self.pairs_model(), test@),
            r.applicable_model() == step_applicable_model(self.pairs_model(), test@),
    {
        let mut filtered: Vec<(Vec<String>, usize)> = Vec::new();
        let mut applicable: Vec<usize> = Vec::new();
        let mut i: usize = 0;
        let ghost ps = self.pairs_model();
        while i < self.hints.len()
            invariant
                i <= self.hints.len(),
                forall|k: int|
                    0 <= k < filtered@.len() ==> (#[trigger] filtered@[k]).0@.len() >= 1,
                Seq::new(
                    filtered@.len(),
                    |k: int| (strs_model(filtered@[k].0@), filtered@[k].1),
                ) =~~= step_pairs_model(ps.take(i as int), test@),
                applicable@ =~= step_applicable_model(ps.take(i as int), test@),
            decreases self.hints.len() - i,
        {
            proof {
                assert(self.pairs_model()[i as int].0.len() >= 1);
            }
            let path = &self.hints[i].0;
            let matched = match test {
                SegTest::Lit(t) => path[0] == *t,
                SegTest::AnyIndex => is_index(path[0].as_str()),
                SegTest::Always => true,
            };
            proof {
                assert(ps.take(i + 1).drop_last() =~= ps.take(i as int));
                assert(ps.take(i + 1).last() == ps[i as int]);
                assert(matched == seg_matches(test@, ps[i as int].0[0]));
            }
            let ghost prev_f = filtered@;
            let ghost prev_a = applicable@;
            if matched {
                if path.len() == 1 {
                    applicable.push(self.hints[i].1);
                } else {
                    let mut stepped: Vec<String> = Vec::new();
                    let mut j: usize = 1;
                    while j < path.len()
                        invariant
                            1 <= j <= path.len(),
                            strs_model(stepped@) =~= strs_model(path@).subrange(1, j as int),
                        decreases path.len() - j,
                    {
                        stepped.push(path[j].clone());
                        proof {
                            assert(strs_model(stepped@) =~~= strs_model(path@).subrange(
                                1,
                                j + 1,
                            ));
                        }
                        j = j + 1;
                    }
                    proof {
                        assert(strs_model(stepped@) =~~= ps[i as int].0.drop_first());
                    }
                    filtered.push((stepped, self.hints[i].1));
                }
            }
            proof {
                assert(Seq::new(
                    filtered@.len(),
                    |k: int| (strs_model(filtered@[k].0@), filtered@[k].1),
                ) =~~= step_pairs_model(ps.take(i + 1), test@));
                assert(applicable@ =~= step_applicable_model(ps.take(i + 1), test@));
            }
            i = i + 1;
        }
        proof {
            assert(ps.take(ps.len() as int) =~= ps);
        }
        let r = Hints { hints: filtered, applicable };
        proof {
            assert(r.pairs_model() =~~= step_pairs_model(self.pairs_model(), test@));
        }
        r
    }

    /// Keeps the rules whose first segment is exactly `name`, consuming it.
    pub fn step_field(&self, name: &str) -> (r: Hints)
        requires
            self.wf(),
        ensures
            r.wf(),
            r.pairs_model() == step_pairs_model(self.pairs_model(), SegMatch::Lit(name@)),
            r.applicable_model() == step_applicable_model(
                self.pairs_model(),
                SegMatch::Lit(name@),
            ),
    {
        self.step(&SegTest::Lit(name.to_owned()))
    }

    /// Consumes the first segment of every rule unconditionally.
    pub fn step_any(&self) -> (r: Hints)
        requires
            self.wf(),
        ensures
            r.wf(),
            r.pairs_model() == step_pairs_model(self.pairs_model(), SegMatch::Always),
            r.applicable_model() == step_applicable_model(self.pairs_model(), SegMatch::Always),
    {
        self.step(&SegTest::Always)
    }

    /// Keeps the rules whose first segment names an array position: a
    /// numeral or the wildcard.
    pub fn step_array(&self) -> (r: Hints)
        requires
            self.wf(),
        ensures
            r.wf(),
            r.pairs_model() == step_pairs_model(self.pairs_model(), SegMatch::AnyIndex),
            r.applicable_model() == step_applicable_model(self.pairs_model(), SegMatch::AnyIndex),
    {
        self.step(&SegTest::AnyIndex)
    }

    /// Keeps the rules whose first segment is the decimal text of `index`;
    /// the wildcard does not satisfy an index step.
    pub fn step_index(&self, index: usize) -> (r: Hints)
        requires
            self.wf(),
        ensures
            r.wf(),
            r.pairs_model() == step_pairs_model(
                self.pairs_model(),
                SegMatch::Lit(spec_decimal(index as nat)),
            ),
            r.applicable_model() == step_applicable_model(
                self.pairs_model(),
                SegMatch::Lit(spec_decimal(index as nat)),
            ),
    {
        let i_str = usize_to_decimal(index);
        self.step(&SegTest::Lit(i_str))
    }
}

/// Repeated narrowing: the pending rules after applying each test in turn.
pub open spec fn steps_pairs(ps: Seq<(Seq<Seq<char>>, usize)>, ms: Seq<SegMatch>) -> Seq<
    (Seq<Seq<char>>, usize),
>
    decreases ms,
{
    if ms.len() == 0 {
        ps
    } else {
        steps_pairs(step_pairs_model(ps, ms[0]), ms.drop_first())
    }
}

/// A rule whose pattern is matched segment by segment resolves exactly
/// once: stepping an index holding only that rule through tests that match
/// each of its segments in turn leaves, at the final step, an applicable
/// list holding exactly its annotation once — and no pending rule, so the
/// annotation can never resurface in a later narrowing.
pub proof fn lemma_pattern_resolves_once(pattern: Seq<Seq<char>>, h: usize, ms: Seq<SegMatch>)
    requires
        pattern.len() >= 1,
        ms.len() == pattern.len(),
        forall|i: int| 0 <= i < ms.len() ==> seg_matches(ms[i], pattern[i]),
    ensures
        step_applicable_model(steps_pairs(seq![(pattern, h)], ms.drop_last()), ms.last()) =~= seq![
            h,
        ],
        steps_pairs(seq![(pattern, h)], ms) =~= Seq::<(Seq<Seq<char>>, usize)>::empty(),
    decreases pattern.len(),
{
    reveal_with_fuel(step_pairs_model, 3);
    reveal_with_fuel(step_applicable_model, 3);
    reveal_with_fuel(steps_pairs, 3);
    let ps0 = seq![(pattern, h)];
    assert(ps0.drop_last() =~= Seq::<(Seq<Seq<char>>, usize)>::empty());
    if pattern.len() == 1 {
        assert(ms.drop_last() =~= Seq::<SegMatch>::empty());
        assert(seg_matches(ms.last(), pattern[0]));
        assert(step_applicable_model(ps0, ms.last()) =~= seq![h]);
        assert(step_pairs_model(ps0, ms[0]) =~= Seq::<(Seq<Seq<char>>, usize)>::empty());
        assert(steps_pairs(ps0, ms) =~= Seq::<(Seq<Seq<char>>, usize)>::empty());
    } else {
        let pattern1 = pattern.drop_first();
        let ms1 = ms.drop_first();
        assert(seg_matches(ms[0], pattern[0]));
        let ps1 = step_pairs_model(ps0, ms[0]);
        assert(ps1 =~= seq![(pattern1, h)]);
        assert forall|i: int| 0 <= i < ms1.len() implies seg_matches(ms1[i], pattern1[i]) by {
            assert(ms1[i] == ms[i + 1]);
            assert(pattern1[i] == pattern[i + 1]);
        }
        lemma_pattern_resolves_once(pattern1, h, ms1);
        assert(steps_pairs(ps0, ms) == steps_pairs(ps1, ms1));
        assert(ms.drop_last().drop_first() =~= ms1.drop_last());
        assert(ms.drop_last().len() >= 1);
        assert(steps_pairs(ps0, ms.drop_last()) == steps_pairs(
            step_pairs_model(ps0, ms.drop_last()[0]),
            ms.drop_last().drop_first(),
        ));
        assert(ms.drop_last()[0] == ms[0]);
        assert(ms1.last() == ms.last());
    }
}

/// The wildcard/index asymmetry: the wildcard segment `-` passes an
/// array-position test, yet fails the literal test of every concrete
/// index, whose text is all digits.
pub proof fn lemma_wildcard_index_asymmetry(i: usize)
    ensures
        seg_matches(SegMatch::AnyIndex, "-"@),
        !seg_matches(SegMatch::Lit(spec_decimal(i as nat)), "-"@),
{
    reveal_strlit("-");
    lemma_decimal_digits(i as nat);
    if spec_decimal(i as nat) == "-"@ {
        assert(spec_decimal(i as nat)[0] as u32 == '-' as u32);
    }
}

/// A rule registered under the wildcard is resolved by `step_array` and
/// rejected — not kept, not resolved — by `step_index`, for every index.
pub proof fn lemma_wildcard_rule_step(h: usize, i: usize)
    ensures
        step_applicable_model(seq![(seq!["-"@], h)], SegMatch::AnyIndex) =~= seq![h],
        step_applicable_model(seq![(seq!["-"@], h)], SegMatch::Lit(spec_decimal(i as nat)))
            =~= Seq::<usize>::empty(),
        step_pairs_model(seq![(seq!["-"@], h)], SegMatch::Lit(spec_decimal(i as nat))) =~= Seq::<
            (Seq<Seq<char>>, usize),
        >::empty(),
{
    reveal_with_fuel(step_pairs_model, 3);
    reveal_with_fuel(step_applicable_model, 3);
    lemma_wildcard_index_asymmetry(i);
    let ps = seq![(seq!["-"@], h)];
    assert(ps.drop_last() =~= Seq::<(Seq<Seq<char>>, usize)>::empty());
    assert(ps.last().0[0] == "-"@);
}

} // verus!
