use vstd::prelude::*;
use vstd::string::*;

verus! {

/// The value produced by a successful parse step, with the text it left unconsumed.
#[derive(Debug, PartialEq)]
pub struct ParseResult<T> {
    pub value: T,
    pub s: String,
}

impl<T: DeepView> DeepView for ParseResult<T> {
    type V = (T::V, Seq<char>);

    open spec fn deep_view(&self) -> (T::V, Seq<char>) {
        (self.value.deep_view(), self.s@)
    }
}

/// A pure function from text to an optional value and remainder.
pub trait Parser<T: DeepView> {
    /// What the parser yields on `s`: the model of its value and the remainder.
    spec fn spec_parse(&self, s: Seq<char>) -> Option<(T::V, Seq<char>)>;

    /// The functions the parser was built from are total and agree on equal views.
    spec fn well_formed(&self) -> bool;

    fn parse(&self, s: String) -> (r: Option<ParseResult<T>>)
        requires
            self.well_formed(),
        ensures
            r.deep_view() == self.spec_parse(s@),
    ;
}

/// Matches the exact text `lit` at the start of the input.
pub struct Literal {
    pub lit: String,
}

/// Model of matching `lit`: on a text that starts with it, the literal and the rest.
pub open spec fn literal_spec(lit: Seq<char>, s: Seq<char>) -> Option<(Seq<char>, Seq<char>)> {
    if lit.is_prefix_of(s) {
        Some((lit, s.skip(lit.len() as int)))
    } else {
        None
    }
}

impl Parser<String> for Literal {
    open spec fn spec_parse(&self, s: Seq<char>) -> Option<(Seq<char>, Seq<char>)> {
        literal_spec(self.lit@, s)
    }

    open spec fn well_formed(&self) -> bool {
        true
    }

    fn parse(&self, s: String) -> (r: Option<ParseResult<String>>) {
        let lit = self.lit.as_str();
        let input = s.as_str();
        let n = lit.unicode_len();
        let m = input.unicode_len();
        if n > m {
            return None;
        }
        let mut i: usize = 0;
        while i < n
            invariant
                n == lit@.len(),
                m == input@.len(),
                n <= m,
                i <= n,
                lit@ == self.lit@,
                input@ == s@,
                forall|j: int| 0 <= j < i ==> lit@[j] == input@[j],
            decreases n - i,
        {
            if lit.get_char(i) != input.get_char(i) {
                return None;
            }
            i = i + 1;
        }
        assert(lit@ =~= input@.take(n as int));
        let rest = input.substring_char(n, m).to_owned();
        Some(ParseResult { value: self.lit.clone(), s: rest })
    }
}

/// A parser that matches the text `s` at the start of its input.
pub fn string_p(s: String) -> (r: Literal)
    ensures
        r.lit == s,
{
    Literal { lit: s }
}

/// Always succeeds with a copy of `value`, consuming nothing.
pub struct Constant<T> {
    pub value: T,
}

/// Cloning `v` yields a value with the same view.
pub open spec fn clone_keeps_view<T: Clone + DeepView>(v: T) -> bool {
    forall|c: T| #[trigger] cloned(v, c) ==> c.deep_view() == v.deep_view()
}

impl<T: Clone + DeepView> Parser<T> for Constant<T> {
    open spec fn spec_parse(&self, s: Seq<char>) -> Option<(T::V, Seq<char>)> {
        Some((self.value.deep_view(), s))
    }

    open spec fn well_formed(&self) -> bool {
        clone_keeps_view(self.value)
    }

    fn parse(&self, s: String) -> (r: Option<ParseResult<T>>) {
        let v = self.value.clone();
        assert(cloned(self.value, v));
        Some(ParseResult { value: v, s })
    }
}

/// A parser that always succeeds with `value` and leaves its input untouched.
pub fn unit_p<T: Clone + DeepView>(value: T) -> (r: Constant<T>)
    ensures
        r.value == value,
{
    Constant { value }
}

/// A test on characters, with its meaning as a spec function.
pub trait CharPredicate {
    /// The test may be run on every character and answers the same way each time.
    spec fn pred_ready(&self) -> bool;

    /// The character `c` passes the test.
    spec fn holds(&self, c: char) -> bool;

    fn test(&self, c: &char) -> (b: bool)
        requires
            self.pred_ready(),
        ensures
            b == self.holds(*c),
    ;
}

impl<F: Fn(&char) -> bool> CharPredicate for F {
    open spec fn pred_ready(&self) -> bool {
        &&& forall|c: char| #[trigger] self.requires((&c,))
        &&& forall|c: char, b1: bool, b2: bool|
            #[trigger] self.ensures((&c,), b1) && #[trigger] self.ensures((&c,), b2) ==> b1 == b2
    }

    open spec fn holds(&self, c: char) -> bool {
        self.ensures((&c,), true)
    }

    fn test(&self, c: &char) -> (b: bool) {
        self(c)
    }
}

/// Length of the longest prefix of `s` whose characters all satisfy `f`.
pub open spec fn span_len<F: CharPredicate>(f: F, s: Seq<char>) -> nat
    decreases s.len(),
{
    if s.len() == 0 {
        0
    } else if f.holds(s[0]) {
        1 + span_len(f, s.drop_first())
    } else {
        0
    }
}

/// The first `i` characters of `s` satisfy `f`, and the next one, if any, does not:
/// then `i` is the length of the span.
pub proof fn lemma_span_len_at<F: CharPredicate>(f: F, s: Seq<char>, i: int)
    requires
        0 <= i <= s.len(),
        forall|j: int| 0 <= j < i ==> f.holds(#[trigger] s[j]),
        i == s.len() || !f.holds(s[i]),
    ensures
        span_len(f, s) == i,
    decreases i,
{
    if i > 0 {
        assert(f.holds(s[0]));
        let t = s.drop_first();
        assert forall|j: int| 0 <= j < i - 1 implies f.holds(#[trigger] t[j]) by {
            assert(t[j] == s[j + 1]);
        }
        if i < s.len() {
            assert(t[i - 1] == s[i]);
        }
        lemma_span_len_at(f, t, i - 1);
    }
}

/// The span is never longer than the text.
pub proof fn lemma_span_len_bound<F: CharPredicate>(f: F, s: Seq<char>)
    ensures
        span_len(f, s) <= s.len(),
    decreases s.len(),
{
    if s.len() > 0 {
        lemma_span_len_bound(f, s.drop_first());
    }
}

/// Every character of the span satisfies `f`, and the one right after it, if any,
/// does not.
pub proof fn lemma_span_len_stop<F: CharPredicate>(f: F, s: Seq<char>)
    ensures
        span_len(f, s) <= s.len(),
        forall|j: int| 0 <= j < span_len(f, s) ==> f.holds(#[trigger] s[j]),
        span_len(f, s) < s.len() ==> !f.holds(s[span_len(f, s) as int]),
    decreases s.len(),
{
    lemma_span_len_bound(f, s);
    if s.len() > 0 && f.holds(s[0]) {
        let t = s.drop_first();
        lemma_span_len_stop(f, t);
        assert forall|j: int| 0 <= j < span_len(f, s) implies f.holds(#[trigger] s[j]) by {
            if j > 0 {
                assert(s[j] == t[j - 1]);
            }
        }
        if span_len(f, s) < s.len() {
            assert(s[span_len(f, s) as int] == t[span_len(f, t) as int]);
        }
    }
}

/// The maximal run of characters satisfying a predicate; never fails.
pub struct Span<F> {
    pub pred: F,
}

impl<F: CharPredicate> Parser<String> for Span<F> {
    open spec fn spec_parse(&self, s: Seq<char>) -> Option<(Seq<char>, Seq<char>)> {
        let k = span_len(self.pred, s) as int;
        Some((s.take(k), s.skip(k)))
    }

    open spec fn well_formed(&self) -> bool {
        self.pred.pred_ready()
    }

    fn parse(&self, s: String) -> (r: Option<ParseResult<String>>) {
        let input = s.as_str();
        let m = input.unicode_len();
        let mut i: usize = 0;
        while i < m
            invariant
                m == input@.len(),
                input@ == s@,
                i <= m,
                self.pred.pred_ready(),
                forall|j: int| 0 <= j < i ==> self.pred.holds(#[trigger] input@[j]),
            ensures
                i <= m,
                forall|j: int| 0 <= j < i ==> self.pred.holds(#[trigger] input@[j]),
                i == m || !self.pred.holds(input@[i as int]),
            decreases m - i,
        {
            let c = input.get_char(i);
            if !self.pred.test(&c) {
                break;
            }
            i = i + 1;
        }
        proof {
            lemma_span_len_at(self.pred, s@, i as int);
        }
        let value = input.substring_char(0, i).to_owned();
        let rest = input.substring_char(i, m).to_owned();
        Some(ParseResult { value, s: rest })
    }
}

/// A parser that takes the longest prefix whose characters all satisfy `f`.
pub fn while_p<F: Fn(&char) -> bool>(f: F) -> (r: Span<F>)
    ensures
        r.pred == f,
{
    Span { pred: f }
}

/// A function on values, with its meaning on views as a spec function.
pub trait Transform<A: DeepView, B: DeepView> {
    /// The function may be called on every value, and values with equal views give
    /// results with equal views.
    spec fn transform_ready(&self) -> bool;

    /// The view of the result on an argument whose view is `av`.
    spec fn spec_apply(&self, av: A::V) -> B::V;

    fn apply(&self, a: A) -> (b: B)
        requires
            self.transform_ready(),
        ensures
            b.deep_view() == self.spec_apply(a.deep_view()),
    ;
}

/// The view of what `f` returns on an argument whose view is `av`.
pub open spec fn apply1<A: DeepView, B: DeepView, F: Fn(A) -> B>(f: F, av: A::V) -> B::V {
    let (a, b) = choose|a: A, b: B| a.deep_view() == av && #[trigger] f.ensures((a,), b);
    b.deep_view()
}

impl<A: DeepView, B: DeepView, F: Fn(A) -> B> Transform<A, B> for F {
    open spec fn transform_ready(&self) -> bool {
        &&& forall|a: A| #[trigger] self.requires((a,))
        &&& forall|a1: A, a2: A, b1: B, b2: B|
            #[trigger] self.ensures((a1,), b1) && #[trigger] self.ensures((a2,), b2)
                && a1.deep_view() == a2.deep_view() ==> b1.deep_view() == b2.deep_view()
    }

    open spec fn spec_apply(&self, av: A::V) -> B::V {
        apply1::<A, B, F>(*self, av)
    }

    fn apply(&self, a: A) -> (b: B) {
        let b = self(a);
        proof {
            assert(exists|a2: A, b2: B|
                a2.deep_view() == a.deep_view() && #[trigger] self.ensures((a2,), b2));
        }
        b
    }
}

/// Runs `p` and transforms its value with `f`.
pub struct Fmap<P, M, A, B> {
    pub p: P,
    pub f: M,
    pub types: std::marker::PhantomData<(A, B)>,
}

impl<A: DeepView, B: DeepView, P: Parser<A>, M: Transform<A, B>> Parser<B> for Fmap<P, M, A, B> {
    open spec fn spec_parse(&self, s: Seq<char>) -> Option<(B::V, Seq<char>)> {
        match self.p.spec_parse(s) {
            Some((av, r)) => Some((self.f.spec_apply(av), r)),
            None => None,
        }
    }

    open spec fn well_formed(&self) -> bool {
        self.p.well_formed() && self.f.transform_ready()
    }

    fn parse(&self, s: String) -> (r: Option<ParseResult<B>>) {
        match self.p.parse(s) {
            Some(pr) => {
                let ParseResult { value, s: rest } = pr;
                let b = self.f.apply(value);
                Some(ParseResult { value: b, s: rest })
            },
            None => None,
        }
    }
}

/// A parser that runs `pa` and maps its value through `f`.
pub fn fmap<A: DeepView, B: DeepView, P: Parser<A>, F: Fn(A) -> B>(pa: P, f: F) -> (r: Fmap<
    P,
    F,
    A,
    B,
>)
    ensures
        r.p == pa,
        r.f == f,
{
    Fmap { p: pa, f, types: std::marker::PhantomData }
}

/// A parser that runs `pa` and maps its value through the transform `m`.
pub fn fmap_by<A: DeepView, B: DeepView, P: Parser<A>, M: Transform<A, B>>(pa: P, m: M) -> (r: Fmap<
    P,
    M,
    A,
    B,
>)
    ensures
        r.p == pa,
        r.f == m,
{
    Fmap { p: pa, f: m, types: std::marker::PhantomData }
}

/// A function of two values, with its meaning on views as a spec function.
pub trait Combine<A: DeepView, B: DeepView, C: DeepView> {
    /// The function may be called on every pair, and pairs with equal views give
    /// results with equal views.
    spec fn combine_ready(&self) -> bool;

    /// The view of the result on arguments whose views are `av` and `bv`.
    spec fn spec_combine(&self, av: A::V, bv: B::V) -> C::V;

    fn combine(&self, a: A, b: B) -> (c: C)
        requires
            self.combine_ready(),
        ensures
            c.deep_view() == self.spec_combine(a.deep_view(), b.deep_view()),
    ;
}

/// The view of what `f` returns on arguments whose views are `av` and `bv`.
pub open spec fn apply2<A: DeepView, B: DeepView, C: DeepView, F: Fn(A, B) -> C>(
    f: F,
    av: A::V,
    bv: B::V,
) -> C::V {
    let (a, b, c) = choose|a: A, b: B, c: C|
        a.deep_view() == av && b.deep_view() == bv && #[trigger] f.ensures((a, b), c);
    c.deep_view()
}

impl<A: DeepView, B: DeepView, C: DeepView, F: Fn(A, B) -> C> Combine<A, B, C> for F {
    open spec fn combine_ready(&self) -> bool {
        &&& forall|a: A, b: B| #[trigger] self.requires((a, b))
        &&& forall|a1: A, b1: B, a2: A, b2: B, c1: C, c2: C|
            #[trigger] self.ensures((a1, b1), c1) && #[trigger] self.ensures((a2, b2), c2)
                && a1.deep_view() == a2.deep_view() && b1.deep_view() == b2.deep_view()
                ==> c1.deep_view() == c2.deep_view()
    }

    open spec fn spec_combine(&self, av: A::V, bv: B::V) -> C::V {
        apply2::<A, B, C, F>(*self, av, bv)
    }

    fn combine(&self, a: A, b: B) -> (c: C) {
        let c = self(a, b);
        proof {
            assert(exists|a2: A, b2: B, c2: C|
                a2.deep_view() == a.deep_view() && b2.deep_view() == b.deep_view()
                    && #[trigger] self.ensures((a2, b2), c2));
        }
        c
    }
}

/// Model of running `pa` and then `pb` on what `pa` left, combining the two values with
/// `combine` (given on views).
pub open spec fn seq_spec<VA, VB, VC>(
    ra: Option<(VA, Seq<char>)>,
    pb: spec_fn(Seq<char>) -> Option<(VB, Seq<char>)>,
    combine: spec_fn(VA, VB) -> VC,
) -> Option<(VC, Seq<char>)> {
    match ra {
        Some((av, r1)) => match pb(r1) {
            Some((bv, r2)) => Some((combine(av, bv), r2)),
            None => None,
        },
        None => None,
    }
}

/// Runs `pa`, then `pb` on the remainder, and combines both values with `f`.
pub struct Map2<PA, PB, M, A, B> {
    pub pa: PA,
    pub pb: PB,
    pub f: M,
    pub types: std::marker::PhantomData<(A, B)>,
}

impl<
    A: DeepView,
    B: DeepView,
    C: DeepView,
    PA: Parser<A>,
    PB: Parser<B>,
    M: Combine<A, B, C>,
> Parser<C> for Map2<PA, PB, M, A, B> {
    open spec fn spec_parse(&self, s: Seq<char>) -> Option<(C::V, Seq<char>)> {
        seq_spec(
            self.pa.spec_parse(s),
            |r: Seq<char>| self.pb.spec_parse(r),
            |av: A::V, bv: B::V| self.f.spec_combine(av, bv),
        )
    }

    open spec fn well_formed(&self) -> bool {
        self.pa.well_formed() && self.pb.well_formed() && self.f.combine_ready()
    }

    fn parse(&self, s: String) -> (r: Option<ParseResult<C>>) {
        match self.pa.parse(s) {
            Some(ra) => {
                let ParseResult { value: a, s: rest_a } = ra;
                match self.pb.parse(rest_a) {
                    Some(rb) => {
                        let ParseResult { value: b, s: rest_b } = rb;
                        let c = self.f.combine(a, b);
                        Some(ParseResult { value: c, s: rest_b })
                    },
                    None => None,
                }
            },
            None => None,
        }
    }
}

/// A parser that runs `pa` then `pb` and combines their values with `f`.
pub fn map2<A: DeepView, B: DeepView, C: DeepView, PA: Parser<A>, PB: Parser<B>, F: Fn(A, B) -> C>(
    pa: PA,
    pb: PB,
    f: F,
) -> (r: Map2<PA, PB, F, A, B>)
    ensures
        r.pa == pa,
        r.pb == pb,
        r.f == f,
{
    Map2 { pa, pb, f, types: std::marker::PhantomData }
}

/// Runs `pa` and `pb` in turn and keeps the value of `pa`.
pub struct Left<PA, PB> {
    pub pa: PA,
    pub pb: PB,
}

impl<A: DeepView, PA: Parser<A>, PB: Parser<A>> Parser<A> for Left<PA, PB> {
    open spec fn spec_parse(&self, s: Seq<char>) -> Option<(A::V, Seq<char>)> {
        seq_spec(
            self.pa.spec_parse(s),
            |r: Seq<char>| self.pb.spec_parse(r),
            |av: A::V, bv: A::V| av,
        )
    }

    open spec fn well_formed(&self) -> bool {
        self.pa.well_formed() && self.pb.well_formed()
    }

    fn parse(&self, s: String) -> (r: Option<ParseResult<A>>) {
        match self.pa.parse(s) {
            Some(ra) => {
                let ParseResult { value: a, s: rest_a } = ra;
                match self.pb.parse(rest_a) {
                    Some(rb) => Some(ParseResult { value: a, s: rb.s }),
                    None => None,
                }
            },
            None => None,
        }
    }
}

/// A parser that runs `pa` then `pb` and keeps the value of `pa`.
pub fn left<A: DeepView, PA: Parser<A>, PB: Parser<A>>(pa: PA, pb: PB) -> (r: Left<PA, PB>)
    ensures
        r.pa == pa,
        r.pb == pb,
{
    Left { pa, pb }
}

/// Runs `pa` and `pb` in turn and keeps the value of `pb`.
pub struct Right<PA, PB> {
    pub pa: PA,
    pub pb: PB,
}

impl<A: DeepView, PA: Parser<A>, PB: Parser<A>> Parser<A> for Right<PA, PB> {
    open spec fn spec_parse(&self, s: Seq<char>) -> Option<(A::V, Seq<char>)> {
        seq_spec(
            self.pa.spec_parse(s),
            |r: Seq<char>| self.pb.spec_parse(r),
            |av: A::V, bv: A::V| bv,
        )
    }

    open spec fn well_formed(&self) -> bool {
        self.pa.well_formed() && self.pb.well_formed()
    }

    fn parse(&self, s: String) -> (r: Option<ParseResult<A>>) {
        match self.pa.parse(s) {
            Some(ra) => self.pb.parse(ra.s),
            None => None,
        }
    }
}

/// A parser that runs `pa` then `pb` and keeps the value of `pb`.
pub fn right<A: DeepView, PA: Parser<A>, PB: Parser<A>>(pa: PA, pb: PB) -> (r: Right<PA, PB>)
    ensures
        r.pa == pa,
        r.pb == pb,
{
    Right { pa, pb }
}

/// Model of ordered choice: the first result if there is one, else the second.
pub open spec fn or_spec<V>(ra: Option<(V, Seq<char>)>, rb: Option<(V, Seq<char>)>) -> Option<
    (V, Seq<char>),
> {
    match ra {
        Some(x) => Some(x),
        None => rb,
    }
}

/// Tries `pa` on the input, and `pb` on the same input where `pa` fails.
pub struct Or<PA, PB> {
    pub pa: PA,
    pub pb: PB,
}

impl<A: DeepView, PA: Parser<A>, PB: Parser<A>> Parser<A> for Or<PA, PB> {
    open spec fn spec_parse(&self, s: Seq<char>) -> Option<(A::V, Seq<char>)> {
        or_spec(self.pa.spec_parse(s), self.pb.spec_parse(s))
    }

    open spec fn well_formed(&self) -> bool {
        self.pa.well_formed() && self.pb.well_formed()
    }

    fn parse(&self, s: String) -> (r: Option<ParseResult<A>>) {
        match self.pa.parse(s.clone()) {
            Some(ra) => Some(ra),
            None => self.pb.parse(s),
        }
    }
}

/// A left-biased choice between `pa1` and `pa2`.
pub fn or<A: DeepView, PA: Parser<A>, PB: Parser<A>>(pa1: PA, pa2: PB) -> (r: Or<PA, PB>)
    ensures
        r.pa == pa1,
        r.pb == pa2,
{
    Or { pa: pa1, pb: pa2 }
}

/// Model of repetition: apply `p` while it succeeds and shortens the text, collecting
/// the values in order; the remainder is what the last step left.
pub open spec fn many_spec<V>(p: spec_fn(Seq<char>) -> Option<(V, Seq<char>)>, s: Seq<char>) -> (
    Seq<V>,
    Seq<char>,
)
    decreases s.len(),
{
    match p(s) {
        Some((v, r)) => if r.len() < s.len() {
            let (vs, rest) = many_spec(p, r);
            (seq![v] + vs, rest)
        } else {
            (seq![], s)
        },
        None => (seq![], s),
    }
}

/// Applies `p` repeatedly and collects its values; matching nothing is a success.
/// A step that succeeds without consuming text ends the repetition and is not counted,
/// so the repetition always terminates.
pub struct Many<P> {
    pub p: P,
}

impl<A: DeepView, P: Parser<A>> Parser<Vec<A>> for Many<P> {
    open spec fn spec_parse(&self, s: Seq<char>) -> Option<(Seq<A::V>, Seq<char>)> {
        Some(many_spec(|r: Seq<char>| self.p.spec_parse(r), s))
    }

    open spec fn well_formed(&self) -> bool {
        self.p.well_formed()
    }

    fn parse(&self, s: String) -> (r: Option<ParseResult<Vec<A>>>) {
        let ghost pf = |r: Seq<char>| self.p.spec_parse(r);
        let mut v: Vec<A> = Vec::new();
        let mut cur = s;
        loop
            invariant
                self.p.well_formed(),
                pf == (|r: Seq<char>| self.p.spec_parse(r)),
                v.deep_view() + many_spec(pf, cur@).0 == many_spec(pf, s@).0,
                many_spec(pf, cur@).1 == many_spec(pf, s@).1,
            ensures
                v.deep_view() == many_spec(pf, s@).0,
                cur@ == many_spec(pf, s@).1,
            decreases cur@.len(),
        {
            let before = cur.as_str().unicode_len();
            match self.p.parse(cur.clone()) {
                Some(pr) => {
                    let ParseResult { value, s: rest } = pr;
                    let after = rest.as_str().unicode_len();
                    if after < before {
                        let ghost old_v = v.deep_view();
                        v.push(value);
                        assert(v.deep_view() =~= old_v.push(value.deep_view()));
                        assert(many_spec(pf, cur@).0 =~= seq![value.deep_view()] + many_spec(
                            pf,
                            rest@,
                        ).0);
                        assert(v.deep_view() + many_spec(pf, rest@).0 =~= old_v + many_spec(
                            pf,
                            cur@,
                        ).0);
                        cur = rest;
                    } else {
                        assert(many_spec(pf, cur@).0 =~= Seq::<A::V>::empty());
                        assert(v.deep_view() + many_spec(pf, cur@).0 =~= v.deep_view());
                        break ;
                    }
                },
                None => {
                    assert(many_spec(pf, cur@).0 =~= Seq::<A::V>::empty());
                    assert(v.deep_view() + many_spec(pf, cur@).0 =~= v.deep_view());
                    break ;
                },
            }
        }
        Some(ParseResult { value: v, s: cur })
    }
}

/// A parser that applies `pa` as many times as it succeeds, zero times included.
pub fn many1<A: DeepView, P: Parser<A>>(pa: P) -> (r: Many<P>)
    ensures
        r.p == pa,
{
    Many { p: pa }
}


/// A literal parser run on its own text followed by any text `t` yields the literal and
/// leaves exactly `t`; on a text that does not start with the literal it fails.
pub proof fn law_literal(p: Literal, t: Seq<char>)
    ensures
        p.spec_parse(p.lit@ + t) == Some((p.lit@, t)),
        !p.lit@.is_prefix_of(t) ==> p.spec_parse(t) is None,
{
    let l = p.lit@;
    assert((l + t).take(l.len() as int) =~= l);
    assert((l + t).skip(l.len() as int) =~= t);
}

/// A span parser always succeeds; its value is the longest prefix of the text whose
/// characters all pass the predicate, and value followed by remainder is the text.
pub proof fn law_span<F: CharPredicate>(p: Span<F>, t: Seq<char>)
    ensures
        p.spec_parse(t) matches Some((v, r)) && v + r == t && (forall|j: int|
            0 <= j < v.len() ==> p.pred.holds(#[trigger] v[j])) && (v.len() < t.len()
            ==> !p.pred.holds(t[v.len() as int])),
{
    lemma_span_len_stop(p.pred, t);
    let k = span_len(p.pred, t) as int;
    assert(t.take(k) + t.skip(k) =~= t);
    assert forall|j: int| 0 <= j < k implies p.pred.holds(#[trigger] t.take(k)[j]) by {
        assert(t.take(k)[j] == t[j]);
    }
}

/// Ordered choice is left-biased: where both alternatives succeed, the result is that of
/// the first.
pub proof fn law_or_left_biased<A: DeepView, PA: Parser<A>, PB: Parser<A>>(
    p: Or<PA, PB>,
    s: Seq<char>,
)
    requires
        p.pa.spec_parse(s) is Some,
        p.pb.spec_parse(s) is Some,
    ensures
        p.spec_parse(s) == p.pa.spec_parse(s),
{
}

/// Repetition over a parser that fails at once yields no values and leaves the text
/// untouched.
pub proof fn law_many_no_match<A: DeepView, P: Parser<A>>(p: Many<P>, s: Seq<char>)
    requires
        p.p.spec_parse(s) is None,
    ensures
        p.spec_parse(s) == Some((Seq::<A::V>::empty(), s)),
{
    assert(many_spec(|r: Seq<char>| p.p.spec_parse(r), s).0 =~= Seq::<A::V>::empty());
}
} // verus!
