//! A recursive-descent parser for a stream grammar of nested groups and
//! garbage runs with escape characters, and the group scoring rule: a group
//! scores its nesting depth, and a stream scores the sum over its groups.

use vstd::prelude::*;
use crate::text::chars_of;
use crate::text::is_space;
use crate::text::is_space_exec;

verus! {

/// A parsed stream element: a garbage run or a group of nested elements.
#[derive(Debug)]
pub enum Class {
    Garbage,
    Group(Vec<Class>),
}

/// Where the parser currently stands in the grammar.
pub enum State {
    Begin,
    InGroup,
    InGarbage,
}

/// The score of one element when its own group would count `base`: garbage
/// scores nothing, a group scores `base` plus its children at `base + 1`.
pub open spec fn class_score(c: Class, base: int) -> int
    decreases c,
{
    match c {
        Class::Garbage => 0,
        Class::Group(g) => base + sum_scores(g@, base + 1),
    }
}

/// The total score of a list of elements, each counted at `base`.
pub open spec fn sum_scores(items: Seq<Class>, base: int) -> int
    decreases items,
{
    if items.len() == 0 {
        0
    } else {
        class_score(items[0], base) + sum_scores(items.drop_first(), base)
    }
}

/// Scores are at least the base, and never negative for nonnegative bases.
pub proof fn lemma_class_score_lb(c: Class, base: int)
    requires
        base >= 0,
    ensures
        class_score(c, base) >= 0,
        c is Group ==> class_score(c, base) >= base,
    decreases c,
{
    match c {
        Class::Garbage => {},
        Class::Group(g) => {
            lemma_sum_scores_lb(g@, base + 1);
        },
    }
}

/// A list of elements never scores negatively for a nonnegative base.
pub proof fn lemma_sum_scores_lb(items: Seq<Class>, base: int)
    requires
        base >= 0,
    ensures
        sum_scores(items, base) >= 0,
    decreases items,
{
    if items.len() > 0 {
        lemma_class_score_lb(items[0], base);
        lemma_sum_scores_lb(items.drop_first(), base);
    }
}

proof fn lemma_sum_scores_push(items: Seq<Class>, c: Class, base: int)
    ensures
        sum_scores(items.push(c), base) == sum_scores(items, base) + class_score(c, base),
    decreases items,
{
    let p = items.push(c);
    assert(p.len() == items.len() + 1);
    assert(sum_scores(p, base) == class_score(p[0], base) + sum_scores(p.drop_first(), base));
    if items.len() == 0 {
        assert(p.drop_first() =~= Seq::<Class>::empty());
        assert(p[0] == c);
        assert(sum_scores(p.drop_first(), base) == 0);
    } else {
        assert(p.drop_first() =~= items.drop_first().push(c));
        assert(p[0] == items[0]);
        lemma_sum_scores_push(items.drop_first(), c, base);
        assert(sum_scores(items, base) == class_score(items[0], base) + sum_scores(
            items.drop_first(),
            base,
        ));
    }
}

/// The position just past a garbage run scanned from `i`: escapes skip the
/// following character, a closing angle bracket ends the run, and a run that
/// the text ends before closing has no end.
pub open spec fn g_end(s: Seq<char>, i: int) -> Option<int>
    decreases s.len() - i,
{
    if i < 0 || i >= s.len() {
        None
    } else if s[i] == '!' {
        if i + 1 >= s.len() {
            None
        } else {
            g_end(s, i + 2)
        }
    } else if s[i] == '>' {
        Some(i + 1)
    } else {
        g_end(s, i + 1)
    }
}

/// A garbage run that ends, ends past where it starts and within the text.
pub proof fn lemma_g_end_advances(s: Seq<char>, i: int)
    requires
        g_end(s, i) is Some,
    ensures
        i < g_end(s, i).unwrap() <= s.len(),
    decreases s.len() - i,
{
    if s[i] == '!' {
        lemma_g_end_advances(s, i + 2);
    } else if s[i] == '>' {
    } else {
        lemma_g_end_advances(s, i + 1);
    }
}

/// Scans group content from position `i` at nesting depth `d` with `sc`
/// already scored, and yields the stream's total score once the depth-1 group
/// closes; a malformed stream yields nothing.
pub open spec fn scan_score(s: Seq<char>, i: int, d: int, sc: int) -> Option<int>
    decreases s.len() - i,
    via scan_score_decreases
{
    if i < 0 || i >= s.len() {
        None
    } else if s[i] == '!' {
        if i + 1 >= s.len() {
            None
        } else {
            scan_score(s, i + 2, d, sc)
        }
    } else if s[i] == '{' {
        scan_score(s, i + 1, d + 1, sc + d + 1)
    } else if s[i] == '<' {
        match g_end(s, i) {
            Some(j) => scan_score(s, j, d, sc),
            None => None,
        }
    } else if s[i] == '}' {
        if d == 1 {
            Some(sc)
        } else {
            scan_score(s, i + 1, d - 1, sc)
        }
    } else if s[i] == ',' {
        scan_score(s, i + 1, d, sc)
    } else {
        None
    }
}

#[via_fn]
proof fn scan_score_decreases(s: Seq<char>, i: int, d: int, sc: int) {
    if 0 <= i < s.len() && s[i] == '<' && g_end(s, i) is Some {
        lemma_g_end_advances(s, i);
    }
}

/// Text with surrounding whitespace dropped from the front.
pub open spec fn trim_front(s: Seq<char>) -> Seq<char>
    decreases s.len(),
{
    if s.len() > 0 && is_space(s[0]) {
        trim_front(s.drop_first())
    } else {
        s
    }
}

/// Text with surrounding whitespace dropped from the back.
pub open spec fn trim_back(s: Seq<char>) -> Seq<char>
    decreases s.len(),
{
    if s.len() > 0 && is_space(s.last()) {
        trim_back(s.drop_last())
    } else {
        s
    }
}

/// Text with surrounding ASCII whitespace dropped.
pub open spec fn trim_spec(s: Seq<char>) -> Seq<char> {
    trim_back(trim_front(s))
}

/// The score of a whole stream, when it is a well-formed group.
pub open spec fn stream_score(s: Seq<char>) -> Option<int> {
    if s.len() > 0 && s[0] == '{' {
        scan_score(s, 0, 0, 0)
    } else {
        None
    }
}

impl Class {
    /// The score of this element when its own group would count `base`.
    pub fn get_score(&self, base: i32) -> (r: i32)
        requires
            base >= 1,
            class_score(*self, base as int) <= i32::MAX - 1,
        ensures
            r as int == class_score(*self, base as int),
        decreases *self,
    {
        match self {
            Class::Garbage => 0,
            Class::Group(g) => {
                let mut total: i32 = base;
                let mut i: usize = 0;
                proof {
                    lemma_sum_scores_lb(g@, base + 1);
                    assert(g@.skip(0) =~= g@);
                }
                while i < g.len()
                    invariant
                        i <= g@.len(),
                        base >= 1,
                        *self == Class::Group(*g),
                        class_score(*self, base as int) <= i32::MAX - 1,
                        class_score(*self, base as int) == total + sum_scores(
                            g@.skip(i as int),
                            base + 1,
                        ),
                        total >= base,
                    decreases g@.len() - i,
                {
                    proof {
                        assert(g@.skip(i as int)[0] == g@[i as int]);
                        assert(g@.skip(i as int).drop_first() =~= g@.skip(i + 1));
                        lemma_class_score_lb(g@[i as int], base + 1);
                        lemma_sum_scores_lb(g@.skip(i + 1), base + 1);
                        assert(decreases_to!(*self => g@[i as int]));
                    }
                    let child = &g[i];
                    let cs = child.get_score(base + 1);
                    total = total + cs;
                    i = i + 1;
                }
                proof {
                    assert(g@.skip(g@.len() as int) =~= Seq::<Class>::empty());
                }
                total
            },
        }
    }
}

/// The parser: the trimmed input characters and a cursor.
pub struct Parser {
    pub state: State,
    pub chars: Vec<char>,
    pub curr: usize,
}

impl Parser {
    /// The cursor never runs past the end.
    pub open spec fn wf(&self) -> bool {
        self.curr <= self.chars@.len()
    }

    /// A parser over `input` with surrounding whitespace dropped.
    pub fn new(input: &str) -> (p: Parser)
        ensures
            p.wf(),
            p.curr == 0,
            p.chars@ == trim_spec(input@),
            p.state is Begin,
    {
        let cs = chars_of(input);
        let n = cs.len();
        proof {
            assert(cs@.skip(0) =~= cs@);
        }
        let mut a: usize = 0;
        while a < n && is_space_exec(cs[a])
            invariant
                cs@ == input@,
                n == cs@.len(),
                a <= n,
                trim_front(input@) == trim_front(cs@.skip(a as int)),
            decreases n - a,
        {
            proof {
                assert(cs@.skip(a as int).drop_first() =~= cs@.skip(a + 1));
            }
            a = a + 1;
        }
        proof {
            assert(trim_front(input@) == cs@.skip(a as int));
        }
        let mut b: usize = n;
        while b > a && is_space_exec(cs[b - 1])
            invariant
                cs@ == input@,
                n == cs@.len(),
                a <= b <= n,
                trim_front(input@) == cs@.skip(a as int),
                trim_back(cs@.skip(a as int)) == trim_back(cs@.subrange(a as int, b as int)),
            decreases b,
        {
            proof {
                assert(cs@.subrange(a as int, b as int).drop_last() =~= cs@.subrange(
                    a as int,
                    b - 1,
                ));
                assert(cs@.subrange(a as int, b as int).last() == cs@[b - 1]);
            }
            b = b - 1;
        }
        proof {
            if b > a {
                assert(cs@.subrange(a as int, b as int).last() == cs@[b - 1]);
            }
            assert(trim_back(cs@.subrange(a as int, b as int)) == cs@.subrange(a as int, b as int));
        }
        let mut t: Vec<char> = Vec::new();
        let mut i: usize = a;
        while i < b
            invariant
                a <= i <= b <= cs@.len(),
                t@ =~= cs@.subrange(a as int, i as int),
            decreases b - i,
        {
            t.push(cs[i]);
            i = i + 1;
        }
        proof {
            assert(t@ =~= cs@.subrange(a as int, b as int));
            assert(cs@.skip(a as int) =~= cs@.subrange(a as int, n as int));
        }
        Parser { state: State::Begin, chars: t, curr: 0 }
    }

    /// Whether the cursor has reached the end of the text.
    pub fn is_at_end(&self) -> (r: bool)
        ensures
            r == (self.curr >= self.chars@.len()),
    {
        self.curr >= self.chars.len()
    }

    /// The character under the cursor, if any.
    pub fn peek(&self) -> (r: Option<char>)
        ensures
            r == if self.curr < self.chars@.len() {
                Some(self.chars@[self.curr as int])
            } else {
                Option::<char>::None
            },
    {
        if self.is_at_end() {
            None
        } else {
            Some(self.chars[self.curr])
        }
    }

    /// The character after the one under the cursor, if any.
    pub fn peek_next(&self) -> (r: Option<char>)
        ensures
            r == if self.curr + 1 < self.chars@.len() {
                Some(self.chars@[self.curr + 1])
            } else {
                Option::<char>::None
            },
    {
        if self.curr >= self.chars.len() {
            None
        } else if self.curr + 1 >= self.chars.len() {
            None
        } else {
            Some(self.chars[self.curr + 1])
        }
    }

    /// Takes the character under the cursor, advancing past it.
    pub fn next(&mut self) -> (r: Option<char>)
        requires
            old(self).wf(),
        ensures
            final (self).wf(),
            final (self).chars@ == old(self).chars@,
            final (self).state == old(self).state,
            r == if old(self).curr < old(self).chars@.len() {
                Some(old(self).chars@[old(self).curr as int])
            } else {
                Option::<char>::None
            },
            final (self).curr == if old(self).curr < old(self).chars@.len() {
                old(self).curr + 1
            } else {
                old(self).curr as int
            },
    {
        if self.curr >= self.chars.len() {
            None
        } else {
            self.curr = self.curr + 1;
            Some(self.chars[self.curr - 1])
        }
    }

    /// Takes the character under the cursor when it is the expected one.
    pub fn expect(&mut self, next_char: char) -> (r: Result<char, ()>)
        requires
            old(self).wf(),
        ensures
            final (self).wf(),
            final (self).chars@ == old(self).chars@,
            final (self).state == old(self).state,
            r == if old(self).curr < old(self).chars@.len() && old(self).chars@[old(
                self,
            ).curr as int] == next_char {
                Result::<char, ()>::Ok(next_char)
            } else {
                Result::<char, ()>::Err(())
            },
            r is Ok ==> final (self).curr == old(self).curr + 1,
            r is Err ==> final (self).curr == old(self).curr,
    {
        if let Some(next) = self.peek() {
            if next == next_char {
                let c = self.next();
                match c {
                    Some(cc) => Ok(cc),
                    None => Err(()),
                }
            } else {
                Err(())
            }
        } else {
            Err(())
        }
    }

    /// Consumes one garbage run: everything up to the closing angle bracket,
    /// escapes skipping the character behind them.
    pub fn parse_garbage(&mut self) -> (r: Result<Class, ()>)
        requires
            old(self).wf(),
        ensures
            final (self).wf(),
            final (self).chars@ == old(self).chars@,
            final (self).state is InGarbage,
            (r is Ok) == (g_end(old(self).chars@, old(self).curr as int) is Some),
            r is Ok ==> r == Result::<Class, ()>::Ok(Class::Garbage) && g_end(
                old(self).chars@,
                old(self).curr as int,
            ) == Some(final (self).curr as int),
    {
        self.state = State::InGarbage;
        let ghost s = self.chars@;
        let ghost c0 = self.curr as int;
        loop
            invariant_except_break
                self.wf(),
                self.chars@ == s,
                s == old(self).chars@,
                c0 == old(self).curr as int,
                self.state is InGarbage,
                g_end(s, c0) == g_end(s, self.curr as int),
            ensures
                self.wf(),
                self.chars@ == s,
                s == old(self).chars@,
                c0 == old(self).curr as int,
                self.state is InGarbage,
                g_end(s, c0) is Some,
                g_end(s, c0) == Some(self.curr as int),
            decreases s.len() - self.curr,
        {
            let n = self.peek();
            match n {
                Some(c) => {
                    if c == '!' {
                        let _ = self.next();
                        let _ = self.next();
                    } else if c == '>' {
                        let _ = self.next();
                        break ;
                    } else {
                        let _ = self.next();
                    }
                },
                None => {
                    return Err(());
                },
            }
        }
        Ok(Class::Garbage)
    }

    /// Consumes one group, starting at its opening brace, building the list
    /// of its parsed children.
    pub fn parse_group(&mut self) -> (r: Result<Class, ()>)
        requires
            old(self).wf(),
            old(self).curr < old(self).chars@.len(),
            old(self).chars@[old(self).curr as int] == '{',
        ensures
            final (self).wf(),
            final (self).chars@ == old(self).chars@,
            final (self).state is InGroup,
            r is Ok ==> r->Ok_0 is Group && final (self).curr > old(self).curr,
            r is Ok ==> forall|d: int, sc: int|
                d >= 0 ==> #[trigger] scan_score(old(self).chars@, old(self).curr as int, d, sc)
                    == if d == 0 {
                    Some(sc + class_score(r->Ok_0, 1))
                } else {
                    scan_score(
                        old(self).chars@,
                        final (self).curr as int,
                        d,
                        sc + class_score(r->Ok_0, d + 1),
                    )
                },
            r is Err ==> forall|d: int, sc: int|
                d >= 0 ==> #[trigger] scan_score(old(self).chars@, old(self).curr as int, d, sc)
                    is None,
        decreases old(self).chars@.len() - old(self).curr,
    {
        let ghost s = self.chars@;
        let ghost g0 = self.curr as int;
        let _ = self.expect('{');
        self.state = State::InGroup;
        let mut contents: Vec<Class> = Vec::new();
        proof {
            assert(sum_scores(contents@, 0) == 0);
        }
        loop
            invariant_except_break
                self.wf(),
                self.chars@ == s,
                s == old(self).chars@,
                g0 == old(self).curr as int,
                self.state is InGroup,
                g0 < self.curr <= s.len(),
                s[g0] == '{',
                forall|d: int, sc: int|
                    d >= 0 ==> #[trigger] scan_score(s, g0, d, sc) == scan_score(
                        s,
                        self.curr as int,
                        d + 1,
                        sc + d + 1 + sum_scores(contents@, d + 2),
                    ),
            ensures
                self.wf(),
                self.chars@ == s,
                s == old(self).chars@,
                g0 == old(self).curr as int,
                self.state is InGroup,
                g0 < self.curr <= s.len(),
                forall|d: int, sc: int|
                    d >= 0 ==> #[trigger] scan_score(s, g0, d, sc) == (if d == 0 {
                        Some(sc + class_score(Class::Group(contents), 1))
                    } else {
                        scan_score(
                            s,
                            self.curr as int,
                            d,
                            sc + class_score(Class::Group(contents), d + 1),
                        )
                    }),
            decreases s.len() - self.curr,
        {
            let ghost cpre = self.curr as int;
            let ghost items = contents@;
            let n = self.peek();
            match n {
                Some(c) => {
                    if c == '!' {
                        let _ = self.next();
                        let _ = self.next();
                        proof {
                            assert forall|d: int, sc: int| d >= 0 implies #[trigger] scan_score(
                                s,
                                g0,
                                d,
                                sc,
                            ) == scan_score(
                                s,
                                self.curr as int,
                                d + 1,
                                sc + d + 1 + sum_scores(contents@, d + 2),
                            ) by {
                                let x = sc + d + 1 + sum_scores(items, d + 2);
                                assert(scan_score(s, g0, d, sc) == scan_score(s, cpre, d + 1, x));
                                if cpre + 1 >= s.len() {
                                    assert(scan_score(s, cpre, d + 1, x) is None);
                                    assert(self.curr as int >= s.len());
                                    assert(scan_score(s, self.curr as int, d + 1, x) is None);
                                } else {
                                    assert(scan_score(s, cpre, d + 1, x) == scan_score(
                                        s,
                                        cpre + 2,
                                        d + 1,
                                        x,
                                    ));
                                }
                            }
                        }
                    } else if c == '{' {
                        let sub = self.parse_group();
                        match sub {
                            Ok(cls) => {
                                let ghost cls_g = cls;
                                let ghost cmid = self.curr as int;
                                contents.push(cls);
                                proof {
                                    assert forall|d: int, sc: int| d >= 0 implies #[trigger] scan_score(
                                        s,
                                        g0,
                                        d,
                                        sc,
                                    ) == scan_score(
                                        s,
                                        self.curr as int,
                                        d + 1,
                                        sc + d + 1 + sum_scores(contents@, d + 2),
                                    ) by {
                                        let x = sc + d + 1 + sum_scores(items, d + 2);
                                        assert(scan_score(s, g0, d, sc) == scan_score(
                                            s,
                                            cpre,
                                            d + 1,
                                            x,
                                        ));
                                        assert(scan_score(s, cpre, d + 1, x) == scan_score(
                                            s,
                                            cmid,
                                            d + 1,
                                            x + class_score(cls_g, d + 2),
                                        ));
                                        lemma_sum_scores_push(items, cls_g, d + 2);
                                    }
                                }
                            },
                            Err(e) => {
                                proof {
                                    assert forall|d: int, sc: int| d >= 0 implies #[trigger] scan_score(
                                        s,
                                        g0,
                                        d,
                                        sc,
                                    ) is None by {
                                        let x = sc + d + 1 + sum_scores(items, d + 2);
                                        assert(scan_score(s, g0, d, sc) == scan_score(
                                            s,
                                            cpre,
                                            d + 1,
                                            x,
                                        ));
                                        assert(scan_score(s, cpre, d + 1, x) is None);
                                    }
                                }
                                return Err(e);
                            },
                        }
                    } else if c == '<' {
                        let sub = self.parse_garbage();
                        self.state = State::InGroup;
                        match sub {
                            Ok(_cls) => {
                                let ghost cmid = self.curr as int;
                                contents.push(Class::Garbage);
                                proof {
                                    lemma_g_end_advances(s, cpre);
                                    assert forall|d: int, sc: int| d >= 0 implies #[trigger] scan_score(
                                        s,
                                        g0,
                                        d,
                                        sc,
                                    ) == scan_score(
                                        s,
                                        self.curr as int,
                                        d + 1,
                                        sc + d + 1 + sum_scores(contents@, d + 2),
                                    ) by {
                                        let x = sc + d + 1 + sum_scores(items, d + 2);
                                        assert(scan_score(s, g0, d, sc) == scan_score(
                                            s,
                                            cpre,
                                            d + 1,
                                            x,
                                        ));
                                        assert(g_end(s, cpre) == Some(cmid));
                                        assert(scan_score(s, cpre, d + 1, x) == scan_score(
                                            s,
                                            cmid,
                                            d + 1,
                                            x,
                                        ));
                                        lemma_sum_scores_push(items, Class::Garbage, d + 2);
                                    }
                                }
                            },
                            Err(e) => {
                                proof {
                                    assert forall|d: int, sc: int| d >= 0 implies #[trigger] scan_score(
                                        s,
                                        g0,
                                        d,
                                        sc,
                                    ) is None by {
                                        let x = sc + d + 1 + sum_scores(items, d + 2);
                                        assert(scan_score(s, g0, d, sc) == scan_score(
                                            s,
                                            cpre,
                                            d + 1,
                                            x,
                                        ));
                                        assert(g_end(s, cpre) is None);
                                        assert(scan_score(s, cpre, d + 1, x) is None);
                                    }
                                }
                                return Err(e);
                            },
                        }
                    } else if c == '}' {
                        let _ = self.next();
                        proof {
                            assert forall|d: int, sc: int| d >= 0 implies #[trigger] scan_score(
                                s,
                                g0,
                                d,
                                sc,
                            ) == (if d == 0 {
                                Some(sc + class_score(Class::Group(contents), 1))
                            } else {
                                scan_score(
                                    s,
                                    self.curr as int,
                                    d,
                                    sc + class_score(Class::Group(contents), d + 1),
                                )
                            }) by {
                                let x = sc + d + 1 + sum_scores(items, d + 2);
                                assert(scan_score(s, g0, d, sc) == scan_score(s, cpre, d + 1, x));
                                assert(s[cpre] == '}');
                                assert(class_score(Class::Group(contents), d + 1) == d + 1
                                    + sum_scores(contents@, d + 2));
                            }
                        }
                        break ;
                    } else if c == ',' {
                        let _ = self.next();
                        proof {
                            assert forall|d: int, sc: int| d >= 0 implies #[trigger] scan_score(
                                s,
                                g0,
                                d,
                                sc,
                            ) == scan_score(
                                s,
                                self.curr as int,
                                d + 1,
                                sc + d + 1 + sum_scores(contents@, d + 2),
                            ) by {
                                let x = sc + d + 1 + sum_scores(items, d + 2);
                                assert(scan_score(s, g0, d, sc) == scan_score(s, cpre, d + 1, x));
                                assert(scan_score(s, cpre, d + 1, x) == scan_score(
                                    s,
                                    cpre + 1,
                                    d + 1,
                                    x,
                                ));
                            }
                        }
                    } else {
                        proof {
                            assert forall|d: int, sc: int| d >= 0 implies #[trigger] scan_score(
                                s,
                                g0,
                                d,
                                sc,
                            ) is None by {
                                let x = sc + d + 1 + sum_scores(items, d + 2);
                                assert(scan_score(s, g0, d, sc) == scan_score(s, cpre, d + 1, x));
                                assert(scan_score(s, cpre, d + 1, x) is None);
                            }
                        }
                        return Err(());
                    }
                },
                None => {
                    proof {
                        assert forall|d: int, sc: int| d >= 0 implies #[trigger] scan_score(
                            s,
                            g0,
                            d,
                            sc,
                        ) is None by {
                            let x = sc + d + 1 + sum_scores(items, d + 2);
                            assert(scan_score(s, g0, d, sc) == scan_score(s, cpre, d + 1, x));
                            assert(scan_score(s, cpre, d + 1, x) is None);
                        }
                    }
                    return Err(());
                },
            }
        }
        Ok(Class::Group(contents))
    }

    /// Parses a whole stream, which must start with a group.
    pub fn parse(&mut self) -> (r: Result<Class, ()>)
        requires
            old(self).wf(),
        ensures
            final (self).wf(),
            final (self).chars@ == old(self).chars@,
            r is Ok ==> forall|sc: int|
                #[trigger] scan_score(old(self).chars@, old(self).curr as int, 0, sc) == Some(
                    sc + class_score(r->Ok_0, 1),
                ),
            r is Err && old(self).curr < old(self).chars@.len() && old(self).chars@[old(
                self,
            ).curr as int] == '{' ==> scan_score(old(self).chars@, old(self).curr as int, 0, 0)
                is None,
    {
        match self.peek() {
            Some(c) => {
                if c == '{' {
                    self.parse_group()
                } else {
                    Err(())
                }
            },
            _ => Err(()),
        }
    }
}

/// Parses `input` (surrounding whitespace ignored) and returns its total
/// group score, the outermost group counting 1.
pub fn get_score(input: &str) -> (r: i32)
    requires
        stream_score(trim_spec(input@)) is Some,
        stream_score(trim_spec(input@)).unwrap() <= i32::MAX - 1,
    ensures
        r as int == stream_score(trim_spec(input@)).unwrap(),
{
    let mut parser = Parser::new(input);
    let res = parser.parse();
    match res {
        Ok(class) => {
            proof {
                lemma_class_score_lb(class, 1);
            }
            class.get_score(1)
        },
        Err(_) => {
            proof {
                assert(false);
            }
            0
        },
    }
}

} // verus!
